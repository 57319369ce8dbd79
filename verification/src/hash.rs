//! The hash of a unit's bytes.
use vstd::prelude::*;

verus! {

pub const H1: u64 = 0xa076_1d64_78bd_642f;

pub const H2: u64 = 0xe703_7ed1_a0b4_28db;

pub const H3: u64 = 0x8ebc_6af0_9c88_c6e3;

/// The number whose bytes these are, the lowest one first.
pub open spec fn le_value(bytes: Seq<u8>) -> nat
    decreases bytes.len(),
{
    if bytes.len() == 0 {
        0
    } else {
        bytes[0] as nat + 256 * le_value(bytes.skip(1))
    }
}

/// Up to `n` bytes of a key from index `from` on.
pub open spec fn bytes_at(key: Seq<u8>, from: int, n: int) -> Seq<u8> {
    let len = key.len() as int;
    let a = if from < len {
        from
    } else {
        len
    };
    let b = if a + n < len {
        a + n
    } else {
        len
    };
    key.subrange(a, b)
}

/// The first eight bytes of a key as a number, zeros standing for those that it lacks.
#[verifier::opaque]
pub open spec fn key_lo(key: Seq<u8>) -> u64 {
    le_value(bytes_at(key, 0, 8)) as u64
}

/// The next eight bytes of a key as a number, zeros standing for those that it lacks.
#[verifier::opaque]
pub open spec fn key_hi(key: Seq<u8>) -> u64 {
    le_value(bytes_at(key, 8, 8)) as u64
}

/// The two halves of the product of two numbers, mixed.
pub open spec fn mixed(a: u64, b: u64) -> u64 {
    let product = a * b;
    ((product % 0x1_0000_0000_0000_0000) as u64) ^ ((product / 0x1_0000_0000_0000_0000) as u64)
}

/// The hash of a length and of the first sixteen bytes.
pub open spec fn head_hash(len: int, lo: u64, hi: u64) -> u64 {
    mixed(lo ^ H1, hi ^ H2) ^ (len as u64).wrapping_mul(H3)
}

/// A hash after the bytes that follow have been mixed in, eight at a time.
pub open spec fn tail_hash(h: u64, rest: Seq<u8>) -> u64
    decreases rest.len(),
{
    if rest.len() == 0 {
        h
    } else {
        tail_hash(
            mixed(h ^ le_value(bytes_at(rest, 0, 8)) as u64, H1),
            rest.skip(if rest.len() < 8 {
                rest.len() as int
            } else {
                8
            }),
        )
    }
}

/// The hash of a key whose first sixteen bytes are given as numbers.
#[verifier::opaque]
pub open spec fn hash_of(key: Seq<u8>, lo: u64, hi: u64) -> u64 {
    tail_hash(head_hash(key.len() as int, lo, hi), bytes_at(key, 16, key.len() as int))
}

/// The hash of a key.
#[verifier::opaque]
pub open spec fn key_hash(key: Seq<u8>) -> u64 {
    hash_of(key, key_lo(key), key_hi(key))
}

/// The powers of 256.
pub open spec fn pow256(n: nat) -> nat
    decreases n,
{
    if n == 0 {
        1
    } else {
        256 * pow256((n - 1) as nat)
    }
}

proof fn lemma_pow256(n: nat)
    requires
        n <= 8,
    ensures
        1 <= pow256(n) <= 0x1_0000_0000_0000_0000,
{
    reveal_with_fuel(pow256, 9);
}

/// A few bytes make a number below the power of 256.
pub proof fn lemma_le_value(bytes: Seq<u8>)
    ensures
        le_value(bytes) < pow256(bytes.len()),
    decreases bytes.len(),
{
    if bytes.len() > 0 {
        lemma_le_value(bytes.skip(1));
    }
}

/// Up to eight bytes make a machine number.
pub proof fn lemma_le_value_fits(bytes: Seq<u8>)
    requires
        bytes.len() <= 8,
    ensures
        le_value(bytes) <= u64::MAX,
{
    lemma_le_value(bytes);
    lemma_pow256(bytes.len());
}

/// A number's bytes are determined by it.
pub proof fn lemma_le_value_injective(a: Seq<u8>, b: Seq<u8>)
    requires
        a.len() == b.len(),
        le_value(a) == le_value(b),
    ensures
        a == b,
    decreases a.len(),
{
    if a.len() > 0 {
        lemma_le_value_injective(a.skip(1), b.skip(1));
        assert forall|i: int| 0 <= i < a.len() implies a[i] == b[i] by {
            if i > 0 {
                assert(a[i] == a.skip(1)[i - 1]);
                assert(b[i] == b.skip(1)[i - 1]);
            }
        }
    }
    assert(a =~= b);
}

/// Keys of one length of up to sixteen bytes are equal if their numbers are.
pub proof fn lemma_short_keys(a: Seq<u8>, b: Seq<u8>)
    requires
        a.len() == b.len() <= 16,
        key_lo(a) == key_lo(b),
        key_hi(a) == key_hi(b),
    ensures
        a == b,
{
    reveal(key_lo);
    reveal(key_hi);
    lemma_le_value_fits(bytes_at(a, 0, 8));
    lemma_le_value_fits(bytes_at(b, 0, 8));
    lemma_le_value_fits(bytes_at(a, 8, 8));
    lemma_le_value_fits(bytes_at(b, 8, 8));
    lemma_le_value_injective(bytes_at(a, 0, 8), bytes_at(b, 0, 8));
    lemma_le_value_injective(bytes_at(a, 8, 8), bytes_at(b, 8, 8));
    assert forall|i: int| 0 <= i < a.len() implies a[i] == b[i] by {
        if i < 8 {
            assert(a[i] == bytes_at(a, 0, 8)[i]);
            assert(b[i] == bytes_at(b, 0, 8)[i]);
        } else {
            assert(a[i] == bytes_at(a, 8, 8)[i - 8]);
            assert(b[i] == bytes_at(b, 8, 8)[i - 8]);
        }
    }
    assert(a =~= b);
}

/// The hash of a key goes by its first sixteen bytes as numbers.
pub proof fn lemma_key_hash(key: Seq<u8>)
    ensures
        key_hash(key) == hash_of(key, key_lo(key), key_hi(key)),
        key.len() <= 16 ==> key_hash(key) == head_hash(
            key.len() as int,
            key_lo(key),
            key_hi(key),
        ),
{
    reveal(key_hash);
    reveal(hash_of);
    if key.len() <= 16 {
        assert(bytes_at(key, 16, key.len() as int) =~= seq![]);
    }
}

/// The two halves of the product of two numbers, mixed.
pub fn mum(a: u64, b: u64) -> (r: u64)
    ensures
        r == mixed(a, b),
{
    assert(0 <= a * b <= 0xffff_ffff_ffff_ffff * 0xffff_ffff_ffff_ffff) by (nonlinear_arith)
        requires
            0 <= a <= 0xffff_ffff_ffff_ffff,
            0 <= b <= 0xffff_ffff_ffff_ffff,
    ;
    let p: u128 = (a as u128) * (b as u128);
    assert(p as u64 == p % 0x1_0000_0000_0000_0000) by (bit_vector);
    assert((p >> 64) as u64 == p / 0x1_0000_0000_0000_0000) by (bit_vector);
    (p as u64) ^ ((p >> 64) as u64)
}

/// Up to eight bytes from index `from` on, as a number.
fn le_at(key: &[u8], from: usize) -> (v: u64)
    requires
        from <= key@.len(),
    ensures
        v == le_value(bytes_at(key@, from as int, 8)),
{
    let end: usize = if key.len() - from < 8 {
        key.len()
    } else {
        from + 8
    };
    let mut v: u64 = 0;
    let mut i: usize = end;
    while i > from
        invariant
            from <= i <= end <= key@.len(),
            end - from <= 8,
            v == le_value(key@.subrange(i as int, end as int)),
        decreases i,
    {
        proof {
            let now = key@.subrange(i - 1, end as int);
            assert(now.skip(1) =~= key@.subrange(i as int, end as int));
            lemma_le_value_fits(now);
        }
        i = i - 1;
        v = v * 256 + key[i] as u64;
    }
    assert(bytes_at(key@, from as int, 8) =~= key@.subrange(from as int, end as int));
    v
}

/// The first sixteen bytes of a key as two numbers, zeros standing for those that it lacks.
pub fn load16(k: &[u8]) -> (r: (u64, u64))
    ensures
        r.0 == key_lo(k@),
        r.1 == key_hi(k@),
{
    proof {
        reveal(key_lo);
        reveal(key_hi);
    }
    let lo: u64 = le_at(k, 0);
    let hi: u64 = if k.len() > 8 {
        le_at(k, 8)
    } else {
        assert(bytes_at(k@, 8, 8) =~= seq![]);
        0
    };
    (lo, hi)
}

/// The hash of a length and of the first sixteen bytes.
pub fn hash_head(len: usize, lo: u64, hi: u64) -> (h: u64)
    ensures
        h == head_hash(len as int, lo, hi),
{
    mum(lo ^ H1, hi ^ H2) ^ (len as u64).wrapping_mul(H3)
}

/// The hash of a key whose first sixteen bytes are given as numbers.
pub fn hash_key(k: &[u8], lo: u64, hi: u64) -> (h: u64)
    ensures
        h == hash_of(k@, lo, hi),
        lo == key_lo(k@) && hi == key_hi(k@) ==> h == key_hash(k@),
{
    proof {
        reveal(hash_of);
        lemma_key_hash(k@);
    }
    let mut h: u64 = hash_head(k.len(), lo, hi);
    let mut i: usize = if k.len() > 16 {
        16
    } else {
        k.len()
    };
    assert(bytes_at(k@, 16, k@.len() as int) =~= k@.skip(i as int));
    while i < k.len()
        invariant
            i <= k@.len(),
            hash_of(k@, lo, hi) == tail_hash(h, k@.skip(i as int)),
        decreases k@.len() - i,
    {
        let ghost rest = k@.skip(i as int);
        let word: u64 = le_at(k, i);
        let step: usize = if k.len() - i < 8 {
            k.len() - i
        } else {
            8
        };
        assert(bytes_at(rest, 0, 8) =~= bytes_at(k@, i as int, 8));
        assert(rest.skip(step as int) =~= k@.skip(i + step));
        h = mum(h ^ word, H1);
        i = i + step;
    }
    assert(k@.skip(i as int) =~= seq![]);
    h
}

} // verus!
