//! Where units start, told from each character and the one before it.
//!
//! A unit starts behind a word or the punctuation after it: at white space, at a letter that no
//! letter precedes, at a digit that no digit precedes, and at punctuation that belongs to the next
//! word. Sixty-four places are looked at together, as the bits of machine words.
use crate::tables::one_kind;
use crate::tok::{C_NUM, C_WORD, C_WS};
use crate::unit::{find, lemma_find, lemma_run, lemma_span, span_at, word_mask, C_ALNUM, C_STOP};
use vstd::prelude::*;

verus! {

/// Whether index `i` has a class of the mask.
pub open spec fn marked(cl: Seq<u8>, i: int, mask: u8) -> bool {
    0 <= i < cl.len() && cl[i] & mask != 0
}

/// Whether index `i` is in a word, or in the punctuation that belongs to a word before it.
pub open spec fn in_word(cl: Seq<u8>, i: int, punct_to_next: bool) -> bool
    decreases i + 1,
{
    &&& 0 <= i < cl.len()
    &&& marked(cl, i, C_ALNUM) || (!punct_to_next && !marked(cl, i, C_STOP) && in_word(
        cl,
        i - 1,
        punct_to_next,
    ))
}

/// Whether a unit other than the first one starts at index `i`.
pub open spec fn starts_unit(cl: Seq<u8>, i: int, punct_to_next: bool) -> bool {
    &&& 0 <= i < cl.len()
    &&& in_word(cl, i - 1, punct_to_next)
    &&& {
        ||| marked(cl, i, C_WS)
        ||| !marked(cl, i, C_STOP) && punct_to_next
        ||| marked(cl, i, C_WORD) && !marked(cl, i - 1, C_WORD)
        ||| marked(cl, i, C_NUM) && !marked(cl, i - 1, C_NUM)
    }
}

/// What a class is, bit by bit.
pub proof fn lemma_kinds(c: u8)
    ensures
        c & C_ALNUM != 0 <==> c & C_WORD != 0 || c & C_NUM != 0,
        c & C_STOP != 0 <==> c & C_WORD != 0 || c & C_NUM != 0 || c & C_WS != 0,
{
    assert(c & 3 != 0 <==> c & 1 != 0 || c & 2 != 0) by (bit_vector);
    assert(c & 7 != 0 <==> c & 1 != 0 || c & 2 != 0 || c & 4 != 0) by (bit_vector);
}

/// Between a start and the word that follows it, nothing is in a word.
proof fn lemma_before_word(cl: Seq<u8>, a: int, i: int, punct_to_next: bool)
    requires
        0 <= a <= i < find(cl, a, C_ALNUM),
        a < cl.len(),
        a == 0 || starts_unit(cl, a, punct_to_next),
    ensures
        !in_word(cl, i, punct_to_next),
    decreases i,
{
    lemma_find(cl, a, C_ALNUM);
    assert(cl[i] & C_ALNUM == 0);
    lemma_kinds(cl[i]);
    reveal_with_fuel(in_word, 2);
    if i > a {
        lemma_before_word(cl, a, i - 1, punct_to_next);
    }
}

/// Behind a word, punctuation is in the word.
proof fn lemma_behind_word(cl: Seq<u8>, c: int, i: int)
    requires
        0 < c <= i < find(cl, c, C_STOP),
        c <= cl.len(),
        in_word(cl, c - 1, false),
    ensures
        in_word(cl, i, false),
    decreases i,
{
    lemma_find(cl, c, C_STOP);
    assert(cl[i] & C_STOP == 0);
    if i > c {
        lemma_behind_word(cl, c, i - 1);
    }
}

/// A unit reaches from its start to the next one: no unit starts inside it, and one starts where
/// it ends, unless the text ends there.
pub proof fn lemma_next_start(cl: Seq<u8>, a: int, punct_to_next: bool)
    requires
        forall|i: int| 0 <= i < cl.len() ==> one_kind(#[trigger] cl[i]),
        0 <= a < cl.len(),
        a == 0 || starts_unit(cl, a, punct_to_next),
    ensures
        ({
            let end = span_at(cl, a, punct_to_next).end;
            &&& a < end <= cl.len()
            &&& end < cl.len() ==> starts_unit(cl, end, punct_to_next)
            &&& forall|i: int| a < i < end ==> !starts_unit(cl, i, punct_to_next)
        }),
{
    let sp = span_at(cl, a, punct_to_next);
    lemma_span(cl, a, punct_to_next);
    lemma_find(cl, a, C_ALNUM);
    if !sp.junk {
        let mask = word_mask(cl[sp.word]);
        lemma_kinds(cl[sp.word]);
        lemma_run(cl, sp.word, mask);
        lemma_find(cl, sp.word_end, C_STOP);
        assert(cl[sp.word_end - 1] & mask != 0);
        lemma_kinds(cl[sp.word_end - 1]);
        assert(in_word(cl, sp.word_end - 1, punct_to_next));
        if sp.end < cl.len() {
            lemma_kinds(cl[sp.end]);
            if sp.end > sp.word_end {
                lemma_behind_word(cl, sp.word_end, sp.end - 1);
                assert(cl[sp.end - 1] & C_STOP == 0);
                lemma_kinds(cl[sp.end - 1]);
            } else {
                assert(one_kind(cl[sp.end - 1]));
                assert(cl[sp.end] & mask == 0);
            }
        }
    }
    assert forall|i: int| a < i < sp.end implies !starts_unit(cl, i, punct_to_next) by {
        if i <= sp.word {
            lemma_before_word(cl, a, i - 1, punct_to_next);
        } else if i < sp.word_end {
            let mask = word_mask(cl[sp.word]);
            assert(cl[i] & mask != 0);
            assert(cl[i - 1] & mask != 0);
            assert(one_kind(cl[i]));
            lemma_kinds(cl[i]);
        } else {
            assert(cl[i] & C_STOP == 0);
            lemma_kinds(cl[i]);
        }
    }
}

/// How many units start below index `n`, besides the first one.
pub open spec fn starts_below(cl: Seq<u8>, n: int, punct_to_next: bool) -> nat
    decreases n,
{
    if n <= 0 {
        0
    } else {
        starts_below(cl, n - 1, punct_to_next) + (if starts_unit(cl, n - 1, punct_to_next) {
            1nat
        } else {
            0nat
        })
    }
}

/// Bit `i` of a machine word.
pub open spec fn bit(x: u64, i: u64) -> bool {
    (x >> i) & 1 == 1
}

proof fn lemma_bit_or(x: u64, y: u64, i: u64)
    ensures
        i < 64 ==> bit(x | (1u64 << y), i) == (bit(x, i) || (y < 64 && i == y)),
{
    assert(i < 64 && y < 64 ==> ((((x | (1u64 << y)) >> i) & 1 == 1) == ((x >> i) & 1 == 1 || i
        == y))) by (bit_vector);
    assert(i < 64 && y >= 64 ==> ((((x | (1u64 << y)) >> i) & 1 == 1) == ((x >> i) & 1 == 1)))
        by (bit_vector);
}

/// Adding the first place of some runs of ones clears exactly those runs.
proof fn lemma_runs(p: u64, wd: u64, pt: u64, starts: u64, psuf: u64)
    requires
        pt <= 1,
        p & wd == 0,
        starts == p & ((wd << 1) | pt),
        psuf == p & !(p.wrapping_add(starts)),
    ensures
        psuf == p & (((wd | psuf) << 1) | pt),
{
    let sum: u64 = p.wrapping_add(starts);
    assert(p + starts > 0xffff_ffff_ffff_ffff ==> (p + starts) as u64 == p + starts
        - 0x1_0000_0000_0000_0000) by (bit_vector);
    assert(sum == (p + starts) as u64);
    assert(psuf == p & (((wd | psuf) << 1) | pt)) by (bit_vector)
        requires
            pt <= 1,
            p & wd == 0,
            starts == p & ((wd << 1) | pt),
            sum == (p + starts) as u64,
            psuf == p & !sum,
    ;
}

/// Clearing the lowest bit that is set.
pub proof fn lemma_clear_lowest(x: u64, low: u64, i: u64)
    requires
        x != 0,
        low == x.trailing_zeros(),
        i < 64,
    ensures
        bit(x & ((x - 1) as u64), i) == (bit(x, i) && i != low),
        x & ((x - 1) as u64) < x,
        low < 64,
        bit(x, low),
        i < low ==> !bit(x, i),
{
    assert(bit(x, low));
    let up: u64 = (64 - low) as u64;
    assert(x << up == 0);
    assert(((x & ((x - 1) as u64)) >> i) & 1 == 1 <==> ((x >> i) & 1 == 1 && i != low))
        by (bit_vector)
        requires
            x != 0,
            low < 64,
            i < 64,
            (x >> low) & 1 == 1,
            up == 64 - low,
            x << up == 0,
    ;
    assert(x != 0 ==> x & ((x - 1) as u64) < x) by (bit_vector);
}

pub proof fn lemma_bit_zero(i: u64)
    ensures
        !bit(0, i),
{
    assert((0u64 >> i) & 1 != 1) by (bit_vector);
}

/// The lowest `len` bits.
spec fn low_bits(len: u64) -> u64 {
    if len < 64 {
        ((1u64 << len) - 1) as u64
    } else {
        u64::MAX
    }
}

proof fn lemma_low_bits(len: u64, i: u64)
    requires
        i < 64,
        len <= 64,
    ensures
        bit(low_bits(len), i) == (i < len),
        len < 64 ==> 1u64 << len >= 1,
{
    assert(len < 64 && i < 64 ==> ((((((1u64 << len) - 1) as u64) >> i) & 1 == 1) == (i < len)))
        by (bit_vector);
    assert(i < 64 ==> (0xffff_ffff_ffff_ffffu64 >> i) & 1 == 1) by (bit_vector);
    assert(len < 64 ==> 1u64 << len >= 1) by (bit_vector);
}

/// A block of up to sixty-four places, one bit for each: which are letters, digits, white space
/// and others, which of the others and which of all are in a word, and where units start. The
/// bits of the place before the block say whether it is a letter, a digit and in a word.
struct Block {
    word: u64,
    num: u64,
    space: u64,
    valid: u64,
    other: u64,
    tail: u64,
    inner: u64,
    starts: u64,
    word_before: u64,
    num_before: u64,
    inner_before: u64,
}

/// How the words of a block go together.
spec fn block_made(b: Block, punct_to_next: bool) -> bool {
    &&& b.word_before <= 1
    &&& b.num_before <= 1
    &&& b.inner_before <= 1
    &&& b.other == b.valid & !(b.word | b.num | b.space)
    &&& b.tail == (if punct_to_next {
        0
    } else {
        b.other & (((b.word | b.num | b.tail) << 1) | b.inner_before)
    })
    &&& b.inner == b.word | b.num | b.tail
    &&& b.starts == ((b.inner << 1) | b.inner_before) & (b.space | b.other & !b.tail | (b.word & !((
    b.word << 1) | b.word_before)) | (b.num & !((b.num << 1) | b.num_before)))
}

/// Each bit of a block goes by the bit before it.
proof fn lemma_block_bit(b: Block, punct_to_next: bool, i: u64, j: u64)
    requires
        block_made(b, punct_to_next),
        i < 64,
        i == 0 || i == j + 1,
    ensures
        ({
            let inner_before = if i == 0 {
                b.inner_before == 1
            } else {
                bit(b.inner, j)
            };
            let word_before = if i == 0 {
                b.word_before == 1
            } else {
                bit(b.word, j)
            };
            let num_before = if i == 0 {
                b.num_before == 1
            } else {
                bit(b.num, j)
            };
            let other = bit(b.valid, i) && !bit(b.word, i) && !bit(b.num, i) && !bit(b.space, i);
            &&& bit(b.inner, i) == (bit(b.word, i) || bit(b.num, i) || (other && !punct_to_next
                && inner_before))
            &&& bit(b.starts, i) == (inner_before && (bit(b.space, i) || (other && punct_to_next)
                || (bit(b.word, i) && !word_before) || (bit(b.num, i) && !num_before)))
        }),
{
    let (w, d, sp, valid, p, psuf, t, bnd) = (
        b.word,
        b.num,
        b.space,
        b.valid,
        b.other,
        b.tail,
        b.inner,
        b.starts,
    );
    let (pw, pd, pt) = (b.word_before, b.num_before, b.inner_before);
    assert(bit(t, i) == (bit(w, i) || bit(d, i) || (bit(valid, i) && !bit(w, i) && !bit(d, i)
        && !bit(sp, i) && !punct_to_next && (if i == 0 {
        pt == 1
    } else {
        bit(t, j)
    })))) by (bit_vector)
        requires
            i < 64,
            i == 0 || i == j + 1,
            pt <= 1,
            p == valid & !(w | d | sp),
            t == w | d | psuf,
            punct_to_next ==> psuf == 0,
            !punct_to_next ==> psuf == p & (((w | d | psuf) << 1) | pt),
    ;
    assert(bit(bnd, i) == ((if i == 0 {
        pt == 1
    } else {
        bit(t, j)
    }) && (bit(sp, i) || (bit(valid, i) && !bit(w, i) && !bit(d, i) && !bit(sp, i)
        && punct_to_next) || (bit(w, i) && !(if i == 0 {
        pw == 1
    } else {
        bit(w, j)
    })) || (bit(d, i) && !(if i == 0 {
        pd == 1
    } else {
        bit(d, j)
    }))))) by (bit_vector)
        requires
            i < 64,
            i == 0 || i == j + 1,
            pw <= 1,
            pd <= 1,
            pt <= 1,
            p == valid & !(w | d | sp),
            t == w | d | psuf,
            punct_to_next ==> psuf == 0,
            !punct_to_next ==> psuf == p & (((w | d | psuf) << 1) | pt),
            bnd == ((t << 1) | pt) & (sp | p & !psuf | (w & !((w << 1) | pw)) | (d & !((d << 1)
                | pd))),
    ;
}

/// What a block needs to know of the place before it: whether it is a letter, a digit and in a
/// word, each as a bit.
#[derive(Clone, Copy)]
pub struct Before {
    pub word: u64,
    pub num: u64,
    pub inner: u64,
}

/// Whether the bits are those of the place before `pos`.
pub open spec fn is_before(b: Before, cl: Seq<u8>, pos: int, punct_to_next: bool) -> bool {
    &&& b.word == (if marked(cl, pos - 1, C_WORD) {
        1u64
    } else {
        0u64
    })
    &&& b.num == (if marked(cl, pos - 1, C_NUM) {
        1u64
    } else {
        0u64
    })
    &&& b.inner == (if in_word(cl, pos - 1, punct_to_next) {
        1u64
    } else {
        0u64
    })
}

/// Whether the bits of a mask are the classes of the `len` places from `pos` on.
spec fn masks(x: u64, cl: Seq<u8>, pos: int, len: int, mask: u8) -> bool {
    forall|i: u64|
        i < 64 ==> #[trigger] bit(x, i) == (i < len && marked(cl, pos + i, mask))
}

/// The bits of a block say what is in a word and where units start.
proof fn lemma_block(b: Block, cl: Seq<u8>, pos: int, len: int, punct_to_next: bool, i: u64)
    requires
        block_made(b, punct_to_next),
        0 <= pos,
        0 < len <= 64,
        pos + len <= cl.len(),
        is_before(
            Before { word: b.word_before, num: b.num_before, inner: b.inner_before },
            cl,
            pos,
            punct_to_next,
        ),
        masks(b.word, cl, pos, len, C_WORD),
        masks(b.num, cl, pos, len, C_NUM),
        masks(b.space, cl, pos, len, C_WS),
        b.valid == low_bits(len as u64),
        i < 64,
    ensures
        i < len ==> bit(b.inner, i) == in_word(cl, pos + i, punct_to_next),
        bit(b.starts, i) == (i < len && starts_unit(cl, pos + i, punct_to_next)),
    decreases i,
{
    let j = (i - 1) as u64;
    if i > 0 {
        lemma_block(b, cl, pos, len, punct_to_next, j);
        assert(bit(b.word, j) == (j < len && marked(cl, pos + j, C_WORD)));
        assert(bit(b.num, j) == (j < len && marked(cl, pos + j, C_NUM)));
    }
    lemma_block_bit(b, punct_to_next, i, j);
    lemma_low_bits(len as u64, i);
    assert(bit(b.word, i) == (i < len && marked(cl, pos + i, C_WORD)));
    assert(bit(b.num, i) == (i < len && marked(cl, pos + i, C_NUM)));
    assert(bit(b.space, i) == (i < len && marked(cl, pos + i, C_WS)));
    if i < len {
        lemma_kinds(cl[pos + i]);
    }
}

/// Which places of a block have a class of the mask, one bit for each.
fn class_mask(block: &Vec<u8>, mask: u8) -> (x: u64)
    requires
        block@.len() <= 64,
    ensures
        masks(x, block@, 0, block@.len() as int, mask),
{
    let mut x: u64 = 0;
    let mut i: usize = 0;
    assert forall|k: u64| k < 64 implies #[trigger] bit(x, k) == (k < 0 && marked(
        block@,
        0 + k,
        mask,
    )) by {
        lemma_bit_zero(k);
    }
    while i < block.len()
        invariant
            i <= block@.len() <= 64,
            masks(x, block@, 0, i as int, mask),
        decreases block@.len() - i,
    {
        if block[i] & mask != 0 {
            let ghost before = x;
            let place: u64 = i as u64;
            x = x | (1u64 << place);
            assert forall|k: u64| k < 64 implies #[trigger] bit(x, k) == (k < i + 1 && marked(
                block@,
                0 + k,
                mask,
            )) by {
                lemma_bit_or(before, place, k);
                assert(bit(before, k) == (k < i && marked(block@, 0 + k, mask)));
            }
        } else {
            assert forall|k: u64| k < 64 implies #[trigger] bit(x, k) == (k < i + 1 && marked(
                block@,
                0 + k,
                mask,
            )) by {
                assert(bit(x, k) == (k < i && marked(block@, 0 + k, mask)));
            }
        }
        i = i + 1;
    }
    x
}

/// Where units start among the places of a block, one bit for each, and what the next block needs
/// to know of the last place. The block is the part from `pos` on of a sequence of classes.
pub(crate) fn block_starts(
    block: &Vec<u8>,
    before: Before,
    punct_to_next: bool,
    cl: Ghost<Seq<u8>>,
    pos: Ghost<int>,
) -> (r: (u64, Before))
    requires
        0 <= pos@,
        0 < block@.len() <= 64,
        pos@ + block@.len() <= cl@.len(),
        block@ == cl@.subrange(pos@, pos@ + block@.len()),
        is_before(before, cl@, pos@, punct_to_next),
    ensures
        forall|i: u64|
            i < 64 ==> #[trigger] bit(r.0, i) == (i < block@.len() && starts_unit(
                cl@,
                pos@ + i,
                punct_to_next,
            )),
        block@.len() == 64 ==> is_before(r.1, cl@, pos@ + 64, punct_to_next),
{
    let ghost len = block@.len() as int;
    let word: u64 = class_mask(block, C_WORD);
    let num: u64 = class_mask(block, C_NUM);
    let space: u64 = class_mask(block, C_WS);
    let n: u64 = block.len() as u64;
    proof {
        lemma_low_bits(n, 0);
    }
    let valid: u64 = if n == 64 {
        u64::MAX
    } else {
        (1u64 << n) - 1
    };
    let other: u64 = valid & !(word | num | space);
    let first: u64 = other & (((word | num) << 1) | before.inner);
    let tail: u64 = if punct_to_next {
        0
    } else {
        other & !(other.wrapping_add(first))
    };
    let inner: u64 = word | num | tail;
    let starts: u64 = ((inner << 1) | before.inner) & (space | other & !tail | (word & !((word << 1)
        | before.word)) | (num & !((num << 1) | before.num)));
    let next = Before { word: word >> 63, num: num >> 63, inner: inner >> 63 };
    proof {
        let b = Block {
            word,
            num,
            space,
            valid,
            other,
            tail,
            inner,
            starts,
            word_before: before.word,
            num_before: before.num,
            inner_before: before.inner,
        };
        if !punct_to_next {
            assert((valid & !(word | num | space)) & (word | num) == 0) by (bit_vector);
            lemma_runs(other, word | num, before.inner, first, tail);
        }
        lemma_part_masks(word, block@, cl@, pos@, C_WORD);
        lemma_part_masks(num, block@, cl@, pos@, C_NUM);
        lemma_part_masks(space, block@, cl@, pos@, C_WS);
        assert forall|i: u64| i < 64 implies #[trigger] bit(starts, i) == (i < block@.len()
            && starts_unit(cl@, pos@ + i, punct_to_next)) by {
            lemma_block(b, cl@, pos@, len, punct_to_next, i);
        }
        lemma_block(b, cl@, pos@, len, punct_to_next, 63);
        assert(bit(word, 63) == (63 < len && marked(cl@, pos@ + 63, C_WORD)));
        assert(bit(num, 63) == (63 < len && marked(cl@, pos@ + 63, C_NUM)));
        lemma_last_bit(word);
        lemma_last_bit(num);
        lemma_last_bit(inner);
    }
    (starts, next)
}

proof fn lemma_last_bit(x: u64)
    ensures
        x >> 63 == (if bit(x, 63) {
            1u64
        } else {
            0u64
        }),
{
    assert(x >> 63 == (if (x >> 63) & 1 == 1 {
        1u64
    } else {
        0u64
    })) by (bit_vector);
}

/// The classes of a part are those of the whole.
proof fn lemma_part_masks(x: u64, block: Seq<u8>, cl: Seq<u8>, pos: int, mask: u8)
    requires
        0 <= pos,
        pos + block.len() <= cl.len(),
        block == cl.subrange(pos, pos + block.len()),
        masks(x, block, 0, block.len() as int, mask),
    ensures
        masks(x, cl, pos, block.len() as int, mask),
{
    assert forall|i: u64| i < 64 implies #[trigger] bit(x, i) == (i < block.len() && marked(
        cl,
        pos + i,
        mask,
    )) by {
        assert(bit(x, i) == (i < block.len() && marked(block, 0 + i, mask)));
        if i < block.len() {
            assert(block[i as int] == cl[pos + i]);
        }
    }
}

} // verus!
