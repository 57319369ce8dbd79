//! What tables, rows, hashes and caches hold, told by what was put into them.
use crate::batch::{row, rows};
use crate::cache::CacheState;
use crate::decode::DecodeError;
use crate::hash::{
    bytes_at, hash_of, head_hash, key_hash, key_hi, key_lo, le_value, lemma_key_hash,
    lemma_le_value_fits, mixed, pow256, tail_hash,
};
use crate::marks::{in_word, lemma_kinds, starts_below, starts_unit};
use crate::tables::{
    affix_map, bind_all, bytes_of, bytes_of_all, merge_map, one_kind, zip_map, Tables,
};
use crate::tok::Tok;
use vstd::prelude::*;
use vstd::utf8::encode_utf8;

verus! {

/// Whether `i` is the last index below `n` at which a key stands.
pub open spec fn last_at(keys: Seq<u32>, n: int, i: int) -> bool {
    0 <= i < n && forall|j: int| i < j < n ==> #[trigger] keys[j] != keys[i]
}

/// Of two lists in step, a key is bound to what stands beside it the last time that it stands in
/// the first list, and what does not stand there is not bound.
pub proof fn law_zip(src: Seq<u32>, dst: Seq<u32>, n: int, key: u32)
    requires
        n == (if src.len() < dst.len() {
            src.len()
        } else {
            dst.len()
        }),
    ensures
        forall|i: int| #[trigger]
            last_at(src, n, i) && src[i] == key ==> zip_map(src, dst).contains_key(key) && zip_map(
                src,
                dst,
            )[key] == dst[i],
        (forall|i: int| 0 <= i < n ==> #[trigger] src[i] != key) ==> !zip_map(
            src,
            dst,
        ).contains_key(key),
{
    lemma_bound(src, dst, n, key);
}

proof fn lemma_bound(src: Seq<u32>, dst: Seq<u32>, n: int, key: u32)
    requires
        0 <= n <= src.len(),
        n <= dst.len(),
    ensures
        forall|i: int| #[trigger]
            last_at(src, n, i) && src[i] == key ==> bind_all(src, dst, n).contains_key(key)
                && bind_all(src, dst, n)[key] == dst[i],
        (forall|i: int| 0 <= i < n ==> #[trigger] src[i] != key) ==> !bind_all(
            src,
            dst,
            n,
        ).contains_key(key),
    decreases n,
{
    if n > 0 {
        lemma_bound(src, dst, n - 1, key);
        assert forall|i: int| #[trigger] last_at(src, n, i) && src[i] == key implies bind_all(
            src,
            dst,
            n,
        ).contains_key(key) && bind_all(src, dst, n)[key] == dst[i] by {
            if i < n - 1 {
                assert(src[n - 1] != src[i]);
                assert(last_at(src, n - 1, i));
            }
        }
        if forall|i: int| 0 <= i < n ==> #[trigger] src[i] != key {
            assert(src[n - 1] != key);
        }
    }
}

/// Whether `i` is the last index below `n` at which a pair stands.
pub open spec fn last_pair_at(a: Seq<u32>, b: Seq<u32>, n: int, i: int) -> bool {
    0 <= i < n && forall|j: int| i < j < n ==> (#[trigger] a[j], b[j]) != (a[i], b[i])
}

/// A pair merges at the rank and into the symbol that stand beside it the last time that it stands
/// in the list of merges, and a pair that does not stand there does not merge.
pub proof fn law_merges(
    a: Seq<u32>,
    b: Seq<u32>,
    rank: Seq<u32>,
    out: Seq<u32>,
    n: int,
    pair: (u32, u32),
)
    requires
        n >= 0,
    ensures
        forall|i: int| #[trigger]
            last_pair_at(a, b, n, i) && (a[i], b[i]) == pair ==> merge_map(
                a,
                b,
                rank,
                out,
                n,
            ).contains_key(pair) && merge_map(a, b, rank, out, n)[pair] == (rank[i], out[i]),
        (forall|i: int| 0 <= i < n ==> (#[trigger] a[i], b[i]) != pair) ==> !merge_map(
            a,
            b,
            rank,
            out,
            n,
        ).contains_key(pair),
    decreases n,
{
    if n > 0 {
        law_merges(a, b, rank, out, n - 1, pair);
        assert forall|i: int| #[trigger]
            last_pair_at(a, b, n, i) && (a[i], b[i]) == pair implies merge_map(
            a,
            b,
            rank,
            out,
            n,
        ).contains_key(pair) && merge_map(a, b, rank, out, n)[pair] == (rank[i], out[i]) by {
            if i < n - 1 {
                assert((a[n - 1], b[n - 1]) != (a[i], b[i]));
                assert(last_pair_at(a, b, n - 1, i));
            }
        }
        if forall|i: int| 0 <= i < n ==> (#[trigger] a[i], b[i]) != pair {
            assert((a[n - 1], b[n - 1]) != pair);
        }
    }
}

/// Whether `i` is the last index below `n` at which an affix stands.
pub open spec fn last_affix_at(list: Seq<Seq<u8>>, n: int, i: int) -> bool {
    0 <= i < n && forall|j: int| i < j < n ==> #[trigger] list[j] != list[i]
}

/// An affix has the last index at which it stands in its list as its id. What does not stand there
/// has none, nor has the empty affix.
pub proof fn law_affixes(list: Seq<Seq<u8>>, n: int, affix: Seq<u8>)
    requires
        0 <= n <= 0x1_0000_0000,
    ensures
        forall|i: int| #[trigger]
            last_affix_at(list, n, i) && list[i] == affix && affix.len() > 0 ==> affix_map(
                list,
                n,
            ).contains_key(affix) && affix_map(list, n)[affix] == i,
        (forall|i: int| 0 <= i < n ==> #[trigger] list[i] != affix) ==> !affix_map(
            list,
            n,
        ).contains_key(affix),
        affix.len() == 0 ==> !affix_map(list, n).contains_key(affix),
    decreases n,
{
    if n > 0 {
        law_affixes(list, n - 1, affix);
        assert forall|i: int| #[trigger]
            last_affix_at(list, n, i) && list[i] == affix && affix.len() > 0 implies affix_map(
            list,
            n,
        ).contains_key(affix) && affix_map(list, n)[affix] == i by {
            if i < n - 1 {
                assert(list[n - 1] != list[i]);
                assert(last_affix_at(list, n - 1, i));
            }
        }
        if forall|i: int| 0 <= i < n ==> #[trigger] list[i] != affix {
            assert(list[n - 1] != affix);
        }
    }
}

/// Lists of byte strings are kept in order, each with its bytes.
pub proof fn law_bytes_kept(list: Seq<Vec<u8>>, lists: Seq<Vec<Vec<u8>>>)
    ensures
        bytes_of(list).len() == list.len(),
        forall|i: int| 0 <= i < list.len() ==> #[trigger] bytes_of(list)[i] == list[i]@,
        bytes_of_all(lists).len() == lists.len(),
        forall|i: int|
            0 <= i < lists.len() ==> (#[trigger] bytes_of_all(lists)[i]).len() == lists[i]@.len(),
        forall|i: int, j: int|
            0 <= i < lists.len() && 0 <= j < lists[i]@.len() ==> #[trigger] bytes_of_all(
                lists,
            )[i][j] == lists[i]@[j]@,
{
}

impl Tables {
    /// The class of a code point stands at its place in the class table, and those of a text at
    /// the places of its characters.
    pub proof fn law_classes(self, text: Seq<char>, cp: u32)
        ensures
            self.class(cp) == self.cls[cp as int],
            self.classes(text).len() == text.len(),
            forall|i: int|
                0 <= i < text.len() ==> #[trigger] self.classes(text)[i] == self.cls[(
                text[i] as u32) as int],
    {
    }

    /// The classes are exclusive exactly if no code point is two of letter, digit and white space.
    pub proof fn law_exclusive(self)
        requires
            self.cls.len() == 0x110000,
        ensures
            self.exclusive() <==> forall|cp: u32|
                cp < 0x110000 ==> {
                    &&& !(#[trigger] self.is_letter(cp) && self.is_digit(cp))
                    &&& !(self.is_letter(cp) && self.is_space(cp))
                    &&& !(self.is_digit(cp) && self.is_space(cp))
                },
    {
        if self.exclusive() {
            assert forall|cp: u32| cp < 0x110000 implies {
                &&& !(#[trigger] self.is_letter(cp) && self.is_digit(cp))
                &&& !(self.is_letter(cp) && self.is_space(cp))
                &&& !(self.is_digit(cp) && self.is_space(cp))
            } by {
                assert(one_kind(self.cls[cp as int]));
            }
        }
        if forall|cp: u32|
            cp < 0x110000 ==> {
                &&& !(#[trigger] self.is_letter(cp) && self.is_digit(cp))
                &&& !(self.is_letter(cp) && self.is_space(cp))
                &&& !(self.is_digit(cp) && self.is_space(cp))
            } {
            assert forall|i: int| 0 <= i < self.cls.len() implies one_kind(
                #[trigger] self.cls[i],
            ) by {
                let cp = i as u32;
                assert(!(self.is_letter(cp) && self.is_digit(cp)));
            }
        }
    }

    /// One row of ids that are not negative decodes to the bytes of its prefix, its core in its
    /// variation, and its suffix, in this order, if the tables have all of them. If they lack one,
    /// the row is the error. No rows decode to nothing.
    pub proof fn law_decode_row(self, v: i32, p: i32, c: i32, s: i32)
        requires
            v >= 0,
            p >= 0,
            c >= 0,
            s >= 0,
        ensures
            self.decode(seq![]) == Ok::<Seq<u8>, DecodeError>(seq![]),
            p < self.dec_prefix.len() && v < self.dec_core.len() && c
                < self.dec_core[v as int].len() && s < self.dec_suffix.len() ==> self.decode(
                seq![v, p, c, s],
            ) == Ok::<Seq<u8>, DecodeError>(
                self.dec_prefix[p as int] + self.dec_core[v as int][c as int]
                    + self.dec_suffix[s as int],
            ),
            p >= self.dec_prefix.len() || v >= self.dec_core.len() || (v < self.dec_core.len() && c
                >= self.dec_core[v as int].len()) || s >= self.dec_suffix.len() ==> self.decode(
                seq![v, p, c, s],
            ) == Err::<Seq<u8>, DecodeError>(
                DecodeError::OutOfRange {
                    variation: v as usize,
                    prefix: p as usize,
                    core: c as usize,
                    suffix: s as usize,
                },
            ),
    {
        let ids = seq![v, p, c, s];
        assert(ids.skip(4) =~= seq![]);
        assert(self.decode(ids.skip(4)) == Ok::<Seq<u8>, DecodeError>(seq![]));
        if p < self.dec_prefix.len() && v < self.dec_core.len() && c
            < self.dec_core[v as int].len() && s < self.dec_suffix.len() {
            let bytes = self.dec_prefix[p as int] + self.dec_core[v as int][c as int]
                + self.dec_suffix[s as int];
            assert(bytes + seq![] =~= bytes);
        }
    }
}

/// The signed number that an id is stored as: from 2^31 on it wraps around.
pub open spec fn signed(id: u32) -> int {
    if id < 0x8000_0000 {
        id as int
    } else {
        id - 0x1_0000_0000
    }
}

/// Each token has a row of four ids, in this order: variation, prefix, core, suffix.
pub proof fn law_rows(toks: Seq<Tok>, i: int)
    requires
        0 <= i < toks.len(),
    ensures
        rows(toks).len() == 4 * toks.len(),
        rows(toks)[4 * i] == signed(toks[i].variation),
        rows(toks)[4 * i + 1] == signed(toks[i].prefix),
        rows(toks)[4 * i + 2] == signed(toks[i].core),
        rows(toks)[4 * i + 3] == signed(toks[i].suffix),
    decreases toks.len(),
{
    let rest = toks.skip(1);
    lemma_signed(toks[0].variation);
    lemma_signed(toks[0].prefix);
    lemma_signed(toks[0].core);
    lemma_signed(toks[0].suffix);
    lemma_rows_count(toks);
    if i > 0 {
        law_rows(rest, i - 1);
        assert forall|j: int| 0 <= j < rows(rest).len() implies rows(toks)[4 + j] == #[trigger] rows(
            rest,
        )[j] by {
            assert(rows(toks) == row(toks[0]) + rows(rest));
        }
        lemma_rows_count(rest);
        assert(rows(toks)[4 + 4 * (i - 1)] == rows(rest)[4 * (i - 1)]);
        assert(rows(toks)[4 + (4 * (i - 1) + 1)] == rows(rest)[4 * (i - 1) + 1]);
        assert(rows(toks)[4 + (4 * (i - 1) + 2)] == rows(rest)[4 * (i - 1) + 2]);
        assert(rows(toks)[4 + (4 * (i - 1) + 3)] == rows(rest)[4 * (i - 1) + 3]);
    }
}

proof fn lemma_rows_count(toks: Seq<Tok>)
    ensures
        rows(toks).len() == 4 * toks.len(),
    decreases toks.len(),
{
    if toks.len() > 0 {
        lemma_rows_count(toks.skip(1));
    }
}

proof fn lemma_signed(id: u32)
    ensures
        id as i32 == signed(id),
{
    assert(id >= 0x8000_0000 ==> id as i32 == id - 0x1_0000_0000) by (bit_vector);
}

impl CacheState {
    /// A cache with room takes what is offered: the key is then bound to the tokens, and one more
    /// unit is held.
    pub proof fn law_takes_what_fits(self, key: Seq<u8>, toks: Seq<Tok>)
        requires
            self.size < self.limit,
            key.len() <= 65535,
            toks.len() < 32768,
            self.key_bytes <= 0xFFFF_FFFF,
            self.spilled <= 0xFFFF_FFFF,
            2 * self.slots <= usize::MAX,
        ensures
            self.store(key, toks).entries == self.entries.insert(key, toks),
            self.store(key, toks).size == self.size + 1,
            self.store(key, toks).limit == self.limit,
    {
    }

    /// Room in the arenas matters only to what goes there: a key of at most sixteen bytes is taken
    /// whatever the long keys need, and a single token of small ids whatever other tokens need.
    pub proof fn law_takes_what_is_small(self, key: Seq<u8>, tok: Tok)
        requires
            self.size < self.limit,
            key.len() <= 16,
            tok.variation <= 65535,
            tok.prefix <= 65535,
            tok.core <= 65535,
            tok.suffix <= 65535,
            2 * self.slots <= usize::MAX,
        ensures
            self.store(key, seq![tok]).entries == self.entries.insert(key, seq![tok]),
            self.store(key, seq![tok]).size == self.size + 1,
            self.store(key, seq![tok]).key_bytes == self.key_bytes,
            self.store(key, seq![tok]).spilled == self.spilled,
    {
    }

    /// A full cache takes nothing, nor does any cache take a key or tokens that are too long, what
    /// starts beyond 32 bits in its arena, or what it cannot grow for.
    pub proof fn law_refuses(self, key: Seq<u8>, toks: Seq<Tok>)
        requires
            self.size >= self.limit || key.len() > 65535 || toks.len() >= 32768 || (key.len() > 16
                && self.key_bytes > 0xFFFF_FFFF) || (toks.len() != 1 && self.spilled > 0xFFFF_FFFF)
                || (2 * (self.size + 1) > self.slots && 2 * self.slots > usize::MAX),
        ensures
            self.store(key, toks) == self,
    {
    }

    /// A table doubles exactly when it takes a unit and would be more than half full with it.
    pub proof fn law_doubles(self, key: Seq<u8>, toks: Seq<Tok>)
        ensures
            self.store(key, toks).slots == (if self.store(key, toks).size > self.size && 2
                * self.store(key, toks).size > self.slots {
                2 * self.slots
            } else {
                self.slots
            }),
    {
    }

    /// The arenas grow by what goes into them: the bytes of keys longer than sixteen, and tokens
    /// other than a single one of small ids.
    pub proof fn law_arenas(self, key: Seq<u8>, toks: Seq<Tok>)
        requires
            self.store(key, toks).size == self.size + 1,
        ensures
            self.store(key, toks).key_bytes == self.key_bytes + (if key.len() > 16 {
                key.len()
            } else {
                0
            }),
            self.store(key, toks).spilled == self.spilled + (if toks.len() == 1
                && toks[0].variation <= 65535 && toks[0].prefix <= 65535 && toks[0].core <= 65535
                && toks[0].suffix <= 65535 {
                0
            } else {
                toks.len()
            }),
            self.store(key, toks).entries == self.entries.insert(key, toks),
    {
    }

    /// A new cache has its limit and nothing else.
    pub proof fn law_empty(limit: nat)
        ensures
            CacheState::empty(limit).limit == limit,
            CacheState::empty(limit).size == 0,
            CacheState::empty(limit).slots == 4096,
            CacheState::empty(limit).key_bytes == 0,
            CacheState::empty(limit).spilled == 0,
            forall|key: Seq<u8>| !CacheState::empty(limit).entries.contains_key(key),
    {
    }
}

impl Tables {
    /// Looking a unit up teaches a cache with room its tokens, and changes nothing if they are
    /// known.
    pub proof fn law_cache_learns(self, c: CacheState, unit: Seq<char>)
        requires
            self.owns(c),
            c.size < c.limit,
            encode_utf8(unit).len() <= 65535,
            self.unit_toks(unit).len() < 32768,
            c.key_bytes <= 0xFFFF_FFFF,
            c.spilled <= 0xFFFF_FFFF,
            2 * c.slots <= usize::MAX,
        ensures
            self.looked_up(c, unit).entries.contains_key(encode_utf8(unit)),
            self.looked_up(c, unit).entries[encode_utf8(unit)] == self.unit_toks(unit),
            c.entries.contains_key(encode_utf8(unit)) ==> self.looked_up(c, unit) == c,
            !c.entries.contains_key(encode_utf8(unit)) ==> self.looked_up(c, unit).size == c.size
                + 1,
    {
        vstd::utf8::encode_utf8_decode_utf8(unit);
        c.law_takes_what_fits(encode_utf8(unit), self.unit_toks(unit));
    }

    /// A unit that is not known is offered to the cache with its tokens, under its bytes.
    pub proof fn law_lookup(self, c: CacheState, unit: Seq<char>)
        ensures
            !c.entries.contains_key(encode_utf8(unit)) ==> self.looked_up(c, unit) == c.store(
                encode_utf8(unit),
                self.unit_toks(unit),
            ),
            c.entries.contains_key(encode_utf8(unit)) ==> self.looked_up(c, unit) == c,
    {
    }

    /// Units are looked up one after the other.
    pub proof fn law_lookups_in_order(self, c: CacheState, a: Seq<Seq<char>>, b: Seq<Seq<char>>)
        ensures
            self.all_looked_up(c, a + b) == self.all_looked_up(self.all_looked_up(c, a), b),
            a.len() == 0 ==> self.all_looked_up(c, a) == c,
            a.len() == 1 ==> self.all_looked_up(c, a) == self.looked_up(c, a[0]),
        decreases a.len(),
    {
        if a.len() == 0 {
            assert(a + b =~= b);
        } else {
            self.law_lookups_in_order(self.looked_up(c, a[0]), a.skip(1), b);
            assert((a + b).skip(1) =~= a.skip(1) + b);
        }
    }
}

/// A place is in a word if it is a letter or a digit, or punctuation behind such a place, unless
/// punctuation belongs to the next word. A unit starts behind such a place at white space, at
/// punctuation that belongs to the next word, at a letter that no letter precedes, and at a digit
/// that no digit precedes.
pub proof fn law_starts(cl: Seq<u8>, i: int, punct_to_next: bool)
    requires
        0 <= i < cl.len(),
    ensures
        in_word(cl, i, punct_to_next) == (cl[i] & 1 != 0 || cl[i] & 2 != 0 || (!punct_to_next
            && cl[i] & 4 == 0 && i > 0 && in_word(cl, i - 1, punct_to_next))),
        starts_unit(cl, i, punct_to_next) == (i > 0 && in_word(cl, i - 1, punct_to_next) && (cl[i]
            & 4 != 0 || (cl[i] & 1 == 0 && cl[i] & 2 == 0 && punct_to_next) || (cl[i] & 1 != 0
            && cl[i - 1] & 1 == 0) || (cl[i] & 2 != 0 && cl[i - 1] & 2 == 0))),
        starts_below(cl, i + 1, punct_to_next) == starts_below(cl, i, punct_to_next) + (
        if starts_unit(cl, i, punct_to_next) {
            1nat
        } else {
            0nat
        }),
        starts_below(cl, 0, punct_to_next) == 0,
{
    lemma_kinds(cl[i]);
    reveal_with_fuel(in_word, 2);
}

/// The number that bytes make, the lowest first: a single byte is itself, and bytes behind others
/// count as many times 256 as there are others.
pub proof fn law_le_value(a: Seq<u8>, b: Seq<u8>, x: u8)
    ensures
        le_value(seq![x]) == x,
        le_value(a + b) == le_value(a) + pow256(a.len()) * le_value(b),
        pow256(0) == 1,
        pow256(a.len() + 1) == 256 * pow256(a.len()),
    decreases a.len(),
{
    let one = seq![x];
    assert(one.skip(1) =~= seq![]);
    reveal_with_fuel(le_value, 2);
    if a.len() == 0 {
        assert(a + b =~= b);
        assert(1 * le_value(b) == le_value(b));
    } else {
        let rest = a.skip(1);
        law_le_value(rest, b, x);
        assert((a + b).skip(1) =~= rest + b);
        let (p, q) = (pow256(rest.len()) as int, le_value(b) as int);
        assert(256 * (p * q) == (256 * p) * q) by (nonlinear_arith);
        assert(pow256(a.len()) == 256 * p);
        assert(pow256(rest.len()) * le_value(b) == p * q);
        assert(pow256(a.len()) * le_value(b) == (256 * p) * q);
        assert(le_value(a) == a[0] as nat + 256 * le_value(rest));
        assert(le_value(a + b) == (a + b)[0] as nat + 256 * le_value(rest + b));
    }
}

/// The two numbers of a key are made of its first eight bytes and of the next eight, as far as it
/// has them.
pub proof fn law_key_numbers(key: Seq<u8>)
    ensures
        key.len() >= 16 ==> key_lo(key) == le_value(key.take(8)) && key_hi(key) == le_value(
            key.subrange(8, 16),
        ),
        8 <= key.len() < 16 ==> key_lo(key) == le_value(key.take(8)) && key_hi(key) == le_value(
            key.skip(8),
        ),
        key.len() < 8 ==> key_lo(key) == le_value(key) && key_hi(key) == 0,
{
    reveal(key_lo);
    reveal(key_hi);
    lemma_le_value_fits(bytes_at(key, 0, 8));
    lemma_le_value_fits(bytes_at(key, 8, 8));
    if key.len() >= 8 {
        assert(bytes_at(key, 0, 8) =~= key.take(8));
        if key.len() >= 16 {
            assert(bytes_at(key, 8, 8) =~= key.subrange(8, 16));
        } else {
            assert(bytes_at(key, 8, 8) =~= key.skip(8));
        }
    } else {
        assert(bytes_at(key, 0, 8) =~= key);
        assert(bytes_at(key, 8, 8) =~= seq![]);
    }
}

/// Mixing two numbers gives the two halves of their product, combined.
pub proof fn law_mixed(a: u64, b: u64, high: u64, low: u64)
    requires
        a * b == high * 0x1_0000_0000_0000_0000 + low,
    ensures
        mixed(a, b) == low ^ high,
{
    let product = a * b;
    assert(product % 0x1_0000_0000_0000_0000 == low && product / 0x1_0000_0000_0000_0000 == high)
        by (nonlinear_arith)
        requires
            product == high * 0x1_0000_0000_0000_0000 + low,
            0 <= low < 0x1_0000_0000_0000_0000,
    ;
}

/// The hash of a key mixes its two numbers and its length, and then what is left of it, eight bytes
/// at a time and the last ones together.
pub proof fn law_key_hash(key: Seq<u8>, lo: u64, hi: u64, h: u64, word: Seq<u8>, rest: Seq<u8>)
    requires
        word.len() == 8 || (0 < word.len() < 8 && rest.len() == 0),
    ensures
        key_hash(key) == hash_of(key, key_lo(key), key_hi(key)),
        head_hash(key.len() as int, lo, hi) == mixed(
            lo ^ 0xa076_1d64_78bd_642f,
            hi ^ 0xe703_7ed1_a0b4_28db,
        ) ^ (key.len() as u64).wrapping_mul(0x8ebc_6af0_9c88_c6e3),
        hash_of(key, lo, hi) == tail_hash(
            head_hash(key.len() as int, lo, hi),
            if key.len() > 16 {
                key.skip(16)
            } else {
                seq![]
            },
        ),
        tail_hash(h, seq![]) == h,
        tail_hash(h, word + rest) == tail_hash(
            mixed(h ^ le_value(word) as u64, 0xa076_1d64_78bd_642f),
            rest,
        ),
{
    reveal(hash_of);
    lemma_key_hash(key);
    assert(bytes_at(key, 16, key.len() as int) =~= (if key.len() > 16 {
        key.skip(16)
    } else {
        seq![]
    }));
    let all = word + rest;
    assert(bytes_at(all, 0, 8) =~= word);
    assert(all.skip(word.len() as int) =~= rest);
}

} // verus!
