//! Where encoding splits: places at which what stands before does not matter for what stands after.
use crate::bpe::{lemma_merge_shrinks, merge_all, outside};
use crate::marks::lemma_kinds;
use crate::segment::{camel_cut, lemma_next_cut, next_cut};
use crate::tables::Tables;
use crate::tok::{C_LL, C_LU, C_WS};
use crate::unit::{
    lemma_find, lemma_find_is, lemma_run, lemma_run_is, lemma_span, word_mask, C_ALNUM, C_STOP,
};
use vstd::prelude::*;

verus! {

impl Tables {
    /// The tokens of two rows of units.
    proof fn lemma_units_toks_concat(self, a: Seq<Seq<char>>, b: Seq<Seq<char>>)
        ensures
            self.units_toks(a + b) == self.units_toks(a) + self.units_toks(b),
        decreases a.len(),
    {
        if a.len() == 0 {
            assert(a + b =~= b);
            assert(self.units_toks(a) + self.units_toks(b) =~= self.units_toks(b));
        } else {
            self.lemma_units_toks_concat(a.skip(1), b);
            assert((a + b).skip(1) =~= a.skip(1) + b);
            assert(self.units_toks(a + b) =~= self.units_toks(a) + self.units_toks(b));
        }
    }

    /// The first unit of a text that ends in a letter or a digit is the same if white space
    /// follows.
    proof fn lemma_unit_before_space(self, a: Seq<char>, b: Seq<char>)
        requires
            a.len() > 0,
            b.len() > 0,
            self.class(a.last() as u32) & C_ALNUM != 0,
            self.class(b[0] as u32) & C_WS != 0,
            self.class(b[0] as u32) & C_ALNUM == 0,
        ensures
            self.first_unit(a + b) == self.first_unit(a),
    {
        let ca = self.classes(a);
        let cl = self.classes(a + b);
        let n = a.len() as int;
        let sp = self.first_unit(a);
        assert forall|i: int| 0 <= i < n implies cl[i] == #[trigger] ca[i] by {}
        assert(ca[n - 1] & C_ALNUM != 0);
        let space = cl[n];
        lemma_kinds(space);
        lemma_span(ca, 0, self.punct_to_next);
        lemma_find(ca, 0, C_ALNUM);
        assert(sp.word < n);
        assert forall|i: int| 0 <= i < sp.word implies #[trigger] cl[i] & C_ALNUM == 0 by {
            assert(cl[i] == ca[i]);
        }
        lemma_find_is(cl, 0, C_ALNUM, sp.word);
        let kind = word_mask(ca[sp.word]);
        lemma_run(ca, sp.word, kind);
        assert forall|i: int| sp.word <= i < sp.word_end implies #[trigger] cl[i] & kind != 0 by {
            assert(cl[i] == ca[i]);
        }
        lemma_run_is(cl, sp.word, kind, sp.word_end);
        if !self.punct_to_next {
            lemma_find(ca, sp.word_end, C_STOP);
            assert forall|i: int| sp.word_end <= i < sp.end implies #[trigger] cl[i] & C_STOP
                == 0 by {
                assert(cl[i] == ca[i]);
            }
            lemma_find_is(cl, sp.word_end, C_STOP, sp.end);
        }
    }

    /// A text splits where white space follows a letter or a digit: the units and the tokens are
    /// those of the two parts, one after the other.
    pub proof fn law_split_at_space(self, a: Seq<char>, b: Seq<char>)
        requires
            a.len() > 0,
            b.len() > 0,
            self.class(a.last() as u32) & C_ALNUM != 0,
            self.class(b[0] as u32) & C_WS != 0,
            self.class(b[0] as u32) & C_ALNUM == 0,
        ensures
            self.units(a + b) == self.units(a) + self.units(b),
            self.encode(a + b) == self.encode(a) + self.encode(b),
        decreases a.len(),
    {
        let text = a + b;
        let end = self.first_unit(a).end;
        self.lemma_unit_before_space(a, b);
        self.lemma_first_unit(a);
        let rest = a.skip(end);
        assert(text.take(end) =~= a.take(end));
        assert(text.skip(end) =~= rest + b);
        if rest.len() == 0 {
            assert(rest + b =~= b);
            assert(self.units(rest) =~= seq![]);
        } else {
            assert(rest.last() == a.last());
            self.law_split_at_space(rest, b);
        }
        assert(self.units(text) =~= self.units(a) + self.units(b));
        self.lemma_units_toks_concat(self.units(a), self.units(b));
    }

    /// Whether the character behind two capitals is no small letter.
    pub open spec fn hump_is_capital(self, a: Seq<u32>, b: Seq<u32>) -> bool {
        a.len() >= 2 && self.class(a[a.len() - 1]) & C_LU != 0 && self.class(a[a.len() - 2]) & C_LU
            != 0 ==> self.class(b[0]) & C_LL == 0
    }

    /// A word splits at a camel hump: its tokens are those of the two parts, one after the other.
    pub proof fn law_split_at_hump(self, a: Seq<u32>, b: Seq<u32>)
        requires
            self.split_camel,
            a.len() > 0,
            b.len() > 0,
            camel_cut(self.cp_classes(a + b), a.len() as int),
            self.hump_is_capital(a, b),
        ensures
            self.word_toks(a + b) == self.word_toks(a) + self.word_toks(b),
    {
        self.lemma_before_hump(a, b, 0);
    }

    /// A word splits between a small letter and a capital.
    pub proof fn law_split_before_capital(self, a: Seq<u32>, b: Seq<u32>)
        requires
            self.split_camel,
            a.len() > 0,
            b.len() > 0,
            self.is_small(a.last()),
            self.is_capital(b[0]),
            !self.is_small(b[0]),
        ensures
            self.word_toks(a + b) == self.word_toks(a) + self.word_toks(b),
    {
        let cl = self.cp_classes(a + b);
        assert(cl[a.len() - 1] == self.class(a.last()));
        assert(cl[a.len() as int] == self.class(b[0]));
        self.law_split_at_hump(a, b);
    }

    /// A word splits between two capitals if a small letter follows.
    pub proof fn law_split_before_last_capital(self, a: Seq<u32>, b: Seq<u32>)
        requires
            self.split_camel,
            a.len() > 0,
            b.len() > 1,
            self.is_capital(a.last()),
            self.is_capital(b[0]),
            !self.is_small(b[0]),
            self.is_small(b[1]),
        ensures
            self.word_toks(a + b) == self.word_toks(a) + self.word_toks(b),
    {
        let cl = self.cp_classes(a + b);
        assert(cl[a.len() - 1] == self.class(a.last()));
        assert(cl[a.len() as int] == self.class(b[0]));
        assert(cl[a.len() as int + 1] == self.class(b[1]));
        self.law_split_at_hump(a, b);
    }

    /// Whether a capital at `i` follows a small letter, or follows a capital and is followed by a
    /// small letter.
    pub open spec fn hump_at(self, cps: Seq<u32>, i: int) -> bool {
        &&& 0 < i < cps.len()
        &&& self.is_capital(cps[i])
        &&& self.is_small(cps[i - 1]) || (self.is_capital(cps[i - 1]) && i + 1 < cps.len()
            && self.is_small(cps[i + 1]))
    }

    /// A word splits at a hump, unless that makes a hump of the character before.
    pub proof fn law_split_at(self, a: Seq<u32>, b: Seq<u32>)
        requires
            self.split_camel,
            self.hump_at(a + b, a.len() as int),
            a.len() > 1 && self.is_capital(a[a.len() - 1]) && self.is_capital(a[a.len() - 2])
                ==> !self.is_small(b[0]),
        ensures
            self.word_toks(a + b) == self.word_toks(a) + self.word_toks(b),
    {
        let word = a + b;
        let n = a.len() as int;
        let cl = self.cp_classes(word);
        assert(cl[n] == self.class(word[n]));
        assert(cl[n - 1] == self.class(word[n - 1]));
        if n + 1 < word.len() {
            assert(cl[n + 1] == self.class(word[n + 1]));
        }
        self.law_split_at_hump(a, b);
    }

    /// A word is cut at its first hump: what stands before it is a segment, and the rest is encoded
    /// as a word of its own.
    pub proof fn law_first_hump(self, cps: Seq<u32>, k: int)
        requires
            self.split_camel,
            self.hump_at(cps, k),
            forall|i: int| i < k ==> !#[trigger] self.hump_at(cps, i),
        ensures
            self.word_toks(cps) == self.segment_toks(cps.take(k)) + self.word_toks(cps.skip(k)),
    {
        let cl = self.cp_classes(cps);
        assert forall|i: int| 1 <= i < cl.len() implies camel_cut(cl, i) == #[trigger] self.hump_at(
            cps,
            i,
        ) by {
            assert(cl[i] == self.class(cps[i]) && cl[i - 1] == self.class(cps[i - 1]));
            if i + 1 < cl.len() {
                assert(cl[i + 1] == self.class(cps[i + 1]));
            }
        }
        assert forall|i: int| 1 <= i < k implies !camel_cut(cl, i) by {
            assert(!self.hump_at(cps, i));
        }
        lemma_next_cut_is(cl, 1, k);
        assert(cps.take(k) + cps.skip(k) =~= cps);
        self.lemma_behind_hump(cps.take(k), cps.skip(k), 0);
        assert(cps.subrange(0, k) =~= cps.take(k));
    }

    /// A word without humps is one segment, and so is every word if words are not cut.
    pub proof fn law_no_hump(self, cps: Seq<u32>)
        requires
            self.split_camel ==> forall|i: int| !#[trigger] self.hump_at(cps, i),
        ensures
            self.word_toks(cps) == self.segment_toks(cps),
    {
        let cl = self.cp_classes(cps);
        if self.split_camel {
            assert forall|i: int| 1 <= i < cl.len() implies !camel_cut(cl, i) by {
                assert(!self.hump_at(cps, i));
            }
            if cps.len() > 0 {
                lemma_next_cut_is(cl, 1, cl.len() as int);
            } else {
                lemma_next_cut(cl, 1);
            }
            assert(cps.skip(0) =~= cps);
        }
    }

    proof fn lemma_before_hump(self, a: Seq<u32>, b: Seq<u32>, start: int)
        requires
            0 <= start < a.len(),
            b.len() > 0,
            camel_cut(self.cp_classes(a + b), a.len() as int),
            self.hump_is_capital(a, b),
        ensures
            self.camel_toks(a + b, start) == self.camel_toks(a, start) + self.camel_toks(b, 0),
        decreases a.len() - start,
    {
        let word = a + b;
        let n = a.len() as int;
        let cl = self.cp_classes(word);
        let ca = self.cp_classes(a);
        let end = next_cut(ca, start + 1);
        assert forall|i: int| 0 <= i < n implies cl[i] == #[trigger] ca[i] by {}
        assert(cl[n] == self.class(b[0]));
        assert forall|i: int| 1 <= i < n implies camel_cut(cl, i) == camel_cut(ca, i) by {
            assert(cl[i] == ca[i]);
            assert(cl[i - 1] == ca[i - 1]);
            if i + 1 < n {
                assert(cl[i + 1] == ca[i + 1]);
            }
        }
        lemma_next_cut(ca, start + 1);
        assert forall|i: int| start + 1 <= i < end implies !camel_cut(cl, i) by {
            assert(!camel_cut(ca, i));
        }
        lemma_next_cut_is(cl, start + 1, end);
        assert(word.subrange(start, end) =~= a.subrange(start, end));
        if end < n {
            self.lemma_before_hump(a, b, end);
            let first = self.segment_toks(a.subrange(start, end));
            assert(first + (self.camel_toks(a, end) + self.camel_toks(b, 0)) =~= (first
                + self.camel_toks(a, end)) + self.camel_toks(b, 0));
        } else {
            assert(a.subrange(start, n) =~= a.skip(start));
            self.lemma_behind_hump(a, b, 0);
        }
    }

    proof fn lemma_behind_hump(self, a: Seq<u32>, b: Seq<u32>, start: int)
        requires
            0 <= start < b.len(),
            a.len() > 0,
        ensures
            self.camel_toks(a + b, a.len() + start) == self.camel_toks(b, start),
        decreases b.len() - start,
    {
        let word = a + b;
        let n = a.len() as int;
        let cl = self.cp_classes(word);
        let cb = self.cp_classes(b);
        let end = next_cut(cb, start + 1);
        assert forall|i: int| 0 <= i < b.len() implies cl[n + i] == #[trigger] cb[i] by {}
        assert forall|i: int| 1 <= i implies camel_cut(cl, n + i) == #[trigger] camel_cut(cb, i) by {
            if i < b.len() {
                assert(cl[n + i] == cb[i]);
                assert(cl[n + (i - 1)] == cb[i - 1]);
                if i + 1 < b.len() {
                    assert(cl[n + (i + 1)] == cb[i + 1]);
                }
            }
        }
        lemma_next_cut(cb, start + 1);
        assert forall|i: int| n + start + 1 <= i < n + end implies !camel_cut(cl, i) by {
            assert(!camel_cut(cb, i - n));
        }
        if end < b.len() {
            assert(camel_cut(cb, end));
        }
        lemma_next_cut_is(cl, n + start + 1, n + end);
        assert(word.subrange(n + start, n + end) =~= b.subrange(start, end));
        assert(word.skip(n + start) =~= b.skip(start));
        if end < b.len() {
            self.lemma_behind_hump(a, b, end);
        }
    }

    /// Whether no two pairs merge at the same rank.
    pub open spec fn ranks_differ(self) -> bool {
        forall|a: u32, b: u32, c: u32, d: u32|
            #![trigger self.mergeable(a, b), self.mergeable(c, d)]
            self.mergeable(a, b) && self.mergeable(c, d) && self.merges[(a, b)].0
                == self.merges[(c, d)].0 ==> a == c && b == d
    }

    /// Symbols split at one that stands for a character outside the alphabet: the two sides merge
    /// as if they stood alone, if no two pairs have the same rank.
    pub proof fn law_split_at_outside(self, a: Seq<u32>, x: u32, b: Seq<u32>)
        requires
            outside(x),
            self.ranks_differ(),
        ensures
            self.bpe(a + seq![x] + b) == self.bpe(a) + seq![x] + self.bpe(b),
        decreases a.len() + b.len(),
    {
        let s = a + seq![x] + b;
        let n = a.len() as int;
        assert forall|j: int| #[trigger] self.merges_at(a, j) implies self.merges_at(s, j)
            && self.rank_at(s, j) == self.rank_at(a, j) by {
            assert(s[j] == a[j] && s[j + 1] == a[j + 1]);
        }
        assert forall|j: int| #[trigger] self.merges_at(b, j) implies self.merges_at(s, n + 1 + j)
            && self.rank_at(s, n + 1 + j) == self.rank_at(b, j) by {
            assert(s[n + 1 + j] == b[j] && s[n + 1 + j + 1] == b[j + 1]);
        }
        if exists|i: int| self.best_at(s, i) {
            let i = choose|i: int| self.best_at(s, i);
            let (p, q) = (s[i], s[i + 1]);
            let m = self.merges[(p, q)].1;
            assert(s[n] == x);
            lemma_merge_shrinks(s, p, q, m, i);
            lemma_merge_split(a, x, b, p, q, m);
            self.lemma_merge_early(a, p, q);
            self.lemma_merge_early(b, p, q);
            self.law_split_at_outside(merge_all(a, p, q, m), x, merge_all(b, p, q, m));
        } else {
            assert forall|j: int| !self.best_at(a, j) by {
                if self.best_at(a, j) {
                    let k = self.lemma_best_exists(s, j);
                }
            }
            assert forall|j: int| !self.best_at(b, j) by {
                if self.best_at(b, j) {
                    let k = self.lemma_best_exists(s, n + 1 + j);
                }
            }
        }
    }

    /// A pair that no other pair comes before may merge first.
    proof fn lemma_merge_early(self, a: Seq<u32>, p: u32, q: u32)
        requires
            self.ranks_differ(),
            self.mergeable(p, q),
            forall|j: int| #[trigger]
                self.merges_at(a, j) ==> self.merges[(p, q)].0 <= self.rank_at(a, j),
        ensures
            self.bpe(a) == self.bpe(merge_all(a, p, q, self.merges[(p, q)].1)),
    {
        let m = self.merges[(p, q)].1;
        if exists|i: int| 0 <= i < a.len() - 1 && #[trigger] a[i] == p && a[i + 1] == q {
            let i = choose|i: int| 0 <= i < a.len() - 1 && #[trigger] a[i] == p && a[i + 1] == q;
            assert(self.merges_at(a, i));
            let k = self.lemma_best_exists(a, i);
            let c = choose|c: int| self.best_at(a, c);
            self.lemma_best_unique(a, k, c);
            assert(self.rank_at(a, c) == self.merges[(p, q)].0);
            assert(self.mergeable(a[c], a[c + 1]));
        } else {
            lemma_merge_absent(a, p, q, m);
        }
    }
}

/// The next cut is determined by what it is.
proof fn lemma_next_cut_is(cl: Seq<u8>, i: int, r: int)
    requires
        i <= r <= cl.len(),
        r < cl.len() ==> camel_cut(cl, r),
        forall|k: int| i <= k < r ==> !camel_cut(cl, k),
    ensures
        next_cut(cl, i) == r,
{
    lemma_next_cut(cl, i);
    let c = next_cut(cl, i);
    if c < r {
        assert(!camel_cut(cl, c));
    } else if r < c {
        assert(!camel_cut(cl, r));
    }
}

/// Replacing a pair leaves alone what is in no pair.
proof fn lemma_merge_absent(a: Seq<u32>, p: u32, q: u32, m: u32)
    requires
        forall|i: int| 0 <= i < a.len() - 1 ==> !(#[trigger] a[i] == p && a[i + 1] == q),
    ensures
        merge_all(a, p, q, m) == a,
    decreases a.len(),
{
    if a.len() >= 2 {
        let rest = a.skip(1);
        assert(!(a[0] == p && a[1] == q));
        assert forall|i: int| 0 <= i < rest.len() - 1 implies !(#[trigger] rest[i] == p && rest[i
            + 1] == q) by {
            assert(rest[i] == a[i + 1] && rest[i + 1] == a[i + 2]);
            assert(!(a[i + 1] == p && a[i + 1 + 1] == q));
        }
        lemma_merge_absent(rest, p, q, m);
        assert(seq![a[0]] + rest =~= a);
    }
}

/// Replacing a pair goes on separately on the two sides of a symbol that is in no pair.
proof fn lemma_merge_split(a: Seq<u32>, x: u32, b: Seq<u32>, p: u32, q: u32, m: u32)
    requires
        x != p,
        x != q,
    ensures
        merge_all(a + seq![x] + b, p, q, m) == merge_all(a, p, q, m) + seq![x] + merge_all(
            b,
            p,
            q,
            m,
        ),
    decreases a.len(),
{
    let s = a + seq![x] + b;
    let mb = merge_all(b, p, q, m);
    if a.len() == 0 {
        assert(s =~= seq![x] + b);
        if b.len() > 0 {
            assert(s.skip(1) =~= b);
        }
        assert(merge_all(s, p, q, m) =~= seq![x] + mb);
        assert(merge_all(a, p, q, m) + seq![x] + mb =~= seq![x] + mb);
    } else if a.len() >= 2 && a[0] == p && a[1] == q {
        lemma_merge_split(a.skip(2), x, b, p, q, m);
        assert(s.skip(2) =~= a.skip(2) + seq![x] + b);
        assert(seq![m] + (merge_all(a.skip(2), p, q, m) + seq![x] + mb) =~= (seq![m] + merge_all(
            a.skip(2),
            p,
            q,
            m,
        )) + seq![x] + mb);
    } else {
        lemma_merge_split(a.skip(1), x, b, p, q, m);
        assert(s.skip(1) =~= a.skip(1) + seq![x] + b);
        assert(s[0] == a[0]);
        if a.len() == 1 {
            assert(s[1] == x);
            assert(a.skip(1) =~= seq![]);
            assert(a =~= seq![a[0]] + merge_all(a.skip(1), p, q, m));
        } else {
            assert(s[1] == a[1]);
        }
        assert(merge_all(a, p, q, m) =~= seq![a[0]] + merge_all(a.skip(1), p, q, m));
        assert(seq![a[0]] + (merge_all(a.skip(1), p, q, m) + seq![x] + mb) =~= merge_all(
            a,
            p,
            q,
            m,
        ) + seq![x] + mb);
    }
}

} // verus!
