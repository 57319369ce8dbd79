//! What becomes of characters, told by the tables alone: folding, merging, variations, words.
use crate::bpe::{lemma_outside, merge_all, merge_lens, outside, total};
use crate::segment::{all_sym_toks, lemma_total_ones, ones, sym_toks};
use crate::tables::Tables;
use crate::tok::{byte_toks, Tok};
use crate::utf8::scalar_bytes;
use vstd::prelude::*;
use vstd::utf8::{encode_scalar, is_scalar};

verus! {

impl Tables {
    /// Whether a code point is a letter or a mark.
    pub open spec fn is_letter(self, cp: u32) -> bool {
        self.cls[cp as int] & 1 != 0
    }

    /// Whether a code point is a digit.
    pub open spec fn is_digit(self, cp: u32) -> bool {
        self.cls[cp as int] & 2 != 0
    }

    /// Whether a code point is white space.
    pub open spec fn is_space(self, cp: u32) -> bool {
        self.cls[cp as int] & 4 != 0
    }

    /// Whether a code point is a small letter.
    pub open spec fn is_small(self, cp: u32) -> bool {
        self.cls[cp as int] & 8 != 0
    }

    /// Whether a code point is a capital.
    pub open spec fn is_capital(self, cp: u32) -> bool {
        self.cls[cp as int] & 16 != 0
    }

    /// Whether a code point is a capital that is folded: one of A to Z, or one of the table.
    pub open spec fn folds_case_of(self, cp: u32) -> bool {
        self.fold_case && (65 <= cp <= 90 || (cp >= 128 && self.fold.contains_key(cp)))
    }

    /// Folding keeps the letter: the capitals A to Z become the small letters at the same place in
    /// the alphabet, other capitals what the table says, traditional Han characters their
    /// simplified form, and everything else stays. The flag tells which it was.
    pub proof fn law_fold(self, cp: u32)
        ensures
            self.fold_case && 65 <= cp <= 90 ==> self.folded(cp).0 - 97 == cp - 65 && self.folded(
                cp,
            ).1 == 1,
            self.fold_case && cp >= 128 && self.fold.contains_key(cp) ==> self.folded(cp) == (
                self.fold[cp],
                1u8,
            ),
            !self.folds_case_of(cp) && self.fold_han && self.han_fold.contains_key(cp)
                ==> self.folded(cp) == (self.han_fold[cp], 2u8),
            !self.folds_case_of(cp) && !(self.fold_han && self.han_fold.contains_key(cp))
                ==> self.folded(cp) == (cp, 0u8),
    {
    }

    /// No two ASCII characters fold to the same character with the same flag, if no Han character
    /// is ASCII.
    pub proof fn law_fold_tells_apart(self, a: u32, b: u32)
        requires
            a < 128,
            b < 128,
            a != b,
            forall|cp: u32| self.han_fold.contains_key(cp) ==> cp >= 128,
        ensures
            self.folded(a) != self.folded(b),
    {
    }

    /// A character of the alphabet starts out as its core, any other one as its code point above
    /// 2^31.
    pub proof fn law_symbol(self, cp: u32)
        requires
            cp < 0x8000_0000,
        ensures
            self.char_id.contains_key(cp) && (cp >= 128 || self.char_id[cp] < u32::MAX)
                ==> self.sym(cp) == self.char_id[cp],
            !self.char_id.contains_key(cp) ==> self.sym(cp) == 0x8000_0000 + cp,
            cp < 128 && self.char_id.contains_key(cp) && self.char_id[cp] == u32::MAX ==> self.sym(
                cp,
            ) == 0x8000_0000 + cp,
    {
        lemma_outside(cp);
    }

    /// Characters are folded and looked up one by one.
    pub proof fn law_one_by_one(self, cps: Seq<u32>, i: int)
        requires
            0 <= i < cps.len(),
        ensures
            self.syms(cps).len() == cps.len(),
            self.norms(cps).len() == cps.len(),
            self.flags(cps).len() == cps.len(),
            self.syms(cps)[i] == self.sym(cps[i]),
            (self.norms(cps)[i], self.flags(cps)[i]) == self.folded(cps[i]),
    {
    }

    /// Whether two symbols that stand at `i` and `i + 1` are a pair of the merge table: both are
    /// cores, and the pair has a rank other than the largest number of all.
    pub open spec fn pair_at(self, syms: Seq<u32>, i: int) -> bool {
        &&& 0 <= i < syms.len() - 1
        &&& syms[i] < 0x8000_0000
        &&& syms[i + 1] < 0x8000_0000
        &&& self.merges.contains_key((syms[i], syms[i + 1]))
        &&& self.merges[(syms[i], syms[i + 1])].0 < 0xFFFF_FFFF
    }

    /// After byte-pair encoding no two adjacent symbols are a pair of the merge table.
    pub proof fn law_nothing_left_to_merge(self, syms: Seq<u32>, i: int)
        ensures
            !self.pair_at(self.bpe(syms), i),
    {
        self.law_bpe_done(syms);
        assert(!self.merges_at(self.bpe(syms), i));
    }

    /// Byte-pair encoding starts with the pair of the lowest rank, the leftmost one if several have
    /// it, and replaces it wherever it stands. The lengths go with the symbols.
    pub proof fn law_lowest_rank_first(self, syms: Seq<u32>, lens: Seq<nat>, i: int)
        requires
            self.pair_at(syms, i),
            forall|j: int| #[trigger]
                self.pair_at(syms, j) ==> self.merges[(syms[i], syms[i + 1])].0
                    <= self.merges[(syms[j], syms[j + 1])].0,
            forall|j: int|
                j < i && #[trigger] self.pair_at(syms, j) ==> self.merges[(
                    syms[i],
                    syms[i + 1],
                )].0 < self.merges[(syms[j], syms[j + 1])].0,
        ensures
            self.bpe(syms) == self.bpe(
                merge_all(syms, syms[i], syms[i + 1], self.merges[(syms[i], syms[i + 1])].1),
            ),
            self.bpe_lens(syms, lens) == self.bpe_lens(
                merge_all(syms, syms[i], syms[i + 1], self.merges[(syms[i], syms[i + 1])].1),
                merge_lens(syms, lens, syms[i], syms[i + 1]),
            ),
    {
        assert forall|j: int| #[trigger] self.merges_at(syms, j) implies self.rank_at(syms, i)
            <= self.rank_at(syms, j) && (j < i ==> self.rank_at(syms, i) < self.rank_at(
            syms,
            j,
        )) by {
            assert(self.pair_at(syms, j));
        }
        assert(self.best_at(syms, i));
        let c = choose|c: int| self.best_at(syms, c);
        self.lemma_best_unique(syms, c, i);
    }

    /// Symbols among which no pair of the merge table stands are left as they are.
    pub proof fn law_unmerged(self, syms: Seq<u32>, lens: Seq<nat>)
        requires
            forall|i: int| !#[trigger] self.pair_at(syms, i),
        ensures
            self.bpe(syms) == syms,
            self.bpe_lens(syms, lens) == lens,
    {
        if exists|i: int| self.best_at(syms, i) {
            let i = choose|i: int| self.best_at(syms, i);
            assert(self.pair_at(syms, i));
        }
    }
}

/// Whether the pair `(a, b)` stands at `i`.
pub open spec fn stands_at(syms: Seq<u32>, a: u32, b: u32, i: int) -> bool {
    0 <= i < syms.len() - 1 && syms[i] == a && syms[i + 1] == b
}

/// A pair is replaced where it stands first, and from behind there on. Its replacement covers what
/// it covered.
pub proof fn law_replace(s: Seq<u32>, lens: Seq<nat>, a: u32, b: u32, m: u32, k: int)
    requires
        stands_at(s, a, b, k),
        forall|i: int| i < k ==> !#[trigger] stands_at(s, a, b, i),
        lens.len() == s.len(),
    ensures
        merge_all(s, a, b, m) == s.take(k) + seq![m] + merge_all(s.skip(k + 2), a, b, m),
        merge_lens(s, lens, a, b) == lens.take(k) + seq![lens[k] + lens[k + 1]] + merge_lens(
            s.skip(k + 2),
            lens.skip(k + 2),
            a,
            b,
        ),
    decreases k,
{
    let done = merge_all(s.skip(k + 2), a, b, m);
    let done_lens = merge_lens(s.skip(k + 2), lens.skip(k + 2), a, b);
    if k == 0 {
        assert(seq![m] + done =~= s.take(0) + seq![m] + done);
        assert(seq![lens[0] + lens[1]] + done_lens =~= lens.take(0) + seq![lens[0] + lens[1]]
            + done_lens);
    } else {
        let s1 = s.skip(1);
        let l1 = lens.skip(1);
        assert(!stands_at(s, a, b, 0));
        assert forall|i: int| i < k - 1 implies !#[trigger] stands_at(s1, a, b, i) by {
            assert(!stands_at(s, a, b, i + 1));
        }
        law_replace(s1, l1, a, b, m, k - 1);
        assert(s1.skip(k + 1) =~= s.skip(k + 2));
        assert(l1.skip(k + 1) =~= lens.skip(k + 2));
        assert(seq![s[0]] + (s1.take(k - 1) + seq![m] + done) =~= s.take(k) + seq![m] + done);
        assert(seq![lens[0]] + (l1.take(k - 1) + seq![l1[k - 1] + l1[k]] + done_lens)
            =~= lens.take(k) + seq![lens[k] + lens[k + 1]] + done_lens);
    }
}

/// A pair that stands nowhere replaces nothing.
pub proof fn law_replace_nothing(s: Seq<u32>, lens: Seq<nat>, a: u32, b: u32, m: u32)
    requires
        forall|i: int| !#[trigger] stands_at(s, a, b, i),
        lens.len() == s.len(),
    ensures
        merge_all(s, a, b, m) == s,
        merge_lens(s, lens, a, b) == lens,
    decreases s.len(),
{
    if s.len() >= 2 {
        let rest = s.skip(1);
        assert(!stands_at(s, a, b, 0));
        assert forall|i: int| !#[trigger] stands_at(rest, a, b, i) by {
            assert(!stands_at(s, a, b, i + 1));
        }
        law_replace_nothing(rest, lens.skip(1), a, b, m);
        assert(seq![s[0]] + rest =~= s);
        assert(seq![lens[0]] + lens.skip(1) =~= lens);
    }
}

impl Tables {
    /// A piece gets the variation that undoes what was done to its characters, and only that one.
    /// None was folded: no variation. The first one was lower-cased and none of the others folded:
    /// the capital. All of at least two were lower-cased: capitals. Some were simplified, none was
    /// lower-cased, and no other one is a character that the traditional variation would change:
    /// traditional.
    pub proof fn law_variation(self, norm: Seq<u32>, flags: Seq<u8>)
        ensures
            self.variation(norm, flags) == Some(0u32) <==> forall|i: int|
                0 <= i < flags.len() ==> #[trigger] flags[i] == 0,
            self.variation(norm, flags) == Some(1u32) <==> {
                &&& flags.len() > 0
                &&& flags[0] == 1
                &&& forall|i: int|
                    0 < i < flags.len() ==> #[trigger] flags[i] != 1 && flags[i] != 2
            },
            self.variation(norm, flags) == Some(2u32) <==> {
                &&& flags.len() > 1
                &&& forall|i: int| 0 <= i < flags.len() ==> #[trigger] flags[i] == 1
            },
            self.variation(norm, flags) == Some(3u32) <==> {
                &&& exists|i: int| 0 <= i < flags.len() && #[trigger] flags[i] == 2
                &&& forall|i: int|
                    0 <= i < flags.len() ==> #[trigger] flags[i] == 2 || (flags[i] != 1
                        && !self.han_to_trad.contains(norm[i]))
            },
            self.variation(norm, flags) matches Some(v) ==> v <= 3,
    {
        if !(forall|i: int| 0 <= i < flags.len() ==> #[trigger] flags[i] == 0) {
            let k = choose|i: int| 0 <= i < flags.len() && #[trigger] flags[i] != 0;
            assert(flags[k] != 0);
            if flags.len() > 1 && forall|i: int|
                0 <= i < flags.len() ==> #[trigger] flags[i] == 1 {
                assert(flags[0] == 1 && flags[1] == 1);
            }
            if forall|i: int| 0 < i < flags.len() ==> #[trigger] flags[i] != 1 && flags[i] != 2 {
                assert(flags[0] == 1 ==> forall|i: int|
                    0 <= i < flags.len() ==> #[trigger] flags[i] != 2);
            }
        }
    }

    /// Pieces with one normal form that were lower-cased in different places never share a
    /// variation.
    pub proof fn law_variations_differ(self, norm: Seq<u32>, x: Seq<u8>, y: Seq<u8>)
        requires
            x.len() == y.len(),
            x != y,
            forall|i: int| 0 <= i < x.len() ==> #[trigger] x[i] <= 1,
            forall|i: int| 0 <= i < y.len() ==> #[trigger] y[i] <= 1,
            self.variation(norm, x) is Some,
            self.variation(norm, y) is Some,
        ensures
            self.variation(norm, x) != self.variation(norm, y),
    {
        self.law_variation(norm, x);
        self.law_variation(norm, y);
        if self.variation(norm, x) == self.variation(norm, y) {
            assert forall|i: int| 0 <= i < x.len() implies x[i] == y[i] by {
                assert(x[i] <= 1 && y[i] <= 1);
            }
            assert(x =~= y);
        }
    }
}

/// One token for each byte, whose core is the byte.
pub open spec fn spelled_out(bytes: Seq<u8>) -> Seq<Tok> {
    Seq::new(
        bytes.len(),
        |i: int| Tok { variation: 0, prefix: 0, core: bytes[i] as u32, suffix: 0 },
    )
}

/// The UTF-8 bytes of a character, and of the replacement character for what is none.
pub open spec fn utf8_of(cp: u32) -> Seq<u8> {
    if is_scalar(cp) {
        encode_scalar(cp)
    } else {
        seq![0xEFu8, 0xBF, 0xBD]
    }
}

/// A single token without affixes.
pub open spec fn single(variation: u32, core: u32) -> Seq<Tok> {
    seq![Tok { variation, prefix: 0, core, suffix: 0 }]
}

/// A character that has no core is spelled out, byte by byte.
pub proof fn law_spelled_out(cp: u32)
    ensures
        byte_toks(scalar_bytes(cp)) == spelled_out(utf8_of(cp)),
{
    assert(0xE0u8 | ((0xFFFDu32 >> 12) & 0x0F) as u8 == 0xEF && 0x80u8 | ((0xFFFDu32 >> 6)
        & 0x3F) as u8 == 0xBF && 0x80u8 | (0xFFFDu32 & 0x3F) as u8 == 0xBD) by (bit_vector);
    assert(scalar_bytes(cp) =~= utf8_of(cp));
    assert(byte_toks(scalar_bytes(cp)) =~= spelled_out(utf8_of(cp)));
}

/// The tokens of a symbol that was not folded: the symbol itself if it is a core, and the bytes of
/// the character that it stands for if it is not.
pub open spec fn unfolded(sym: u32) -> Seq<Tok> {
    if sym < 0x8000_0000 {
        single(0, sym)
    } else {
        spelled_out(utf8_of((sym - 0x8000_0000) as u32))
    }
}

proof fn lemma_all_sym_toks_flat(syms: Seq<u32>)
    ensures
        all_sym_toks(syms) == syms.map_values(|g: u32| unfolded(g)).flatten(),
    decreases syms.len(),
{
    let flat = syms.map_values(|g: u32| unfolded(g));
    if syms.len() > 0 {
        lemma_all_sym_toks_flat(syms.skip(1));
        assert(flat.drop_first() =~= syms.skip(1).map_values(|g: u32| unfolded(g)));
        if outside(syms[0]) {
            law_spelled_out((syms[0] - 0x8000_0000) as u32);
        }
        assert(sym_toks(syms[0]) =~= unfolded(syms[0]));
    }
}

impl Tables {
    /// Characters that are not folded have the tokens of the symbols that they merge into, one
    /// after the other.
    pub proof fn law_plain_tokens(self, cps: Seq<u32>)
        ensures
            self.plain_toks(cps) == self.bpe(self.syms(cps)).map_values(
                |g: u32| unfolded(g),
            ).flatten(),
    {
        lemma_all_sym_toks_flat(self.bpe(self.syms(cps)));
    }

    /// An unknown character among others is spelled out where it stands, and the others have the
    /// tokens that they have without it, if no two pairs of the merge table have the same rank.
    pub proof fn law_plain_unknown(self, a: Seq<u32>, cp: u32, b: Seq<u32>)
        requires
            cp < 0x8000_0000,
            !self.char_id.contains_key(cp),
            forall|p: (u32, u32), q: (u32, u32)| #[trigger]
                self.merges.contains_key(p) && #[trigger] self.merges.contains_key(q) && p != q
                    ==> self.merges[p].0 != self.merges[q].0,
        ensures
            self.plain_toks(a + seq![cp] + b) == self.plain_toks(a) + spelled_out(utf8_of(cp))
                + self.plain_toks(b),
    {
        let x = self.sym(cp);
        lemma_outside(cp);
        self.law_symbol(cp);
        assert(self.syms(a + seq![cp] + b) =~= self.syms(a) + seq![x] + self.syms(b));
        assert(self.ranks_differ()) by {
            assert forall|p: u32, q: u32, r: u32, s: u32|
                #![trigger self.mergeable(p, q), self.mergeable(r, s)]
                self.mergeable(p, q) && self.mergeable(r, s) && self.merges[(p, q)].0
                    == self.merges[(r, s)].0 implies p == r && q == s by {
                assert(self.merges.contains_key((p, q)) && self.merges.contains_key((r, s)));
            }
        }
        self.law_split_at_outside(self.syms(a), x, self.syms(b));
        let (ba, bb) = (self.bpe(self.syms(a)), self.bpe(self.syms(b)));
        lemma_all_sym_toks_concat(ba, seq![x]);
        lemma_all_sym_toks_concat(ba + seq![x], bb);
        assert(seq![x].skip(1) =~= seq![]);
        reveal_with_fuel(all_sym_toks, 2);
        law_spelled_out(cp);
        assert(all_sym_toks(seq![x]) =~= spelled_out(utf8_of(cp)));
    }

    /// The tokens of a folded character by itself: its core in the variation that restores it, or
    /// its bytes if its normal form has no core.
    pub open spec fn restored_char(self, cp: u32) -> Seq<Tok> {
        let (norm, flag) = self.folded(cp);
        if self.sym(norm) >= 0x8000_0000 {
            spelled_out(utf8_of(cp))
        } else if flag == 1 {
            single(1, self.sym(norm))
        } else if flag == 2 {
            single(3, self.sym(norm))
        } else {
            single(0, self.sym(norm))
        }
    }

    proof fn lemma_restored_char(self, cp: u32)
        ensures
            self.char_toks(cp) == self.restored_char(cp),
    {
        law_spelled_out(cp);
        assert(self.char_toks(cp) =~= self.restored_char(cp));
    }

    proof fn lemma_restored_chars(self, cps: Seq<u32>)
        ensures
            self.all_char_toks(cps) == cps.map_values(
                |c: u32| self.restored_char(c),
            ).flatten(),
        decreases cps.len(),
    {
        let each = cps.map_values(|c: u32| self.restored_char(c));
        if cps.len() > 0 {
            self.lemma_restored_char(cps[0]);
            self.lemma_restored_chars(cps.skip(1));
            assert(each.drop_first() =~= cps.skip(1).map_values(|c: u32| self.restored_char(c)));
        }
    }

    /// A segment of folded characters that merges into a single core has one token, the core in
    /// the variation that restores the characters. If no variation does, each character has the
    /// tokens that it has by itself.
    pub proof fn law_segment_whole(self, cps: Seq<u32>, core: u32)
        requires
            self.fold_case || self.fold_han,
            cps.len() > 0,
            core < 0x8000_0000,
            self.bpe(self.syms(self.norms(cps))) == seq![core],
        ensures
            self.variation(self.norms(cps), self.flags(cps)) matches Some(v) ==> self.segment_toks(
                cps,
            ) == single(v, core),
            self.variation(self.norms(cps), self.flags(cps)) is None ==> self.segment_toks(cps)
                == cps.map_values(|c: u32| self.restored_char(c)).flatten(),
    {
        let syms = self.syms(self.norms(cps));
        let lens = self.bpe_lens(syms, ones(cps.len()));
        self.lemma_bpe_lens(syms, ones(cps.len()));
        lemma_total_ones(cps.len());
        assert(lens.skip(1) =~= seq![]);
        assert(total(lens.skip(1)) == 0);
        assert(lens[0] == cps.len());
        assert(cps.take(cps.len() as int) =~= cps);
        assert(self.bpe(syms).skip(1) =~= seq![]);
        reveal_with_fuel(Tables::pieces_toks, 2);
        self.lemma_restored_chars(cps);
        let first = self.piece_toks(cps, core);
        assert(self.segment_toks(cps) =~= first);
    }

    /// A folded character by itself has its core in the variation that restores it, or its bytes
    /// if its normal form has no core.
    pub proof fn law_segment_char(self, cp: u32)
        requires
            self.fold_case || self.fold_han,
        ensures
            self.segment_toks(seq![cp]) == self.restored_char(cp),
    {
        let one = seq![cp];
        let syms = self.syms(self.norms(one));
        let (norm, flag) = self.folded(cp);
        assert(self.norms(one) =~= seq![norm]);
        assert(self.flags(one) =~= seq![flag]);
        assert(syms =~= seq![self.sym(norm)]);
        assert forall|i: int| !#[trigger] self.pair_at(syms, i) by {}
        self.law_unmerged(syms, ones(1));
        if outside(self.sym(norm)) {
            law_spelled_out(cp);
            assert(one.take(1) =~= one);
            assert(syms.skip(1) =~= seq![]);
            reveal_with_fuel(Tables::pieces_toks, 2);
            assert(self.segment_toks(one) =~= spelled_out(utf8_of(cp)));
        } else {
            self.law_segment_whole(one, self.sym(norm));
            self.law_variation(self.norms(one), self.flags(one));
            assert(self.flags(one)[0] == flag);
        }
    }

    /// A segment splits where nothing merges across: its tokens are those of the two parts, one
    /// after the other.
    pub proof fn law_segment_splits(self, a: Seq<u32>, b: Seq<u32>)
        requires
            self.fold_case || self.fold_han,
            self.bpe(self.syms(self.norms(a + b))) == self.bpe(self.syms(self.norms(a)))
                + self.bpe(self.syms(self.norms(b))),
            self.bpe_lens(self.syms(self.norms(a + b)), ones(a.len() + b.len()))
                == self.bpe_lens(self.syms(self.norms(a)), ones(a.len())) + self.bpe_lens(
                self.syms(self.norms(b)),
                ones(b.len()),
            ),
        ensures
            self.segment_toks(a + b) == self.segment_toks(a) + self.segment_toks(b),
    {
        let (sa, sb) = (self.syms(self.norms(a)), self.syms(self.norms(b)));
        self.lemma_bpe_lens(sa, ones(a.len()));
        self.lemma_bpe_lens(sb, ones(b.len()));
        lemma_total_ones(a.len());
        self.lemma_pieces_concat(
            a,
            self.bpe(sa),
            self.bpe_lens(sa, ones(a.len())),
            b,
            self.bpe(sb),
            self.bpe_lens(sb, ones(b.len())),
        );
    }

    proof fn lemma_pieces_concat(
        self,
        a: Seq<u32>,
        sa: Seq<u32>,
        la: Seq<nat>,
        b: Seq<u32>,
        sb: Seq<u32>,
        lb: Seq<nat>,
    )
        requires
            sa.len() == la.len(),
            sb.len() == lb.len(),
            total(la) == a.len(),
        ensures
            self.pieces_toks(a + b, sa + sb, la + lb) == self.pieces_toks(a, sa, la)
                + self.pieces_toks(b, sb, lb),
        decreases sa.len(),
    {
        let rest = self.pieces_toks(b, sb, lb);
        if sa.len() == 0 {
            assert(a + b =~= b);
            assert(sa + sb =~= sb);
            assert(la + lb =~= lb);
            assert(self.pieces_toks(a, sa, la) + rest =~= rest);
        } else {
            let l = la[0] as int;
            self.lemma_pieces_concat(a.skip(l), sa.skip(1), la.skip(1), b, sb, lb);
            assert((a + b).take(l) =~= a.take(l));
            assert((a + b).skip(l) =~= a.skip(l) + b);
            assert((sa + sb).skip(1) =~= sa.skip(1) + sb);
            assert((la + lb).skip(1) =~= la.skip(1) + lb);
            let first = self.piece_toks(a.take(l), sa[0]);
            let mid = self.pieces_toks(a.skip(l), sa.skip(1), la.skip(1));
            assert(first + (mid + rest) =~= (first + mid) + rest);
        }
    }

    /// The tokens of the characters `piece` that a symbol covers: the core in the variation that
    /// restores them, each character by itself if none does, or the bytes of the first one if the
    /// symbol is no core.
    pub open spec fn restored(self, piece: Seq<u32>, sym: u32) -> Seq<Tok> {
        if sym >= 0x8000_0000 {
            spelled_out(utf8_of(piece[0]))
        } else {
            match self.variation(self.norms(piece), self.flags(piece)) {
                Some(v) => single(v, sym),
                None => piece.map_values(|c: u32| self.restored_char(c)).flatten(),
            }
        }
    }

    /// The pieces of a segment: what each of the symbols covers that its normal forms merge into.
    pub open spec fn restored_pieces(self, cps: Seq<u32>) -> Seq<Seq<Tok>> {
        let syms = self.syms(self.norms(cps));
        let lens = self.bpe_lens(syms, ones(cps.len()));
        Seq::new(
            self.bpe(syms).len(),
            |i: int|
                self.restored(
                    cps.subrange(sum_below(lens, i) as int, sum_below(lens, i + 1) as int),
                    self.bpe(syms)[i],
                ),
        )
    }

    /// A segment has the tokens of the symbols that its normal forms merge into, one after the
    /// other, each standing for the characters behind those that the symbols before it cover.
    /// Without folding it has the tokens of its characters as they are.
    pub proof fn law_segment_tokens(self, cps: Seq<u32>)
        ensures
            self.fold_case || self.fold_han ==> self.segment_toks(cps) == self.restored_pieces(
                cps,
            ).flatten(),
            !self.fold_case && !self.fold_han ==> self.segment_toks(cps) == self.plain_toks(cps),
    {
        if self.fold_case || self.fold_han {
            let syms = self.syms(self.norms(cps));
            let lens = self.bpe_lens(syms, ones(cps.len()));
            self.lemma_bpe_lens(syms, ones(cps.len()));
            lemma_total_ones(cps.len());
            self.lemma_pieces_flat(cps, self.bpe(syms), lens, 0);
            assert(cps.skip(0) =~= cps);
            assert(self.bpe(syms).skip(0) =~= self.bpe(syms));
            assert(lens.skip(0) =~= lens);
            assert(self.restored_pieces(cps).skip(0) =~= self.restored_pieces(cps));
            assert(Seq::new(
                self.bpe(syms).len(),
                |i: int|
                    self.restored(
                        cps.subrange(sum_below(lens, i) as int, sum_below(lens, i + 1) as int),
                        self.bpe(syms)[i],
                    ),
            ) =~= self.restored_pieces(cps));
        }
    }

    proof fn lemma_pieces_flat(self, cps: Seq<u32>, syms: Seq<u32>, lens: Seq<nat>, k: int)
        requires
            syms.len() == lens.len(),
            total(lens) == cps.len(),
            0 <= k <= syms.len(),
        ensures
            0 <= sum_below(lens, k) <= cps.len(),
            self.pieces_toks(cps.skip(sum_below(lens, k) as int), syms.skip(k), lens.skip(k))
                == Seq::new(
                syms.len(),
                |i: int|
                    self.restored(
                        cps.subrange(sum_below(lens, i) as int, sum_below(lens, i + 1) as int),
                        syms[i],
                    ),
            ).skip(k).flatten(),
        decreases syms.len() - k,
    {
        let all = Seq::new(
            syms.len(),
            |i: int|
                self.restored(
                    cps.subrange(sum_below(lens, i) as int, sum_below(lens, i + 1) as int),
                    syms[i],
                ),
        );
        let at = sum_below(lens, k) as int;
        lemma_sum_below(lens, k);
        if k < syms.len() {
            let next = sum_below(lens, k + 1) as int;
            let rest = cps.skip(at);
            lemma_sum_below(lens, k + 1);
            self.lemma_pieces_flat(cps, syms, lens, k + 1);
            assert(lens.skip(k)[0] == lens[k]);
            assert(rest.take(lens[k] as int) =~= cps.subrange(at, next));
            assert(rest.skip(lens[k] as int) =~= cps.skip(next));
            assert(syms.skip(k).skip(1) =~= syms.skip(k + 1));
            assert(lens.skip(k).skip(1) =~= lens.skip(k + 1));
            assert(all.skip(k).drop_first() =~= all.skip(k + 1));
            assert(all.skip(k).first() == all[k]);
            let piece = cps.subrange(at, next);
            if outside(syms[k]) {
                law_spelled_out(piece[0]);
            } else {
                self.lemma_restored_chars(piece);
            }
            assert(self.piece_toks(piece, syms[k]) =~= self.restored(piece, syms[k]));
        }
    }
}

/// The sum of the first `n` lengths.
pub open spec fn sum_below(lens: Seq<nat>, n: int) -> nat
    decreases n,
{
    if n <= 0 {
        0
    } else {
        sum_below(lens, n - 1) + lens[n - 1]
    }
}

proof fn lemma_sum_below(lens: Seq<nat>, n: int)
    requires
        0 <= n <= lens.len(),
    ensures
        sum_below(lens, n) + total(lens.skip(n)) == total(lens),
    decreases n,
{
    if n == 0 {
        assert(lens.skip(0) =~= lens);
    } else {
        lemma_sum_below(lens, n - 1);
        assert(lens.skip(n - 1).skip(1) =~= lens.skip(n));
        assert(lens.skip(n - 1)[0] == lens[n - 1]);
    }
}

proof fn lemma_all_sym_toks_concat(a: Seq<u32>, b: Seq<u32>)
    ensures
        all_sym_toks(a + b) == all_sym_toks(a) + all_sym_toks(b),
    decreases a.len(),
{
    if a.len() == 0 {
        assert(a + b =~= b);
        assert(all_sym_toks(a) + all_sym_toks(b) =~= all_sym_toks(b));
    } else {
        lemma_all_sym_toks_concat(a.skip(1), b);
        assert((a + b).skip(1) =~= a.skip(1) + b);
        assert(all_sym_toks(a + b) =~= all_sym_toks(a) + all_sym_toks(b));
    }
}

/// The capitals of small letters from a to z.
pub open spec fn shouted(word: Seq<u32>) -> Seq<u32> {
    word.map_values(|c: u32| (c - 32) as u32)
}

impl Tables {
    /// A word in small letters, with a capital first letter and in capitals share one core: if the
    /// small letters merge into it, each of the three has one token with this core, in the
    /// variation that it is written in.
    pub proof fn law_shared_core(self, word: Seq<u32>, core: u32)
        requires
            self.fold_case,
            word.len() > 1,
            forall|i: int| 0 <= i < word.len() ==> 97 <= #[trigger] word[i] <= 122,
            forall|cp: u32| self.han_fold.contains_key(cp) ==> cp >= 128,
            forall|cp: u32|
                97 <= cp <= 122 ==> #[trigger] self.is_small(cp) && !self.is_capital(cp),
            forall|cp: u32|
                65 <= cp <= 90 ==> #[trigger] self.is_capital(cp) && !self.is_small(cp),
            self.bpe(self.syms(word)) == seq![core],
            core < 0x8000_0000,
        ensures
            self.word_toks(word) == single(0, core),
            self.word_toks(word.update(0, (word[0] - 32) as u32)) == single(1, core),
            self.word_toks(shouted(word)) == single(2, core),
    {
        let cap = word.update(0, (word[0] - 32) as u32);
        let up = shouted(word);
        self.lemma_shared_core(word, word, core, 0);
        self.lemma_shared_core(word, cap, core, 1);
        self.lemma_shared_core(word, up, core, 2);
    }

    proof fn lemma_ascii_case(self, cp: u32)
        requires
            forall|c: u32|
                97 <= c <= 122 ==> #[trigger] self.is_small(c) && !self.is_capital(c),
            forall|c: u32| 65 <= c <= 90 ==> #[trigger] self.is_capital(c) && !self.is_small(c),
        ensures
            97 <= cp <= 122 ==> self.is_small(cp) && !self.is_capital(cp),
            65 <= cp <= 90 ==> self.is_capital(cp) && !self.is_small(cp),
    {
        if 97 <= cp <= 122 {
            assert(self.is_small(cp));
        }
        if 65 <= cp <= 90 {
            assert(self.is_capital(cp));
        }
    }

    proof fn lemma_shared_core(self, word: Seq<u32>, cps: Seq<u32>, core: u32, v: u32)
        requires
            self.fold_case,
            word.len() > 1,
            forall|i: int| 0 <= i < word.len() ==> 97 <= #[trigger] word[i] <= 122,
            forall|cp: u32| self.han_fold.contains_key(cp) ==> cp >= 128,
            forall|cp: u32|
                97 <= cp <= 122 ==> #[trigger] self.is_small(cp) && !self.is_capital(cp),
            forall|cp: u32|
                65 <= cp <= 90 ==> #[trigger] self.is_capital(cp) && !self.is_small(cp),
            self.bpe(self.syms(word)) == seq![core],
            core < 0x8000_0000,
            v <= 2,
            cps.len() == word.len(),
            forall|i: int|
                0 <= i < word.len() ==> #[trigger] cps[i] == (if v == 2 || (v == 1 && i == 0) {
                    word[i] - 32
                } else {
                    word[i] as int
                }),
        ensures
            self.word_toks(cps) == single(v, core),
    {
        assert forall|i: int| 0 <= i < word.len() implies self.folded(#[trigger] cps[i]) == (
            word[i],
            if v == 2 || (v == 1 && i == 0) {
                1u8
            } else {
                0u8
            },
        ) by {
            assert(97 <= word[i] <= 122);
            self.law_fold(cps[i]);
        }
        assert forall|i: int| !#[trigger] self.hump_at(cps, i) by {
            if 0 < i < cps.len() {
                self.lemma_ascii_case(cps[i - 1]);
                self.lemma_ascii_case(cps[i]);
                assert(97 <= word[i - 1] <= 122 && 97 <= word[i] <= 122);
                if i + 1 < cps.len() {
                    assert(97 <= word[i + 1] <= 122);
                    self.lemma_ascii_case(cps[i + 1]);
                }
            }
        }
        self.law_no_hump(cps);
        let flags = self.flags(cps);
        assert(self.norms(cps) =~= word);
        assert forall|i: int| 0 <= i < flags.len() implies #[trigger] flags[i] == (if v == 2 || (v
            == 1 && i == 0) {
            1u8
        } else {
            0u8
        }) by {
            assert(self.folded(cps[i]).1 == flags[i]);
        }
        self.law_segment_whole(cps, core);
        self.law_variation(word, flags);
        assert(flags[0] == flags[0] && flags[1] == flags[1]);
        assert(self.variation(word, flags) == Some(v));
    }
}

} // verus!
