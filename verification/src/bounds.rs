//! How many tokens a text can have.
use crate::bpe::{lemma_merge_shrinks, lemma_outside, merge_all, merge_lens, outside, total};
use crate::segment::{
    all_sym_toks, lemma_next_cut, lemma_scalar_bytes, lemma_total_ones, next_cut, ones,
};
use crate::tables::Tables;
use crate::tok::OOA;
use crate::utf8::{
    code_points, lemma_encode_concat, lemma_scalars, lemma_spell_concat, lemma_spell_text,
    scalar_bytes, spell,
};
use vstd::prelude::*;
use vstd::utf8::{encode_utf8, is_scalar};

verus! {

/// Whether symbols stand for characters one after the other, `lens[i]` each and at least one, those
/// outside the alphabet for the one whose code point they hold.
spec fn spread(syms: Seq<u32>, lens: Seq<nat>, cps: Seq<u32>) -> bool
    decreases syms.len(),
{
    &&& lens.len() == syms.len()
    &&& if syms.len() == 0 {
        cps.len() == 0
    } else {
        &&& 1 <= lens[0] <= cps.len()
        &&& outside(syms[0]) ==> lens[0] == 1 && syms[0] == OOA + cps[0]
        &&& spread(syms.skip(1), lens.skip(1), cps.skip(lens[0] as int))
    }
}

/// Every code point has a byte.
proof fn lemma_spell_len(cps: Seq<u32>)
    ensures
        spell(cps).len() >= cps.len(),
        cps.len() > 0 ==> spell(cps).len() >= scalar_bytes(cps[0]).len(),
    decreases cps.len(),
{
    if cps.len() > 0 {
        lemma_scalar_bytes(cps[0]);
        lemma_spell_len(cps.drop_first());
    }
}

impl Tables {
    /// Whether all cores are below 2^31, so that none is taken for a flagged code point.
    pub open spec fn cores_small(self) -> bool {
        &&& forall|cp: u32|
            is_scalar(cp) && outside(#[trigger] self.sym(cp)) ==> self.sym(cp) == OOA | cp
        &&& forall|a: u32, b: u32| #[trigger]
            self.mergeable(a, b) ==> !outside(self.merges[(a, b)].1)
    }

    proof fn lemma_spread_merge(
        self,
        syms: Seq<u32>,
        lens: Seq<nat>,
        cps: Seq<u32>,
        a: u32,
        b: u32,
    )
        requires
            self.cores_small(),
            self.mergeable(a, b),
            spread(syms, lens, cps),
        ensures
            spread(
                merge_all(syms, a, b, self.merges[(a, b)].1),
                merge_lens(syms, lens, a, b),
                cps,
            ),
        decreases syms.len(),
    {
        let m = self.merges[(a, b)].1;
        let out = merge_all(syms, a, b, m);
        let out_lens = merge_lens(syms, lens, a, b);
        if syms.len() >= 2 {
            let l0 = lens[0] as int;
            let rest = cps.skip(l0);
            if syms[0] == a && syms[1] == b {
                let l1 = lens[1] as int;
                reveal_with_fuel(spread, 3);
                assert(syms.skip(1).skip(1) =~= syms.skip(2));
                assert(lens.skip(1).skip(1) =~= lens.skip(2));
                assert(rest.skip(l1) =~= cps.skip(l0 + l1));
                self.lemma_spread_merge(syms.skip(2), lens.skip(2), cps.skip(l0 + l1), a, b);
                assert(out.skip(1) =~= merge_all(syms.skip(2), a, b, m));
                assert(out_lens.skip(1) =~= merge_lens(syms.skip(2), lens.skip(2), a, b));
            } else {
                self.lemma_spread_merge(syms.skip(1), lens.skip(1), rest, a, b);
                assert(out.skip(1) =~= merge_all(syms.skip(1), a, b, m));
                assert(out_lens.skip(1) =~= merge_lens(syms.skip(1), lens.skip(1), a, b));
            }
        }
    }

    proof fn lemma_spread_bpe(self, syms: Seq<u32>, lens: Seq<nat>, cps: Seq<u32>)
        requires
            self.cores_small(),
            spread(syms, lens, cps),
        ensures
            spread(self.bpe(syms), self.bpe_lens(syms, lens), cps),
        decreases syms.len(),
    {
        if exists|i: int| self.best_at(syms, i) {
            let i = choose|i: int| self.best_at(syms, i);
            let (a, b) = (syms[i], syms[i + 1]);
            lemma_merge_shrinks(syms, a, b, self.merges[(a, b)].1, i);
            self.lemma_spread_merge(syms, lens, cps, a, b);
            self.lemma_spread_bpe(
                self.merged_once(syms, i),
                merge_lens(syms, lens, a, b),
                cps,
            );
        }
    }

    proof fn lemma_spread_start(self, cps: Seq<u32>)
        requires
            self.cores_small(),
            forall|k: int| 0 <= k < cps.len() ==> is_scalar(#[trigger] cps[k]),
        ensures
            spread(self.syms(cps), ones(cps.len()), cps),
        decreases cps.len(),
    {
        if cps.len() > 0 {
            lemma_outside(cps[0]);
            assert(is_scalar(cps[0]));
            self.lemma_spread_start(cps.skip(1));
            assert(self.syms(cps).skip(1) =~= self.syms(cps.skip(1)));
            assert(ones(cps.len()).skip(1) =~= ones(cps.skip(1).len()));
        }
    }

    proof fn lemma_count_syms(self, syms: Seq<u32>, lens: Seq<nat>, cps: Seq<u32>)
        requires
            spread(syms, lens, cps),
        ensures
            all_sym_toks(syms).len() <= spell(cps).len(),
        decreases syms.len(),
    {
        if syms.len() > 0 {
            let l = lens[0] as int;
            let part = cps.take(l);
            let rest = cps.skip(l);
            self.lemma_count_syms(syms.skip(1), lens.skip(1), rest);
            lemma_spell_concat(part, rest);
            assert(part + rest =~= cps);
            lemma_spell_len(part);
        }
    }

    /// Characters that are not folded have at most one token per byte.
    proof fn lemma_count_plain(self, cps: Seq<u32>)
        requires
            self.cores_small(),
            forall|k: int| 0 <= k < cps.len() ==> is_scalar(#[trigger] cps[k]),
        ensures
            self.plain_toks(cps).len() <= spell(cps).len(),
    {
        let syms = self.syms(cps);
        self.lemma_spread_start(cps);
        self.lemma_spread_bpe(syms, ones(cps.len()), cps);
        self.lemma_count_syms(self.bpe(syms), self.bpe_lens(syms, ones(cps.len())), cps);
    }

    proof fn lemma_count_chars(self, cps: Seq<u32>)
        ensures
            self.all_char_toks(cps).len() <= spell(cps).len(),
        decreases cps.len(),
    {
        if cps.len() > 0 {
            lemma_scalar_bytes(cps[0]);
            self.lemma_count_chars(cps.skip(1));
            assert(cps.skip(1) =~= cps.drop_first());
        }
    }

    proof fn lemma_count_pieces(self, cps: Seq<u32>, syms: Seq<u32>, lens: Seq<nat>)
        requires
            syms.len() == lens.len(),
            total(lens) == cps.len(),
            forall|k: int| 0 <= k < lens.len() ==> #[trigger] lens[k] > 0,
        ensures
            self.pieces_toks(cps, syms, lens).len() <= spell(cps).len(),
        decreases syms.len(),
    {
        if syms.len() > 0 {
            let l = lens[0] as int;
            let part = cps.take(l);
            let rest = cps.skip(l);
            assert forall|k: int| 0 <= k < lens.skip(1).len() implies #[trigger] lens.skip(1)[k]
                > 0 by {
                assert(lens.skip(1)[k] == lens[k + 1]);
            }
            self.lemma_count_pieces(rest, syms.skip(1), lens.skip(1));
            lemma_spell_concat(part, rest);
            assert(part + rest =~= cps);
            lemma_spell_len(part);
            self.lemma_count_chars(part);
        }
    }

    /// A segment has at most one token per byte.
    proof fn lemma_count_segment(self, cps: Seq<u32>)
        requires
            self.cores_small(),
            forall|k: int| 0 <= k < cps.len() ==> is_scalar(#[trigger] cps[k]),
        ensures
            self.segment_toks(cps).len() <= spell(cps).len(),
    {
        if self.fold_case || self.fold_han {
            let syms = self.syms(self.norms(cps));
            let lens = self.bpe_lens(syms, ones(cps.len()));
            self.lemma_bpe_lens(syms, ones(cps.len()));
            lemma_total_ones(cps.len());
            self.lemma_count_pieces(cps, self.bpe(syms), lens);
        } else {
            self.lemma_count_plain(cps);
        }
    }

    proof fn lemma_count_camel(self, cps: Seq<u32>, start: int)
        requires
            self.cores_small(),
            forall|k: int| 0 <= k < cps.len() ==> is_scalar(#[trigger] cps[k]),
            0 <= start <= cps.len(),
        ensures
            self.camel_toks(cps, start).len() <= spell(cps.skip(start)).len(),
        decreases cps.len() - start,
    {
        let end = next_cut(self.cp_classes(cps), start + 1);
        lemma_next_cut(self.cp_classes(cps), start + 1);
        if start < end < cps.len() {
            let part = cps.subrange(start, end);
            self.lemma_count_segment(part);
            self.lemma_count_camel(cps, end);
            lemma_spell_concat(part, cps.skip(end));
            assert(part + cps.skip(end) =~= cps.skip(start));
        } else {
            self.lemma_count_segment(cps.skip(start));
        }
    }

    /// A word has at most one token per byte.
    proof fn lemma_count_word(self, word: Seq<char>)
        requires
            self.cores_small(),
        ensures
            self.word_toks(code_points(word)).len() <= encode_utf8(word).len(),
    {
        let cps = code_points(word);
        lemma_scalars(word);
        lemma_spell_text(word);
        self.lemma_count_camel(cps, 0);
        assert(cps.skip(0) =~= cps);
        self.lemma_count_segment(cps);
    }

    proof fn lemma_count_plain_text(self, text: Seq<char>)
        requires
            self.cores_small(),
        ensures
            self.plain_toks(code_points(text)).len() <= encode_utf8(text).len(),
    {
        lemma_scalars(text);
        lemma_spell_text(text);
        self.lemma_count_plain(code_points(text));
    }

    /// A unit has at most one token per byte.
    proof fn lemma_count_unit(self, unit: Seq<char>)
        requires
            self.cores_small(),
            self.first_unit(unit).end == unit.len(),
        ensures
            self.unit_toks(unit).len() <= encode_utf8(unit).len(),
    {
        let sp = self.first_unit(unit);
        self.lemma_first_unit(unit);
        if sp.junk {
            self.lemma_count_plain_text(unit);
        } else {
            let pre = unit.take(sp.word);
            let word = unit.subrange(sp.word, sp.word_end);
            let suf = unit.skip(sp.word_end);
            let head = self.prefix_of(pre).1;
            let tail = self.suffix_of(suf).1;
            self.lemma_prefix_within(
                pre,
                if pre.len() < self.max_p {
                    pre.len() as int
                } else {
                    self.max_p as int
                },
            );
            self.lemma_suffix_within(
                suf,
                if suf.len() < self.max_s {
                    suf.len() as int
                } else {
                    self.max_s as int
                },
            );
            self.lemma_count_plain_text(pre.take(head));
            self.lemma_count_word(word);
            self.lemma_word_toks(code_points(word));
            self.lemma_count_plain_text(suf.skip(tail));
            lemma_encode_concat(pre.take(head), pre.skip(head));
            lemma_encode_concat(suf.take(tail), suf.skip(tail));
            lemma_encode_concat(pre, word);
            lemma_encode_concat(pre + word, suf);
            assert(pre.take(head) + pre.skip(head) =~= pre);
            assert(suf.take(tail) + suf.skip(tail) =~= suf);
            assert(pre + word + suf =~= unit);
        }
    }

    /// A text has at most one token per byte, if all cores are below 2^31.
    pub proof fn law_token_per_byte(self, text: Seq<char>)
        requires
            self.cores_small(),
        ensures
            self.encode(text).len() <= encode_utf8(text).len(),
        decreases text.len(),
    {
        if text.len() > 0 {
            let end = self.first_unit(text).end;
            self.lemma_first_unit(text);
            self.lemma_encode_step(text);
            self.lemma_count_unit(text.take(end));
            self.law_token_per_byte(text.skip(end));
            lemma_encode_concat(text.take(end), text.skip(end));
            assert(text.take(end) + text.skip(end) =~= text);
        }
    }
}

} // verus!
