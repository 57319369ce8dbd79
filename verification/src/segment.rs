//! From characters to cores: plain runs, folded segments, and words cut at their camel humps.
use crate::bpe::{lemma_outside, nats, outside, total};
use crate::model::Model;
use crate::tables::Tables;
use crate::tok::{
    byte_toks, core_tok, Tok, C_LL, C_LU, F_TRAD, F_UP, OOA, V_CAP, V_NONE, V_TRAD, V_UPPER,
};
use crate::utf8::{code_points, decode_at, lemma_first_char, push_utf8, scalar_bytes};
use vstd::prelude::*;
use vstd::slice::slice_subrange;
use vstd::utf8::{decode_utf8, is_scalar, valid_utf8};

verus! {

/// The tokens of a symbol that was not folded: its core, or the bytes of its code point.
pub open spec fn sym_toks(sym: u32) -> Seq<Tok> {
    if outside(sym) {
        byte_toks(scalar_bytes((sym - OOA) as u32))
    } else {
        seq![core_tok(V_NONE, sym)]
    }
}

/// The tokens of symbols in a row.
pub open spec fn all_sym_toks(syms: Seq<u32>) -> Seq<Tok>
    decreases syms.len(),
{
    if syms.len() == 0 {
        seq![]
    } else {
        sym_toks(syms[0]) + all_sym_toks(syms.skip(1))
    }
}

/// The variation that undoes a single character's fold.
pub open spec fn flag_variation(flag: u8) -> u32 {
    if flag == F_UP {
        V_CAP
    } else if flag == F_TRAD {
        V_TRAD
    } else {
        V_NONE
    }
}

/// A length of one for each of `n` symbols.
pub open spec fn ones(n: nat) -> Seq<nat> {
    Seq::new(n, |i: int| 1)
}

/// Whether a word is cut before the character with index `i`: between a small letter and a
/// capital, and between two capitals if a small letter follows.
pub open spec fn camel_cut(cl: Seq<u8>, i: int) -> bool {
    &&& 1 <= i < cl.len()
    &&& cl[i] & C_LU != 0
    &&& cl[i - 1] & C_LL != 0 || (cl[i - 1] & C_LU != 0 && i + 1 < cl.len() && cl[i + 1] & C_LL
        != 0)
}

/// The first cut from index `i` on, or the end of the word.
pub open spec fn next_cut(cl: Seq<u8>, i: int) -> int
    decreases cl.len() - i,
{
    if i >= cl.len() {
        cl.len() as int
    } else if camel_cut(cl, i) {
        i
    } else {
        next_cut(cl, i + 1)
    }
}

/// The next cut is the first one.
pub proof fn lemma_next_cut(cl: Seq<u8>, i: int)
    ensures
        next_cut(cl, i) <= cl.len(),
        i <= cl.len() ==> i <= next_cut(cl, i),
        next_cut(cl, i) < cl.len() ==> camel_cut(cl, next_cut(cl, i)),
        forall|k: int| i <= k < next_cut(cl, i) ==> !camel_cut(cl, k),
    decreases cl.len() - i,
{
    if i < cl.len() && !camel_cut(cl, i) {
        lemma_next_cut(cl, i + 1);
    }
}

impl Tables {
    /// The tokens of characters that are not folded.
    pub open spec fn plain_toks(self, cps: Seq<u32>) -> Seq<Tok> {
        all_sym_toks(self.bpe(self.syms(cps)))
    }

    /// The variation that turns a normal form back into the characters that it was folded from,
    /// if one does: none folded, only the first lower-cased, all lower-cased, or all simplified
    /// that could have been.
    pub open spec fn variation(self, norm: Seq<u32>, flags: Seq<u8>) -> Option<u32> {
        if forall|i: int| 0 <= i < flags.len() ==> #[trigger] flags[i] == 0 {
            Some(V_NONE)
        } else if forall|i: int| 0 <= i < flags.len() ==> #[trigger] flags[i] != F_TRAD {
            if flags[0] == F_UP && forall|i: int|
                1 <= i < flags.len() ==> #[trigger] flags[i] != F_UP {
                Some(V_CAP)
            } else if forall|i: int| 0 <= i < flags.len() ==> #[trigger] flags[i] == F_UP {
                Some(V_UPPER)
            } else {
                None
            }
        } else if (forall|i: int| 0 <= i < flags.len() ==> #[trigger] flags[i] != F_UP) && (forall|
            i: int,
        |
            0 <= i < flags.len() ==> #[trigger] flags[i] == F_TRAD || !self.han_to_trad.contains(
                norm[i],
            )) {
            Some(V_TRAD)
        } else {
            None
        }
    }

    /// The tokens of one folded character by itself.
    pub open spec fn char_toks(self, cp: u32) -> Seq<Tok> {
        let (norm, flag) = self.folded(cp);
        if outside(self.sym(norm)) {
            byte_toks(scalar_bytes(cp))
        } else {
            seq![core_tok(flag_variation(flag), self.sym(norm))]
        }
    }

    /// The tokens of folded characters, each by itself.
    pub open spec fn all_char_toks(self, cps: Seq<u32>) -> Seq<Tok>
        decreases cps.len(),
    {
        if cps.len() == 0 {
            seq![]
        } else {
            self.char_toks(cps[0]) + self.all_char_toks(cps.skip(1))
        }
    }

    /// The tokens of the characters that one symbol covers: the symbol in the variation that
    /// restores them, the characters one by one where none does, or the bytes of a character
    /// outside the alphabet.
    pub open spec fn piece_toks(self, piece: Seq<u32>, sym: u32) -> Seq<Tok> {
        if outside(sym) {
            byte_toks(scalar_bytes(piece[0]))
        } else {
            match self.variation(self.norms(piece), self.flags(piece)) {
                Some(v) => seq![core_tok(v, sym)],
                None => self.all_char_toks(piece),
            }
        }
    }

    /// The tokens of characters of which `syms[i]` covers the next `lens[i]`.
    pub open spec fn pieces_toks(self, cps: Seq<u32>, syms: Seq<u32>, lens: Seq<nat>) -> Seq<Tok>
        decreases syms.len(),
    {
        if syms.len() == 0 {
            seq![]
        } else {
            self.piece_toks(cps.take(lens[0] as int), syms[0]) + self.pieces_toks(
                cps.skip(lens[0] as int),
                syms.skip(1),
                lens.skip(1),
            )
        }
    }

    /// The tokens of a segment of a word.
    pub open spec fn segment_toks(self, cps: Seq<u32>) -> Seq<Tok> {
        if self.fold_case || self.fold_han {
            let syms = self.syms(self.norms(cps));
            self.pieces_toks(cps, self.bpe(syms), self.bpe_lens(syms, ones(cps.len())))
        } else {
            self.plain_toks(cps)
        }
    }

    /// The classes of code points.
    pub open spec fn cp_classes(self, cps: Seq<u32>) -> Seq<u8> {
        cps.map_values(|cp: u32| self.class(cp))
    }

    /// The tokens of a word from index `start` on, segment by segment.
    pub open spec fn camel_toks(self, cps: Seq<u32>, start: int) -> Seq<Tok>
        decreases cps.len() - start,
    {
        let end = next_cut(self.cp_classes(cps), start + 1);
        if start < end < cps.len() {
            self.segment_toks(cps.subrange(start, end)) + self.camel_toks(cps, end)
        } else {
            self.segment_toks(cps.skip(start))
        }
    }

    /// The tokens of a word.
    pub open spec fn word_toks(self, cps: Seq<u32>) -> Seq<Tok> {
        if self.split_camel {
            self.camel_toks(cps, 0)
        } else {
            self.segment_toks(cps)
        }
    }
}

/// The code points of a text.
pub fn decode_all(s: &[u8]) -> (cps: Vec<u32>)
    requires
        valid_utf8(s@),
    ensures
        cps@ == code_points(decode_utf8(s@)),
        forall|k: int| 0 <= k < cps@.len() ==> is_scalar(#[trigger] cps@[k]),
{
    let mut cps: Vec<u32> = Vec::new();
    let mut i: usize = 0;
    let ghost text = decode_utf8(s@);
    proof {
        assert(s@.skip(0) =~= s@);
        assert(text.skip(0) =~= text);
    }
    while i < s.len()
        invariant
            i <= s@.len(),
            cps@.len() <= text.len(),
            cps@ == code_points(text.take(cps@.len() as int)),
            valid_utf8(s@.skip(i as int)),
            decode_utf8(s@.skip(i as int)) == text.skip(cps@.len() as int),
            forall|k: int| 0 <= k < cps@.len() ==> is_scalar(#[trigger] cps@[k]),
        decreases s@.len() - i,
    {
        let ghost rest = s@.skip(i as int);
        let ghost n = cps@.len() as int;
        proof {
            lemma_first_char(rest);
        }
        let (cp, l) = decode_at(s, i);
        cps.push(cp);
        proof {
            assert(text.skip(n)[0] == text[n]);
            assert(text.skip(n).skip(1) =~= text.skip(n + 1));
            assert(rest.skip(l as int) =~= s@.skip(i + l));
            assert(cps@ =~= code_points(text.take(n + 1)));
        }
        i = i + l;
    }
    proof {
        assert(s@.skip(i as int).len() == 0);
        assert(text.skip(cps@.len() as int).len() == 0);
        assert(text.take(cps@.len() as int) =~= text);
    }
    cps
}

/// Appends the tokens of symbols that were not folded.
fn push_syms(syms: &Vec<u32>, out: &mut Vec<Tok>)
    ensures
        final(out)@ == old(out)@ + all_sym_toks(syms@),
{
    let mut i: usize = 0;
    assert(syms@.skip(0) =~= syms@);
    assert(old(out)@ + all_sym_toks(syms@) =~= out@ + all_sym_toks(syms@.skip(0)));
    while i < syms.len()
        invariant
            i <= syms@.len(),
            old(out)@ + all_sym_toks(syms@) == out@ + all_sym_toks(syms@.skip(i as int)),
        decreases syms@.len() - i,
    {
        let sym: u32 = syms[i];
        let ghost before = out@;
        proof {
            lemma_outside(sym);
            assert(syms@.skip(i as int)[0] == sym);
            assert(syms@.skip(i as int).skip(1) =~= syms@.skip(i + 1));
        }
        if sym & OOA != 0 {
            push_utf8(sym & !OOA, out);
        } else {
            out.push(Tok { variation: V_NONE, prefix: 0, core: sym, suffix: 0 });
        }
        proof {
            assert(out@ =~= before + sym_toks(sym));
            assert(before + (sym_toks(sym) + all_sym_toks(syms@.skip(i + 1))) =~= out@
                + all_sym_toks(syms@.skip(i + 1)));
        }
        i = i + 1;
    }
    assert(syms@.skip(i as int) =~= seq![]);
    assert(out@ + all_sym_toks(seq![]) =~= out@);
}

impl Model {
    /// The symbols that code points start out as.
    fn syms_of(&self, cps: &[u32]) -> (syms: Vec<u32>)
        requires
            self.wf(),
        ensures
            syms@ == self@.syms(cps@),
    {
        let mut syms: Vec<u32> = Vec::new();
        let mut i: usize = 0;
        while i < cps.len()
            invariant
                self.wf(),
                i <= cps@.len(),
                syms@ == self@.syms(cps@.take(i as int)),
            decreases cps@.len() - i,
        {
            syms.push(self.sym_of(cps[i]));
            i = i + 1;
            assert(syms@ =~= self@.syms(cps@.take(i as int)));
        }
        assert(cps@.take(i as int) =~= cps@);
        syms
    }

    /// Appends the tokens of code points that are not folded.
    fn push_plain(&self, cps: &[u32], out: &mut Vec<Tok>)
        requires
            self.wf(),
        ensures
            final(out)@ == old(out)@ + self@.plain_toks(cps@),
    {
        let mut syms: Vec<u32> = self.syms_of(cps);
        self.bpe(&mut syms);
        push_syms(&syms, out);
    }

    /// Appends the tokens of a text that is not folded.
    pub fn core_encode(&self, s: &[u8], out: &mut Vec<Tok>)
        requires
            self.wf(),
            valid_utf8(s@),
        ensures
            final(out)@ == old(out)@ + self@.plain_toks(code_points(decode_utf8(s@))),
    {
        let cps: Vec<u32> = decode_all(s);
        self.push_plain(cps.as_slice(), out);
    }

    /// The variation that restores a piece from its normal form.
    pub fn piece_variation(&self, piece: &[u32], flags: &[u8]) -> (r: Option<u32>)
        requires
            piece@.len() == flags@.len(),
        ensures
            r == self@.variation(piece@, flags@),
    {
        let mut plain: bool = true;
        let mut no_trad: bool = true;
        let mut no_up: bool = true;
        let mut all_up: bool = true;
        let mut later_up: bool = false;
        let mut trad: bool = true;
        let mut i: usize = 0;
        while i < flags.len()
            invariant
                i <= flags@.len(),
                piece@.len() == flags@.len(),
                plain <==> forall|k: int| 0 <= k < i ==> #[trigger] flags@[k] == 0,
                no_trad <==> forall|k: int| 0 <= k < i ==> #[trigger] flags@[k] != F_TRAD,
                no_up <==> forall|k: int| 0 <= k < i ==> #[trigger] flags@[k] != F_UP,
                all_up <==> forall|k: int| 0 <= k < i ==> #[trigger] flags@[k] == F_UP,
                !later_up <==> forall|k: int| 1 <= k < i ==> #[trigger] flags@[k] != F_UP,
                trad <==> forall|k: int|
                    0 <= k < i ==> #[trigger] flags@[k] == F_TRAD || !self@.han_to_trad.contains(
                        piece@[k],
                    ),
            decreases flags@.len() - i,
        {
            let f: u8 = flags[i];
            if f != 0 {
                plain = false;
            }
            if f == F_TRAD {
                no_trad = false;
            } else if self.has_trad(piece[i]) {
                trad = false;
            }
            if f == F_UP {
                no_up = false;
                if i > 0 {
                    later_up = true;
                }
            } else {
                all_up = false;
            }
            i = i + 1;
        }
        if plain {
            return Some(V_NONE);
        }
        if no_trad {
            if flags[0] == F_UP && !later_up {
                return Some(V_CAP);
            }
            if all_up {
                return Some(V_UPPER);
            }
            return None;
        }
        if no_up && trad {
            return Some(V_TRAD);
        }
        None
    }

    /// Appends the tokens of folded characters, each by itself.
    fn push_chars(&self, cps: &[u32], norm: &[u32], flags: &[u8], out: &mut Vec<Tok>)
        requires
            self.wf(),
            norm@ == self@.norms(cps@),
            flags@ == self@.flags(cps@),
        ensures
            final(out)@ == old(out)@ + self@.all_char_toks(cps@),
    {
        let mut k: usize = 0;
        assert(cps@.skip(0) =~= cps@);
        while k < cps.len()
            invariant
                self.wf(),
                k <= cps@.len(),
                norm@ == self@.norms(cps@),
                flags@ == self@.flags(cps@),
                old(out)@ + self@.all_char_toks(cps@) == out@ + self@.all_char_toks(
                    cps@.skip(k as int),
                ),
            decreases cps@.len() - k,
        {
            let ghost before = out@;
            let cp: u32 = cps[k];
            assert(norm@[k as int] == self@.folded(cp).0);
            assert(flags@[k as int] == self@.folded(cp).1);
            let ci: u32 = self.sym_of(norm[k]);
            proof {
                lemma_outside(ci);
                assert(cps@.skip(k as int)[0] == cp);
                assert(cps@.skip(k as int).skip(1) =~= cps@.skip(k + 1));
            }
            if ci & OOA != 0 {
                push_utf8(cp, out);
            } else {
                let f: u8 = flags[k];
                let v: u32 = if f == F_UP {
                    V_CAP
                } else if f == F_TRAD {
                    V_TRAD
                } else {
                    V_NONE
                };
                out.push(Tok { variation: v, prefix: 0, core: ci, suffix: 0 });
            }
            proof {
                assert(out@ =~= before + self@.char_toks(cp));
                let rest = self@.all_char_toks(cps@.skip(k + 1));
                assert(before + (self@.char_toks(cp) + rest) =~= out@ + rest);
            }
            k = k + 1;
        }
        assert(cps@.skip(k as int) =~= seq![]);
        assert(out@ + self@.all_char_toks(seq![]) =~= out@);
    }

    /// Appends the tokens of a segment of a word. Characters are folded and merged; each piece
    /// takes the variation that restores it, and falls apart into its characters where none does.
    pub fn encode_segment(&self, cps: &[u32], out: &mut Vec<Tok>)
        requires
            self.wf(),
        ensures
            final(out)@ == old(out)@ + self@.segment_toks(cps@),
    {
        if !self.folds() {
            self.push_plain(cps, out);
            return;
        }
        let n: usize = cps.len();
        let mut norm: Vec<u32> = Vec::new();
        let mut flags: Vec<u8> = Vec::new();
        let mut lens: Vec<usize> = Vec::new();
        let mut j: usize = 0;
        while j < n
            invariant
                j <= n == cps@.len(),
                norm@ == self@.norms(cps@.take(j as int)),
                flags@ == self@.flags(cps@.take(j as int)),
                lens@.len() == j,
                forall|k: int| 0 <= k < j ==> #[trigger] lens@[k] == 1,
            decreases n - j,
        {
            let (x, f) = self.fold_char(cps[j]);
            norm.push(x);
            flags.push(f);
            lens.push(1);
            j = j + 1;
            assert(norm@ =~= self@.norms(cps@.take(j as int)));
            assert(flags@ =~= self@.flags(cps@.take(j as int)));
        }
        assert(nats(lens@) =~= ones(n as nat));
        assert(cps@.take(n as int) =~= cps@);
        let mut syms: Vec<u32> = self.syms_of(norm.as_slice());
        let ghost syms0 = syms@;
        proof {
            lemma_total_ones(n as nat);
            assert(lens@.len() == nats(lens@).len());
            self@.lemma_bpe_lens(syms0, ones(n as nat));
        }
        self.bpe_lens(&mut syms, &mut lens);
        let ghost ls = nats(lens@);
        let mut pos: usize = 0;
        let mut i: usize = 0;
        proof {
            assert(cps@.skip(0) =~= cps@);
            assert(syms@.skip(0) =~= syms@);
            assert(ls.skip(0) =~= ls);
        }
        while i < syms.len()
            invariant
                self.wf(),
                i <= syms@.len(),
                ls == nats(lens@),
                lens@.len() == syms@.len(),
                pos + total(ls.skip(i as int)) == n,
                n == cps@.len(),
                norm@ == self@.norms(cps@),
                flags@ == self@.flags(cps@),
                forall|k: int| 0 <= k < ls.len() ==> #[trigger] ls[k] > 0,
                old(out)@ + self@.pieces_toks(cps@, syms@, ls) == out@ + self@.pieces_toks(
                    cps@.skip(pos as int),
                    syms@.skip(i as int),
                    ls.skip(i as int),
                ),
            decreases syms@.len() - i,
        {
            let ghost before = out@;
            let sym: u32 = syms[i];
            let len: usize = lens[i];
            let ghost rest = cps@.skip(pos as int);
            proof {
                lemma_outside(sym);
                assert(ls[i as int] == len);
                assert(ls.skip(i as int)[0] == len);
                assert(ls.skip(i as int).skip(1) =~= ls.skip(i + 1));
                assert(syms@.skip(i as int)[0] == sym);
                assert(syms@.skip(i as int).skip(1) =~= syms@.skip(i + 1));
                assert(rest.skip(len as int) =~= cps@.skip(pos + len));
                assert(rest.take(len as int) =~= cps@.subrange(pos as int, pos + len));
                assert(self@.norms(rest.take(len as int)) =~= norm@.subrange(
                    pos as int,
                    pos + len,
                ));
                assert(self@.flags(rest.take(len as int)) =~= flags@.subrange(
                    pos as int,
                    pos + len,
                ));
            }
            if sym & OOA != 0 {
                assert(rest.take(len as int)[0] == cps@[pos as int]);
                push_utf8(cps[pos], out);
            } else {
                let pn: &[u32] = slice_subrange(norm.as_slice(), pos, pos + len);
                let pf: &[u8] = slice_subrange(flags.as_slice(), pos, pos + len);
                match self.piece_variation(pn, pf) {
                    Some(v) => {
                        out.push(Tok { variation: v, prefix: 0, core: sym, suffix: 0 });
                    },
                    None => {
                        self.push_chars(slice_subrange(cps, pos, pos + len), pn, pf, out);
                    },
                }
            }
            proof {
                let now = self@.piece_toks(rest.take(len as int), sym);
                assert(out@ =~= before + now);
                let later = self@.pieces_toks(
                    cps@.skip(pos + len),
                    syms@.skip(i + 1),
                    ls.skip(i + 1),
                );
                assert(before + (now + later) =~= out@ + later);
            }
            pos = pos + len;
            i = i + 1;
        }
        proof {
            assert(syms@.skip(i as int).len() == 0);
            assert(out@ + seq![] =~= out@);
        }
    }

    /// Appends the tokens of a word, which is cut at its camel humps first if the tokenizer says
    /// so.
    pub fn encode_word(&self, word: &[u8], out: &mut Vec<Tok>)
        requires
            self.wf(),
            valid_utf8(word@),
        ensures
            final(out)@ == old(out)@ + self@.word_toks(code_points(decode_utf8(word@))),
    {
        let cps: Vec<u32> = decode_all(word);
        if !self.splits_camel() {
            self.encode_segment(cps.as_slice(), out);
            return;
        }
        let n: usize = cps.len();
        let mut cl: Vec<u8> = Vec::new();
        let mut j: usize = 0;
        while j < n
            invariant
                self.wf(),
                j <= n == cps@.len(),
                cl@ == self@.cp_classes(cps@.take(j as int)),
                forall|k: int| 0 <= k < cps@.len() ==> is_scalar(#[trigger] cps@[k]),
            decreases n - j,
        {
            cl.push(self.class_of(cps[j]));
            j = j + 1;
            assert(cl@ =~= self@.cp_classes(cps@.take(j as int)));
        }
        assert(cps@.take(n as int) =~= cps@);
        let mut start: usize = 0;
        let mut i: usize = 1;
        while i < n
            invariant
                self.wf(),
                n == cps@.len(),
                cl@ == self@.cp_classes(cps@),
                cl@.len() == n,
                start < i,
                n > 0 ==> i <= n,
                n == 0 ==> start == 0,
                next_cut(cl@, start + 1) == next_cut(cl@, i as int),
                old(out)@ + self@.camel_toks(cps@, 0) == out@ + self@.camel_toks(
                    cps@,
                    start as int,
                ),
            decreases n - i,
        {
            let split: bool = (cl[i - 1] & C_LL != 0 && cl[i] & C_LU != 0) || (cl[i - 1] & C_LU
                != 0 && cl[i] & C_LU != 0 && i + 1 < n && cl[i + 1] & C_LL != 0);
            assert(split == camel_cut(cl@, i as int));
            if split {
                let ghost before = out@;
                self.encode_segment(slice_subrange(cps.as_slice(), start, i), out);
                proof {
                    assert(next_cut(cl@, start + 1) == i);
                    let now = self@.segment_toks(cps@.subrange(start as int, i as int));
                    let later = self@.camel_toks(cps@, i as int);
                    assert(before + (now + later) =~= out@ + later);
                }
                start = i;
            }
            i = i + 1;
        }
        proof {
            assert(next_cut(cl@, start + 1) == n);
            assert(cps@.skip(start as int) =~= cps@.subrange(start as int, n as int));
        }
        self.encode_segment(slice_subrange(cps.as_slice(), start, n), out);
    }
}

pub proof fn lemma_total_ones(n: nat)
    ensures
        total(ones(n)) == n,
    decreases n,
{
    if n > 0 {
        lemma_total_ones((n - 1) as nat);
        assert(ones(n).skip(1) =~= ones((n - 1) as nat));
    }
}

/// A code point has bytes.
pub proof fn lemma_scalar_bytes(cp: u32)
    ensures
        1 <= scalar_bytes(cp).len() <= 4,
{
}

pub proof fn lemma_all_sym_toks(syms: Seq<u32>)
    requires
        syms.len() > 0,
    ensures
        all_sym_toks(syms).len() > 0,
{
    if outside(syms[0]) {
        lemma_scalar_bytes((syms[0] - OOA) as u32);
    }
}

impl Tables {
    proof fn lemma_all_char_toks(self, cps: Seq<u32>)
        requires
            cps.len() > 0,
        ensures
            self.all_char_toks(cps).len() > 0,
    {
        lemma_scalar_bytes(cps[0]);
    }

    /// A segment that is not empty has tokens.
    proof fn lemma_segment_toks(self, cps: Seq<u32>)
        requires
            cps.len() > 0,
        ensures
            self.segment_toks(cps).len() > 0,
    {
        let n = cps.len();
        if self.fold_case || self.fold_han {
            let syms = self.syms(self.norms(cps));
            let lens = self.bpe_lens(syms, ones(n));
            self.lemma_bpe_lens(syms, ones(n));
            lemma_total_ones(n);
            assert(lens[0] > 0);
            assert(lens[0] <= total(lens));
            let piece = cps.take(lens[0] as int);
            lemma_scalar_bytes(piece[0]);
            self.lemma_all_char_toks(piece);
        } else {
            self.lemma_bpe_lens(self.syms(cps), ones(n));
            lemma_all_sym_toks(self.bpe(self.syms(cps)));
        }
    }

    proof fn lemma_camel_toks(self, cps: Seq<u32>, start: int)
        requires
            0 <= start < cps.len(),
        ensures
            self.camel_toks(cps, start).len() > 0,
    {
        let end = next_cut(self.cp_classes(cps), start + 1);
        lemma_next_cut(self.cp_classes(cps), start + 1);
        if end < cps.len() {
            self.lemma_segment_toks(cps.subrange(start, end));
        } else {
            self.lemma_segment_toks(cps.skip(start));
        }
    }

    /// A word that is not empty has tokens.
    pub proof fn lemma_word_toks(self, cps: Seq<u32>)
        requires
            cps.len() > 0,
        ensures
            self.word_toks(cps).len() > 0,
    {
        if self.split_camel {
            self.lemma_camel_toks(cps, 0);
        } else {
            self.lemma_segment_toks(cps);
        }
    }
}

} // verus!
