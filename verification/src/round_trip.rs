//! Decoding undoes encoding, where the tables let it.
use crate::batch::{row, rows};
use crate::bpe::{lemma_merge_shrinks, lemma_outside, merge_all, merge_lens, outside};
use crate::decode::{index_of, DecodeError};
use crate::segment::{all_sym_toks, flag_variation, lemma_next_cut, next_cut, ones, sym_toks};
use crate::tables::{affix_map, Tables};
use crate::tok::{byte_toks, core_tok, Tok, OOA, V_NONE};
use crate::unit::tagged;
use crate::utf8::{
    code_points, lemma_encode_concat, lemma_scalars, lemma_spell_concat, lemma_spell_text,
    scalar_bytes, spell,
};
use vstd::prelude::*;
use vstd::utf8::{encode_utf8, is_scalar};

verus! {

/// Whether the ids of a token are below 2^31.
pub open spec fn small_ids(t: Tok) -> bool {
    &&& t.variation <= i32::MAX
    &&& t.prefix <= i32::MAX
    &&& t.core <= i32::MAX
    &&& t.suffix <= i32::MAX
}

impl Tables {
    /// Whether tokens decode to these bytes, from ids below 2^31.
    pub open spec fn says(self, toks: Seq<Tok>, bytes: Seq<u8>) -> bool {
        &&& forall|i: int| 0 <= i < toks.len() ==> small_ids(#[trigger] toks[i])
        &&& self.decode(rows(toks)) == Ok::<Seq<u8>, DecodeError>(bytes)
    }

    /// Whether the tables let texts be restored, with the characters that each core stands for.
    /// The affixes are looked up by the bytes that they decode to, the first one of each list
    /// being empty. The first 256 cores are the single bytes. The core of a character stands for
    /// the character, a merged core for what its parts stand for. A core without variation decodes
    /// to its characters, and in a variation to all characters that are folded into its own and
    /// that the variation restores.
    pub open spec fn faithful(self, spelling: Map<u32, Seq<u32>>) -> bool {
        &&& self.prefixes == affix_map(self.dec_prefix, self.dec_prefix.len() as int)
        &&& self.suffixes == affix_map(self.dec_suffix, self.dec_suffix.len() as int)
        &&& 0 < self.dec_prefix.len() <= 0x8000_0000
        &&& 0 < self.dec_suffix.len() <= 0x8000_0000
        &&& self.dec_prefix[0].len() == 0
        &&& self.dec_suffix[0].len() == 0
        &&& self.dec_core.len() > 0
        &&& self.dec_core[0].len() >= 256
        &&& forall|b: u8| #[trigger] self.dec_core[0][b as int] == seq![b]
        &&& forall|cp: u32| #[trigger]
            self.char_id.contains_key(cp) ==> {
                &&& !outside(self.char_id[cp])
                &&& spelling.contains_key(self.char_id[cp])
                &&& spelling[self.char_id[cp]] == seq![cp]
            }
        &&& forall|a: u32, b: u32| #[trigger]
            self.mergeable(a, b) && spelling.contains_key(a) && spelling.contains_key(b) ==> {
                let m = self.merges[(a, b)].1;
                &&& !outside(m)
                &&& spelling.contains_key(m)
                &&& spelling[m] == spelling[a] + spelling[b]
            }
        &&& forall|id: u32| #[trigger]
            spelling.contains_key(id) && !outside(id) ==> id < self.dec_core[0].len()
                && self.dec_core[0][id as int] == spell(spelling[id])
        &&& forall|id: u32, cps: Seq<u32>|
            #![trigger spelling.contains_key(id), self.norms(cps)]
            spelling.contains_key(id) && !outside(id) && self.norms(cps) == spelling[id] ==> (
            match self.variation(self.norms(cps), self.flags(cps)) {
                Some(v) => v < self.dec_core.len() && id < self.dec_core[v as int].len()
                    && self.dec_core[v as int][id as int] == spell(cps),
                None => true,
            })
    }

    /// The bytes of a token and of those after it.
    proof fn lemma_says_first(self, tok: Tok, rest: Seq<Tok>, bytes: Seq<u8>, tail: Seq<u8>)
        requires
            small_ids(tok),
            self.tok_bytes(
                tok.variation as usize,
                tok.prefix as usize,
                tok.core as usize,
                tok.suffix as usize,
            ) == Some(bytes),
            self.says(rest, tail),
        ensures
            self.says(seq![tok] + rest, bytes + tail),
    {
        let toks = seq![tok] + rest;
        let ids = rows(toks);
        assert(toks.skip(1) =~= rest);
        assert(ids == row(tok) + rows(rest));
        assert(ids.skip(4) =~= rows(rest));
        assert(index_of(ids[0]) == tok.variation as usize);
        assert(index_of(ids[1]) == tok.prefix as usize);
        assert(index_of(ids[2]) == tok.core as usize);
        assert(index_of(ids[3]) == tok.suffix as usize);
    }

    /// No tokens decode to no bytes.
    proof fn lemma_says_nothing(self)
        ensures
            self.says(seq![], seq![]),
    {
    }

    /// What the first of some tokens says, and what the others say.
    proof fn lemma_says_split(self, toks: Seq<Tok>, bytes: Seq<u8>) -> (r: (Seq<u8>, Seq<u8>))
        requires
            toks.len() > 0,
            self.says(toks, bytes),
        ensures
            self.tok_bytes(
                toks[0].variation as usize,
                toks[0].prefix as usize,
                toks[0].core as usize,
                toks[0].suffix as usize,
            ) == Some(r.0),
            self.says(toks.skip(1), r.1),
            bytes == r.0 + r.1,
    {
        let tok = toks[0];
        let ids = rows(toks);
        let rest = toks.skip(1);
        assert(small_ids(tok));
        assert(ids == row(tok) + rows(rest));
        assert(ids.skip(4) =~= rows(rest));
        assert(index_of(ids[0]) == tok.variation as usize);
        assert(index_of(ids[1]) == tok.prefix as usize);
        assert(index_of(ids[2]) == tok.core as usize);
        assert(index_of(ids[3]) == tok.suffix as usize);
        let head = self.tok_bytes(
            tok.variation as usize,
            tok.prefix as usize,
            tok.core as usize,
            tok.suffix as usize,
        );
        assert forall|i: int| 0 <= i < rest.len() implies small_ids(#[trigger] rest[i]) by {
            assert(rest[i] == toks[i + 1]);
        }
        (head->0, self.decode(rows(rest))->Ok_0)
    }

    /// Tokens in a row decode to their bytes in a row.
    proof fn lemma_says_concat(self, a: Seq<Tok>, b: Seq<Tok>, x: Seq<u8>, y: Seq<u8>)
        requires
            self.says(a, x),
            self.says(b, y),
        ensures
            self.says(a + b, x + y),
        decreases a.len(),
    {
        if a.len() == 0 {
            assert(a + b =~= b);
            assert(x + y =~= y);
        } else {
            let (head, tail) = self.lemma_says_split(a, x);
            self.lemma_says_concat(a.skip(1), b, tail, y);
            assert(small_ids(a[0]));
            self.lemma_says_first(a[0], a.skip(1) + b, head, tail + y);
            assert(seq![a[0]] + (a.skip(1) + b) =~= a + b);
            assert(head + (tail + y) =~= x + y);
        }
    }

    /// A core without affixes decodes to its bytes.
    proof fn lemma_says_core(self, spelling: Map<u32, Seq<u32>>, v: u32, core: u32, bytes: Seq<u8>)
        requires
            self.faithful(spelling),
            v <= i32::MAX,
            core <= i32::MAX,
            v < self.dec_core.len(),
            core < self.dec_core[v as int].len(),
            self.dec_core[v as int][core as int] == bytes,
        ensures
            self.says(seq![core_tok(v, core)], bytes),
    {
        self.lemma_says_nothing();
        let tok = core_tok(v, core);
        assert(self.dec_prefix[0] + bytes + self.dec_suffix[0] =~= bytes);
        self.lemma_says_first(tok, seq![], bytes, seq![]);
        assert(seq![tok] + seq![] =~= seq![tok]);
        assert(bytes + seq![] =~= bytes);
    }

    /// Byte tokens decode to the bytes.
    proof fn lemma_says_bytes(self, spelling: Map<u32, Seq<u32>>, bytes: Seq<u8>)
        requires
            self.faithful(spelling),
        ensures
            self.says(byte_toks(bytes), bytes),
        decreases bytes.len(),
    {
        self.lemma_says_nothing();
        if bytes.len() == 0 {
            assert(byte_toks(bytes) =~= seq![]);
            assert(bytes =~= seq![]);
        } else {
            let b = bytes[0];
            let rest = bytes.skip(1);
            assert(self.dec_core[0][b as int] == seq![b]);
            self.lemma_says_core(spelling, V_NONE, b as u32, seq![b]);
            self.lemma_says_bytes(spelling, rest);
            self.lemma_says_concat(
                seq![core_tok(V_NONE, b as u32)],
                byte_toks(rest),
                seq![b],
                rest,
            );
            assert(seq![core_tok(V_NONE, b as u32)] + byte_toks(rest) =~= byte_toks(bytes));
            assert(seq![b] + rest =~= bytes);
        }
    }
}

/// Whether a symbol stands for these characters. One outside the alphabet stands for a single
/// character, and is its flagged code point.
spec fn covers(spelling: Map<u32, Seq<u32>>, sym: u32, part: Seq<u32>) -> bool {
    if outside(sym) {
        part.len() == 1 && (part[0] < OOA ==> sym == OOA + part[0])
    } else {
        spelling.contains_key(sym) && spelling[sym] == part
    }
}

/// Whether symbols stand for the characters one after the other, `lens[i]` each.
spec fn aligned(
    spelling: Map<u32, Seq<u32>>,
    syms: Seq<u32>,
    lens: Seq<nat>,
    cps: Seq<u32>,
) -> bool
    decreases syms.len(),
{
    &&& lens.len() == syms.len()
    &&& if syms.len() == 0 {
        cps.len() == 0
    } else {
        &&& lens[0] <= cps.len()
        &&& covers(spelling, syms[0], cps.take(lens[0] as int))
        &&& aligned(spelling, syms.skip(1), lens.skip(1), cps.skip(lens[0] as int))
    }
}

impl Tables {
    /// Merging a pair keeps what the symbols stand for.
    proof fn lemma_aligned_merge(
        self,
        spelling: Map<u32, Seq<u32>>,
        syms: Seq<u32>,
        lens: Seq<nat>,
        cps: Seq<u32>,
        a: u32,
        b: u32,
    )
        requires
            self.faithful(spelling),
            self.mergeable(a, b),
            aligned(spelling, syms, lens, cps),
        ensures
            aligned(
                spelling,
                merge_all(syms, a, b, self.merges[(a, b)].1),
                merge_lens(syms, lens, a, b),
                cps,
            ),
        decreases syms.len(),
    {
        let m = self.merges[(a, b)].1;
        let out = merge_all(syms, a, b, m);
        let out_lens = merge_lens(syms, lens, a, b);
        if syms.len() >= 2 {
            let l0 = lens[0] as int;
            let rest = cps.skip(l0);
            if syms[0] == a && syms[1] == b {
                let l1 = lens[1] as int;
                reveal_with_fuel(aligned, 3);
                assert(syms.skip(1).skip(1) =~= syms.skip(2));
                assert(lens.skip(1).skip(1) =~= lens.skip(2));
                assert(rest.skip(l1) =~= cps.skip(l0 + l1));
                assert(cps.take(l0) + rest.take(l1) =~= cps.take(l0 + l1));
                assert(covers(spelling, m, cps.take(l0 + l1)));
                self.lemma_aligned_merge(
                    spelling,
                    syms.skip(2),
                    lens.skip(2),
                    cps.skip(l0 + l1),
                    a,
                    b,
                );
                assert(out.skip(1) =~= merge_all(syms.skip(2), a, b, m));
                assert(out_lens.skip(1) =~= merge_lens(syms.skip(2), lens.skip(2), a, b));
            } else {
                self.lemma_aligned_merge(spelling, syms.skip(1), lens.skip(1), rest, a, b);
                assert(out.skip(1) =~= merge_all(syms.skip(1), a, b, m));
                assert(out_lens.skip(1) =~= merge_lens(syms.skip(1), lens.skip(1), a, b));
            }
        }
    }

    /// Byte-pair encoding keeps what the symbols stand for.
    proof fn lemma_aligned_bpe(
        self,
        spelling: Map<u32, Seq<u32>>,
        syms: Seq<u32>,
        lens: Seq<nat>,
        cps: Seq<u32>,
    )
        requires
            self.faithful(spelling),
            aligned(spelling, syms, lens, cps),
        ensures
            aligned(spelling, self.bpe(syms), self.bpe_lens(syms, lens), cps),
        decreases syms.len(),
    {
        if exists|i: int| self.best_at(syms, i) {
            let i = choose|i: int| self.best_at(syms, i);
            let (a, b) = (syms[i], syms[i + 1]);
            lemma_merge_shrinks(syms, a, b, self.merges[(a, b)].1, i);
            self.lemma_aligned_merge(spelling, syms, lens, cps, a, b);
            self.lemma_aligned_bpe(
                spelling,
                self.merged_once(syms, i),
                merge_lens(syms, lens, a, b),
                cps,
            );
        }
    }

    /// A character's own symbol stands for it.
    proof fn lemma_covers_char(self, spelling: Map<u32, Seq<u32>>, cp: u32)
        requires
            self.faithful(spelling),
        ensures
            covers(spelling, self.sym(cp), seq![cp]),
            outside(self.sym(cp)) ==> !self.char_id.contains_key(cp),
    {
        lemma_outside(cp);
    }

    /// The symbols that characters start out as stand for them.
    proof fn lemma_aligned_start(self, spelling: Map<u32, Seq<u32>>, cps: Seq<u32>)
        requires
            self.faithful(spelling),
        ensures
            aligned(spelling, self.syms(cps), ones(cps.len()), cps),
        decreases cps.len(),
    {
        if cps.len() > 0 {
            self.lemma_covers_char(spelling, cps[0]);
            self.lemma_aligned_start(spelling, cps.skip(1));
            assert(cps.take(1) =~= seq![cps[0]]);
            assert(self.syms(cps).skip(1) =~= self.syms(cps.skip(1)));
            assert(ones(cps.len()).skip(1) =~= ones(cps.skip(1).len()));
        }
    }

    /// The tokens of symbols decode to the characters that they stand for.
    proof fn lemma_says_syms(
        self,
        spelling: Map<u32, Seq<u32>>,
        syms: Seq<u32>,
        lens: Seq<nat>,
        cps: Seq<u32>,
    )
        requires
            self.faithful(spelling),
            aligned(spelling, syms, lens, cps),
            forall|k: int| 0 <= k < cps.len() ==> is_scalar(#[trigger] cps[k]),
        ensures
            self.says(all_sym_toks(syms), spell(cps)),
        decreases syms.len(),
    {
        if syms.len() == 0 {
            self.lemma_says_nothing();
        } else {
            let l = lens[0] as int;
            let part = cps.take(l);
            let rest = cps.skip(l);
            let sym = syms[0];
            self.lemma_says_syms(spelling, syms.skip(1), lens.skip(1), rest);
            lemma_spell_concat(part, rest);
            assert(part + rest =~= cps);
            if outside(sym) {
                assert(is_scalar(cps[0]));
                assert((sym - OOA) as u32 == cps[0]);
                lemma_spell_one(part);
                self.lemma_says_bytes(spelling, scalar_bytes(cps[0]));
            } else {
                self.lemma_says_core(spelling, V_NONE, sym, spell(part));
            }
            self.lemma_says_concat(
                sym_toks(sym),
                all_sym_toks(syms.skip(1)),
                spell(part),
                spell(rest),
            );
        }
    }

    /// Characters that are not folded are restored.
    proof fn lemma_says_plain(self, spelling: Map<u32, Seq<u32>>, cps: Seq<u32>)
        requires
            self.faithful(spelling),
            forall|k: int| 0 <= k < cps.len() ==> is_scalar(#[trigger] cps[k]),
        ensures
            self.says(self.plain_toks(cps), spell(cps)),
    {
        let syms = self.syms(cps);
        self.lemma_aligned_start(spelling, cps);
        self.lemma_aligned_bpe(spelling, syms, ones(cps.len()), cps);
        self.lemma_says_syms(
            spelling,
            self.bpe(syms),
            self.bpe_lens(syms, ones(cps.len())),
            cps,
        );
    }

    /// A folded character by itself is restored.
    proof fn lemma_says_char(self, spelling: Map<u32, Seq<u32>>, cp: u32)
        requires
            self.faithful(spelling),
        ensures
            self.says(self.char_toks(cp), spell(seq![cp])),
    {
        let (norm, flag) = self.folded(cp);
        let sym = self.sym(norm);
        let one = seq![cp];
        self.lemma_covers_char(spelling, norm);
        lemma_spell_one(one);
        if outside(sym) {
            self.lemma_says_bytes(spelling, scalar_bytes(cp));
        } else {
            assert(self.norms(one) =~= seq![norm]);
            assert(self.flags(one) =~= seq![flag]);
            let v = self.variation(self.norms(one), self.flags(one));
            assert(self.flags(one)[0] == flag);
            assert(v == Some(flag_variation(flag)));
            assert(spelling.contains_key(sym));
            self.lemma_says_core(spelling, flag_variation(flag), sym, spell(one));
        }
    }

    /// Folded characters, each by itself, are restored.
    proof fn lemma_says_chars(self, spelling: Map<u32, Seq<u32>>, cps: Seq<u32>)
        requires
            self.faithful(spelling),
        ensures
            self.says(self.all_char_toks(cps), spell(cps)),
        decreases cps.len(),
    {
        if cps.len() == 0 {
            self.lemma_says_nothing();
        } else {
            let rest = cps.skip(1);
            self.lemma_says_char(spelling, cps[0]);
            self.lemma_says_chars(spelling, rest);
            self.lemma_says_concat(
                self.char_toks(cps[0]),
                self.all_char_toks(rest),
                spell(seq![cps[0]]),
                spell(rest),
            );
            lemma_spell_concat(seq![cps[0]], rest);
            assert(seq![cps[0]] + rest =~= cps);
        }
    }

    /// The characters that one symbol covers are restored.
    proof fn lemma_says_piece(self, spelling: Map<u32, Seq<u32>>, piece: Seq<u32>, sym: u32)
        requires
            self.faithful(spelling),
            covers(spelling, sym, self.norms(piece)),
        ensures
            self.says(self.piece_toks(piece, sym), spell(piece)),
    {
        if outside(sym) {
            assert(piece.len() == 1);
            lemma_spell_one(piece);
            self.lemma_says_bytes(spelling, scalar_bytes(piece[0]));
        } else {
            match self.variation(self.norms(piece), self.flags(piece)) {
                Some(v) => {
                    assert(spelling.contains_key(sym));
                    self.lemma_says_core(spelling, v, sym, spell(piece));
                },
                None => {
                    self.lemma_says_chars(spelling, piece);
                },
            }
        }
    }

    /// The characters that symbols cover are restored.
    proof fn lemma_says_pieces(
        self,
        spelling: Map<u32, Seq<u32>>,
        syms: Seq<u32>,
        lens: Seq<nat>,
        cps: Seq<u32>,
    )
        requires
            self.faithful(spelling),
            aligned(spelling, syms, lens, self.norms(cps)),
        ensures
            self.says(self.pieces_toks(cps, syms, lens), spell(cps)),
        decreases syms.len(),
    {
        if syms.len() == 0 {
            self.lemma_says_nothing();
            assert(cps.len() == 0);
        } else {
            let l = lens[0] as int;
            let part = cps.take(l);
            let rest = cps.skip(l);
            assert(self.norms(part) =~= self.norms(cps).take(l));
            assert(self.norms(rest) =~= self.norms(cps).skip(l));
            self.lemma_says_piece(spelling, part, syms[0]);
            self.lemma_says_pieces(spelling, syms.skip(1), lens.skip(1), rest);
            self.lemma_says_concat(
                self.piece_toks(part, syms[0]),
                self.pieces_toks(rest, syms.skip(1), lens.skip(1)),
                spell(part),
                spell(rest),
            );
            lemma_spell_concat(part, rest);
            assert(part + rest =~= cps);
        }
    }

    /// A segment of a word is restored.
    proof fn lemma_says_segment(self, spelling: Map<u32, Seq<u32>>, cps: Seq<u32>)
        requires
            self.faithful(spelling),
            forall|k: int| 0 <= k < cps.len() ==> is_scalar(#[trigger] cps[k]),
        ensures
            self.says(self.segment_toks(cps), spell(cps)),
    {
        if self.fold_case || self.fold_han {
            let norm = self.norms(cps);
            let syms = self.syms(norm);
            self.lemma_aligned_start(spelling, norm);
            self.lemma_aligned_bpe(spelling, syms, ones(cps.len()), norm);
            self.lemma_says_pieces(
                spelling,
                self.bpe(syms),
                self.bpe_lens(syms, ones(cps.len())),
                cps,
            );
        } else {
            self.lemma_says_plain(spelling, cps);
        }
    }

    /// A word that is cut at its camel humps is restored.
    proof fn lemma_says_camel(self, spelling: Map<u32, Seq<u32>>, cps: Seq<u32>, start: int)
        requires
            self.faithful(spelling),
            forall|k: int| 0 <= k < cps.len() ==> is_scalar(#[trigger] cps[k]),
            0 <= start <= cps.len(),
        ensures
            self.says(self.camel_toks(cps, start), spell(cps.skip(start))),
        decreases cps.len() - start,
    {
        let end = next_cut(self.cp_classes(cps), start + 1);
        lemma_next_cut(self.cp_classes(cps), start + 1);
        if start < end < cps.len() {
            let part = cps.subrange(start, end);
            self.lemma_says_segment(spelling, part);
            self.lemma_says_camel(spelling, cps, end);
            self.lemma_says_concat(
                self.segment_toks(part),
                self.camel_toks(cps, end),
                spell(part),
                spell(cps.skip(end)),
            );
            lemma_spell_concat(part, cps.skip(end));
            assert(part + cps.skip(end) =~= cps.skip(start));
        } else {
            self.lemma_says_segment(spelling, cps.skip(start));
        }
    }

    /// A word is restored.
    proof fn lemma_says_word(self, spelling: Map<u32, Seq<u32>>, cps: Seq<u32>)
        requires
            self.faithful(spelling),
            forall|k: int| 0 <= k < cps.len() ==> is_scalar(#[trigger] cps[k]),
        ensures
            self.says(self.word_toks(cps), spell(cps)),
    {
        if self.split_camel {
            self.lemma_says_camel(spelling, cps, 0);
            assert(cps.skip(0) =~= cps);
        } else {
            self.lemma_says_segment(spelling, cps);
        }
    }
}

/// The bytes of a single code point.
proof fn lemma_spell_one(cps: Seq<u32>)
    requires
        cps.len() == 1,
    ensures
        spell(cps) == scalar_bytes(cps[0]),
{
    assert(cps.drop_first() =~= seq![]);
    reveal_with_fuel(spell, 2);
    assert(spell(cps) =~= scalar_bytes(cps[0]));
}

/// Whether tokens carry no affixes.
pub open spec fn bare(toks: Seq<Tok>) -> bool {
    forall|i: int| 0 <= i < toks.len() ==> (#[trigger] toks[i]).prefix == 0 && toks[i].suffix == 0
}

proof fn lemma_bare_syms(syms: Seq<u32>)
    ensures
        bare(all_sym_toks(syms)),
    decreases syms.len(),
{
    if syms.len() > 0 {
        lemma_bare_syms(syms.skip(1));
    }
}

impl Tables {
    proof fn lemma_bare_chars(self, cps: Seq<u32>)
        ensures
            bare(self.all_char_toks(cps)),
        decreases cps.len(),
    {
        if cps.len() > 0 {
            self.lemma_bare_chars(cps.skip(1));
        }
    }

    proof fn lemma_bare_pieces(self, cps: Seq<u32>, syms: Seq<u32>, lens: Seq<nat>)
        ensures
            bare(self.pieces_toks(cps, syms, lens)),
        decreases syms.len(),
    {
        if syms.len() > 0 {
            let l = lens[0] as int;
            self.lemma_bare_chars(cps.take(l));
            self.lemma_bare_pieces(cps.skip(l), syms.skip(1), lens.skip(1));
        }
    }

    proof fn lemma_bare_segment(self, cps: Seq<u32>)
        ensures
            bare(self.segment_toks(cps)),
    {
        if self.fold_case || self.fold_han {
            let syms = self.syms(self.norms(cps));
            self.lemma_bare_pieces(cps, self.bpe(syms), self.bpe_lens(syms, ones(cps.len())));
        } else {
            lemma_bare_syms(self.bpe(self.syms(cps)));
        }
    }

    proof fn lemma_bare_camel(self, cps: Seq<u32>, start: int)
        ensures
            bare(self.camel_toks(cps, start)),
        decreases cps.len() - start,
    {
        let end = next_cut(self.cp_classes(cps), start + 1);
        if start < end < cps.len() {
            self.lemma_bare_segment(cps.subrange(start, end));
            self.lemma_bare_camel(cps, end);
        } else {
            self.lemma_bare_segment(cps.skip(start));
        }
    }

    pub proof fn lemma_bare_word(self, cps: Seq<u32>)
        ensures
            bare(self.word_toks(cps)),
    {
        self.lemma_bare_camel(cps, 0);
        self.lemma_bare_segment(cps);
    }

    /// A suffix on the last token decodes to its bytes at the end.
    proof fn lemma_says_suffix(
        self,
        spelling: Map<u32, Seq<u32>>,
        toks: Seq<Tok>,
        bytes: Seq<u8>,
        suffix: u32,
    )
        requires
            self.faithful(spelling),
            toks.len() > 0,
            self.says(toks, bytes),
            toks.last().suffix == 0,
            suffix < self.dec_suffix.len(),
        ensures
            self.says(
                toks.update(toks.len() - 1, Tok { suffix, ..toks.last() }),
                bytes + self.dec_suffix[suffix as int],
            ),
        decreases toks.len(),
    {
        let (head, tail) = self.lemma_says_split(toks, bytes);
        let first = toks[0];
        let rest = toks.skip(1);
        let last = Tok { suffix, ..toks.last() };
        let now = toks.update(toks.len() - 1, last);
        let end = self.dec_suffix[suffix as int];
        assert(small_ids(first));
        if toks.len() == 1 {
            assert(rest =~= seq![]);
            self.lemma_says_nothing();
            let p = self.dec_prefix[first.prefix as int];
            let c = self.dec_core[first.variation as int][first.core as int];
            assert(head =~= p + c);
            assert(p + c + end =~= bytes + end);
            self.lemma_says_first(last, seq![], bytes + end, seq![]);
            assert(now =~= seq![last] + seq![]);
            assert(bytes + end + seq![] =~= bytes + end);
        } else {
            self.lemma_says_suffix(spelling, rest, tail, suffix);
            let rest_now = rest.update(rest.len() - 1, last);
            assert(rest.last() == toks.last());
            self.lemma_says_first(first, rest_now, head, tail + end);
            assert(now =~= seq![first] + rest_now);
            assert(head + (tail + end) =~= bytes + end);
        }
    }

    /// A prefix on the first token decodes to its bytes at the start.
    proof fn lemma_says_prefix(
        self,
        spelling: Map<u32, Seq<u32>>,
        toks: Seq<Tok>,
        bytes: Seq<u8>,
        prefix: u32,
    )
        requires
            self.faithful(spelling),
            toks.len() > 0,
            self.says(toks, bytes),
            toks[0].prefix == 0,
            prefix < self.dec_prefix.len(),
        ensures
            self.says(
                toks.update(0, Tok { prefix, ..toks[0] }),
                self.dec_prefix[prefix as int] + bytes,
            ),
    {
        let (head, tail) = self.lemma_says_split(toks, bytes);
        let first = toks[0];
        let now = Tok { prefix, ..first };
        let start = self.dec_prefix[prefix as int];
        assert(small_ids(first));
        let c = self.dec_core[first.variation as int][first.core as int];
        let s = self.dec_suffix[first.suffix as int];
        assert(head =~= c + s);
        assert(start + c + s =~= start + head);
        self.lemma_says_first(now, toks.skip(1), start + head, tail);
        assert(toks.update(0, now) =~= seq![now] + toks.skip(1));
        assert(start + head + tail =~= start + bytes);
    }

    /// A word's tokens with affixes on them decode to the affixes around the word.
    proof fn lemma_says_tagged(
        self,
        spelling: Map<u32, Seq<u32>>,
        cps: Seq<u32>,
        prefix: u32,
        suffix: u32,
    )
        requires
            self.faithful(spelling),
            cps.len() > 0,
            forall|k: int| 0 <= k < cps.len() ==> is_scalar(#[trigger] cps[k]),
            prefix < self.dec_prefix.len(),
            suffix < self.dec_suffix.len(),
        ensures
            self.says(
                tagged(self.word_toks(cps), prefix, suffix),
                self.dec_prefix[prefix as int] + spell(cps) + self.dec_suffix[suffix as int],
            ),
    {
        let toks = self.word_toks(cps);
        self.lemma_says_word(spelling, cps);
        self.lemma_bare_word(cps);
        self.lemma_word_toks(cps);
        self.lemma_says_prefix(spelling, toks, spell(cps), prefix);
        let first = toks.update(0, Tok { prefix, ..toks[0] });
        assert(first.last().suffix == 0);
        self.lemma_says_suffix(
            spelling,
            first,
            self.dec_prefix[prefix as int] + spell(cps),
            suffix,
        );
    }

    /// The prefix that is found at the end of a text decodes to it.
    proof fn lemma_prefix_bytes(self, spelling: Map<u32, Seq<u32>>, pre: Seq<char>, k: int)
        requires
            self.faithful(spelling),
            0 <= k <= pre.len(),
        ensures
            ({
                let (p, head) = self.prefix_within(pre, k);
                &&& 0 <= head <= pre.len()
                &&& p < self.dec_prefix.len()
                &&& self.dec_prefix[p as int] == encode_utf8(pre.skip(head))
            }),
        decreases k,
    {
        let n = self.dec_prefix.len() as int;
        if k > 0 {
            let key = encode_utf8(pre.skip(pre.len() - k));
            if self.prefixes.contains_key(key) {
                lemma_affix(self.dec_prefix, n, key);
            } else {
                self.lemma_prefix_bytes(spelling, pre, k - 1);
            }
        } else {
            assert(pre.skip(pre.len() as int) =~= seq![]);
            assert(self.dec_prefix[0] =~= seq![]);
        }
    }

    /// The suffix that is found at the start of a text decodes to it.
    proof fn lemma_suffix_bytes(self, spelling: Map<u32, Seq<u32>>, suf: Seq<char>, k: int)
        requires
            self.faithful(spelling),
            0 <= k <= suf.len(),
        ensures
            ({
                let (s, tail) = self.suffix_within(suf, k);
                &&& 0 <= tail <= suf.len()
                &&& s < self.dec_suffix.len()
                &&& self.dec_suffix[s as int] == encode_utf8(suf.take(tail))
            }),
        decreases k,
    {
        let n = self.dec_suffix.len() as int;
        if k > 0 {
            let key = encode_utf8(suf.take(k));
            if self.suffixes.contains_key(key) {
                lemma_affix(self.dec_suffix, n, key);
            } else {
                self.lemma_suffix_bytes(spelling, suf, k - 1);
            }
        } else {
            assert(suf.take(0) =~= seq![]);
            assert(self.dec_suffix[0] =~= seq![]);
        }
    }

    /// A text that is not folded is restored.
    proof fn lemma_says_plain_text(self, spelling: Map<u32, Seq<u32>>, text: Seq<char>)
        requires
            self.faithful(spelling),
        ensures
            self.says(self.plain_toks(code_points(text)), encode_utf8(text)),
    {
        lemma_scalars(text);
        self.lemma_says_plain(spelling, code_points(text));
        lemma_spell_text(text);
    }

    /// A word with what stands before and after it is restored.
    proof fn lemma_says_affixed(
        self,
        spelling: Map<u32, Seq<u32>>,
        pre: Seq<char>,
        word: Seq<char>,
        suf: Seq<char>,
    )
        requires
            self.faithful(spelling),
            word.len() > 0,
        ensures
            self.says(self.affixed_toks(pre, word, suf), encode_utf8(pre + word + suf)),
    {
        let (p, head) = self.prefix_of(pre);
        let (s, tail) = self.suffix_of(suf);
        self.lemma_prefix_bytes(
            spelling,
            pre,
            if pre.len() < self.max_p {
                pre.len() as int
            } else {
                self.max_p as int
            },
        );
        self.lemma_suffix_bytes(
            spelling,
            suf,
            if suf.len() < self.max_s {
                suf.len() as int
            } else {
                self.max_s as int
            },
        );
        let before = self.plain_toks(code_points(pre.take(head)));
        let tags = tagged(self.word_toks(code_points(word)), p, s);
        let after = self.plain_toks(code_points(suf.skip(tail)));
        let a = encode_utf8(pre.take(head));
        let b = encode_utf8(pre.skip(head)) + encode_utf8(word) + encode_utf8(suf.take(tail));
        let c = encode_utf8(suf.skip(tail));
        assert(self.says(before, a)) by {
            self.lemma_says_plain_text(spelling, pre.take(head));
        }
        assert(self.says(after, c)) by {
            self.lemma_says_plain_text(spelling, suf.skip(tail));
        }
        assert(self.says(tags, b)) by {
            lemma_scalars(word);
            lemma_spell_text(word);
            self.lemma_says_tagged(spelling, code_points(word), p, s);
        }
        self.lemma_says_concat(before, tags, a, b);
        self.lemma_says_concat(before + tags, after, a + b, c);
        assert(a + b + c == encode_utf8(pre + word + suf)) by {
            lemma_affixed_bytes(pre, head, word, suf, tail);
        }
    }

    /// A unit is restored.
    proof fn lemma_says_unit(self, spelling: Map<u32, Seq<u32>>, unit: Seq<char>)
        requires
            self.faithful(spelling),
            unit.len() > 0,
            self.first_unit(unit).end == unit.len(),
        ensures
            self.says(self.unit_toks(unit), encode_utf8(unit)),
    {
        let sp = self.first_unit(unit);
        self.lemma_first_unit(unit);
        if sp.junk {
            self.lemma_says_plain_text(spelling, unit);
        } else {
            let pre = unit.take(sp.word);
            let word = unit.subrange(sp.word, sp.word_end);
            let suf = unit.skip(sp.word_end);
            self.lemma_says_affixed(spelling, pre, word, suf);
            assert(pre + word + suf =~= unit);
        }
    }

    /// Decoding undoes encoding: with faithful tables, the ids of the tokens of any text decode to
    /// the bytes of the text. The ids are below 2^31, so none is lost when they are stored as
    /// signed numbers.
    pub proof fn law_round_trip(self, spelling: Map<u32, Seq<u32>>, text: Seq<char>)
        requires
            self.faithful(spelling),
        ensures
            self.decode(rows(self.encode(text))) == Ok::<Seq<u8>, DecodeError>(encode_utf8(text)),
            forall|i: int|
                0 <= i < self.encode(text).len() ==> small_ids(#[trigger] self.encode(text)[i]),
        decreases text.len(),
    {
        self.lemma_says_text(spelling, text);
    }

    /// Decoding undoes the encoding of a segment of a word, whose tokens carry no affixes. Their ids
    /// are below 2^31.
    pub proof fn law_segment_round_trip(self, spelling: Map<u32, Seq<u32>>, cps: Seq<u32>)
        requires
            self.faithful(spelling),
            forall|k: int| 0 <= k < cps.len() ==> is_scalar(#[trigger] cps[k]),
        ensures
            self.decode(rows(self.segment_toks(cps))) == Ok::<Seq<u8>, DecodeError>(spell(cps)),
            bare(self.segment_toks(cps)),
            forall|i: int|
                0 <= i < self.segment_toks(cps).len() ==> small_ids(
                    #[trigger] self.segment_toks(cps)[i],
                ),
    {
        self.lemma_says_segment(spelling, cps);
        self.lemma_bare_segment(cps);
    }

    /// A text is restored.
    proof fn lemma_says_text(self, spelling: Map<u32, Seq<u32>>, text: Seq<char>)
        requires
            self.faithful(spelling),
        ensures
            self.says(self.encode(text), encode_utf8(text)),
        decreases text.len(),
    {
        if text.len() == 0 {
            self.lemma_says_nothing();
        } else {
            let end = self.first_unit(text).end;
            let unit = text.take(end);
            let rest = text.skip(end);
            self.lemma_first_unit(text);
            self.lemma_encode_step(text);
            self.lemma_says_unit(spelling, unit);
            self.lemma_says_text(spelling, rest);
            self.lemma_says_concat(
                self.unit_toks(unit),
                self.encode(rest),
                encode_utf8(unit),
                encode_utf8(rest),
            );
            lemma_encode_concat(unit, rest);
            assert(unit + rest =~= text);
        }
    }
}

/// The bytes of a word with what stands before and after it, each of those cut in two.
proof fn lemma_affixed_bytes(
    pre: Seq<char>,
    head: int,
    word: Seq<char>,
    suf: Seq<char>,
    tail: int,
)
    requires
        0 <= head <= pre.len(),
        0 <= tail <= suf.len(),
    ensures
        encode_utf8(pre.take(head)) + (encode_utf8(pre.skip(head)) + encode_utf8(word)
            + encode_utf8(suf.take(tail))) + encode_utf8(suf.skip(tail)) == encode_utf8(
            pre + word + suf,
        ),
{
    lemma_encode_concat(pre.take(head), pre.skip(head));
    lemma_encode_concat(suf.take(tail), suf.skip(tail));
    lemma_encode_concat(pre, word);
    lemma_encode_concat(pre + word, suf);
    assert(pre.take(head) + pre.skip(head) =~= pre);
    assert(suf.take(tail) + suf.skip(tail) =~= suf);
    assert(encode_utf8(pre.take(head)) + (encode_utf8(pre.skip(head)) + encode_utf8(word)
        + encode_utf8(suf.take(tail))) + encode_utf8(suf.skip(tail)) =~= encode_utf8(
        pre + word + suf,
    ));
}

/// An affix that has an id stands at it in the list.
proof fn lemma_affix(list: Seq<Seq<u8>>, n: int, key: Seq<u8>)
    requires
        0 <= n <= list.len(),
        n <= 0x8000_0000,
        affix_map(list, n).contains_key(key),
    ensures
        affix_map(list, n)[key] < n,
        list[affix_map(list, n)[key] as int] == key,
    decreases n,
{
    if n > 0 && !(list[n - 1].len() > 0 && list[n - 1] == key) {
        lemma_affix(list, n - 1, key);
    }
}

} // verus!
