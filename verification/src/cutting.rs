//! How a text is cut and what its units become, told by the parts of the text.
use crate::marks::lemma_kinds;
use crate::round_trip::bare;
use crate::tables::Tables;
use crate::tok::Tok;
use crate::unit::{
    lemma_find_is, lemma_run_is, span_at, tagged, word_mask, Span, C_ALNUM, C_STOP,
};
use crate::utf8::code_points;
use vstd::prelude::*;
use vstd::utf8::encode_utf8;

verus! {

/// The code points of characters.
pub open spec fn cps_of(text: Seq<char>) -> Seq<u32> {
    Seq::new(text.len(), |i: int| text[i] as u32)
}

/// The tokens of a word with a prefix on the first one and a suffix on the last one.
pub open spec fn dressed(toks: Seq<Tok>, prefix: u32, suffix: u32) -> Seq<Tok> {
    Seq::new(
        toks.len(),
        |i: int|
            Tok {
                variation: toks[i].variation,
                prefix: if i == 0 {
                    prefix
                } else {
                    0
                },
                core: toks[i].core,
                suffix: if i == toks.len() - 1 {
                    suffix
                } else {
                    0
                },
            },
    )
}

impl Tables {
    /// Whether no character is a letter or a digit.
    pub open spec fn wordless(self, text: Seq<char>) -> bool {
        forall|i: int|
            0 <= i < text.len() ==> !self.is_letter((#[trigger] text[i]) as u32) && !self.is_digit(
                text[i] as u32,
            )
    }

    /// Whether no character is a letter, a digit or white space.
    pub open spec fn punctuation(self, text: Seq<char>) -> bool {
        forall|i: int|
            0 <= i < text.len() ==> !self.is_letter((#[trigger] text[i]) as u32) && !self.is_digit(
                text[i] as u32,
            ) && !self.is_space(text[i] as u32)
    }

    /// Whether a text is a word that goes as far as it can before `rest`: letters that no letter
    /// follows, or digits that no digit follows. It goes by its first character which of the two.
    pub open spec fn word_before(self, word: Seq<char>, rest: Seq<char>) -> bool {
        &&& word.len() > 0
        &&& if self.is_letter(word[0] as u32) {
            &&& forall|i: int|
                0 <= i < word.len() ==> self.is_letter((#[trigger] word[i]) as u32)
            &&& rest.len() > 0 ==> !self.is_letter(rest[0] as u32)
        } else {
            &&& forall|i: int| 0 <= i < word.len() ==> self.is_digit((#[trigger] word[i]) as u32)
            &&& rest.len() > 0 ==> !self.is_digit(rest[0] as u32)
        }
    }

    /// Whether the punctuation `y` behind a word belongs to it, and goes as far as it can before
    /// `z`. None does if punctuation belongs to the next word.
    pub open spec fn tail_before(self, y: Seq<char>, z: Seq<char>) -> bool {
        if self.punct_to_next {
            y.len() == 0
        } else {
            &&& self.punctuation(y)
            &&& z.len() > 0 ==> self.is_letter(z[0] as u32) || self.is_digit(z[0] as u32)
                || self.is_space(z[0] as u32)
        }
    }

    /// Where the parts of a text stand, its first unit has its parts.
    proof fn lemma_span_of(self, x: Seq<char>, w: Seq<char>, y: Seq<char>, z: Seq<char>)
        requires
            self.wordless(x),
            self.word_before(w, y + z),
            self.tail_before(y, z),
        ensures
            self.first_unit(x + w + y + z) == (Span {
                word: x.len() as int,
                word_end: (x.len() + w.len()) as int,
                end: (x.len() + w.len() + y.len()) as int,
                junk: false,
            }),
    {
        let text = x + w + y + z;
        let cl = self.classes(text);
        let a = x.len() as int;
        let b = a + w.len();
        let c = b + y.len();
        assert forall|i: int| 0 <= i < cl.len() implies cl[i] == self.class(
            #[trigger] text[i] as u32,
        ) by {}
        assert forall|i: int| 0 <= i < a implies #[trigger] cl[i] & C_ALNUM == 0 by {
            assert(text[i] == x[i]);
            lemma_kinds(cl[i]);
        }
        assert(text[a] == w[0]);
        lemma_kinds(cl[a]);
        assert(cl[a] & C_ALNUM != 0) by {
            assert(self.is_letter(w[0] as u32) || self.is_digit(w[0] as u32));
        }
        lemma_find_is(cl, 0, C_ALNUM, a);
        let kind = word_mask(cl[a]);
        assert forall|i: int| a <= i < b implies #[trigger] cl[i] & kind != 0 by {
            assert(text[i] == w[i - a]);
        }
        if b < cl.len() {
            assert(text[b] == (y + z)[0]);
            assert(cl[b] & kind == 0);
        }
        lemma_run_is(cl, a, kind, b);
        if !self.punct_to_next {
            assert forall|i: int| b <= i < c implies #[trigger] cl[i] & C_STOP == 0 by {
                assert(text[i] == y[i - b]);
                lemma_kinds(cl[i]);
            }
            if c < cl.len() {
                assert(text[c] == z[0]);
                lemma_kinds(cl[c]);
            }
            lemma_find_is(cl, b, C_STOP, c);
        }
        assert(span_at(cl, 0, self.punct_to_next).end == c);
    }

    /// A text is cut behind its first word and the punctuation that belongs to it: what stands
    /// before the word, the word, and that punctuation are the first unit, and the others are
    /// those of the rest.
    pub proof fn law_cut(self, x: Seq<char>, w: Seq<char>, y: Seq<char>, z: Seq<char>)
        requires
            self.wordless(x),
            self.word_before(w, y + z),
            self.tail_before(y, z),
        ensures
            self.units(x + w + y + z) == seq![x + w + y] + self.units(z),
    {
        let text = x + w + y + z;
        let end = (x.len() + w.len() + y.len()) as int;
        self.lemma_span_of(x, w, y, z);
        assert(text.take(end) =~= x + w + y);
        assert(text.skip(end) =~= z);
    }

    /// A text without a word is one unit, and an empty one none. Its characters have the tokens
    /// that they have without folding.
    pub proof fn law_wordless(self, x: Seq<char>)
        requires
            self.wordless(x),
        ensures
            x.len() > 0 ==> self.units(x) == seq![x],
            x.len() == 0 ==> self.units(x).len() == 0,
            self.encode(x) == self.plain_toks(cps_of(x)),
    {
        let cl = self.classes(x);
        assert(cps_of(x) =~= code_points(x));
        assert forall|i: int| 0 <= i < cl.len() implies #[trigger] cl[i] & C_ALNUM == 0 by {
            assert(cl[i] == self.class(x[i] as u32));
            lemma_kinds(cl[i]);
        }
        lemma_find_is(cl, 0, C_ALNUM, cl.len() as int);
        if x.len() > 0 {
            let end = x.len() as int;
            assert(x.take(end) =~= x);
            assert(x.skip(end) =~= seq![]);
            assert(self.units(seq![]) =~= seq![]);
            assert(self.units(x) =~= seq![x]);
            self.lemma_encode_step(x);
            assert(self.encode(x) =~= self.unit_toks(x));
        } else {
            self.law_plain_tokens(cps_of(x));
            assert(self.syms(cps_of(x)) =~= seq![]);
            assert forall|i: int| !#[trigger] self.pair_at(seq![], i) by {}
            self.law_unmerged(seq![], seq![]);
            assert(self.encode(x) =~= self.plain_toks(cps_of(x)));
        }
    }

    /// Whether `p`, at the end of `h + p`, is the longest prefix of the table there that is not
    /// longer than prefixes are looked for, and `id` its id. If `p` is empty there is none, and the
    /// id is 0.
    pub open spec fn longest_prefix(self, h: Seq<char>, p: Seq<char>, id: u32) -> bool {
        &&& if p.len() == 0 {
            id == 0
        } else {
            &&& p.len() <= self.max_p
            &&& self.prefixes.contains_key(encode_utf8(p))
            &&& id == self.prefixes[encode_utf8(p)]
        }
        &&& forall|k: int|
            p.len() < k <= h.len() + p.len() && k <= self.max_p ==> !self.prefixes.contains_key(
                encode_utf8(#[trigger] (h + p).skip(h.len() + p.len() - k)),
            )
    }

    /// Whether `s`, at the start of `s + r`, is the longest suffix of the table there that is not
    /// longer than suffixes are looked for, and `id` its id. If `s` is empty there is none, and the
    /// id is 0.
    pub open spec fn longest_suffix(self, s: Seq<char>, r: Seq<char>, id: u32) -> bool {
        &&& if s.len() == 0 {
            id == 0
        } else {
            &&& s.len() <= self.max_s
            &&& self.suffixes.contains_key(encode_utf8(s))
            &&& id == self.suffixes[encode_utf8(s)]
        }
        &&& forall|k: int|
            s.len() < k <= s.len() + r.len() && k <= self.max_s ==> !self.suffixes.contains_key(
                encode_utf8(#[trigger] (s + r).take(k)),
            )
    }

    proof fn lemma_prefix_found(self, h: Seq<char>, p: Seq<char>, id: u32, k: int)
        requires
            self.longest_prefix(h, p, id),
            p.len() <= k <= h.len() + p.len(),
            k <= self.max_p,
        ensures
            self.prefix_within(h + p, k) == (id, h.len() as int),
        decreases k,
    {
        let pre = h + p;
        if k > p.len() {
            assert(!self.prefixes.contains_key(encode_utf8(pre.skip(pre.len() - k))));
            self.lemma_prefix_found(h, p, id, k - 1);
        } else {
            assert(pre.skip(h.len() as int) =~= p);
        }
    }

    proof fn lemma_suffix_found(self, s: Seq<char>, r: Seq<char>, id: u32, k: int)
        requires
            self.longest_suffix(s, r, id),
            s.len() <= k <= s.len() + r.len(),
            k <= self.max_s,
        ensures
            self.suffix_within(s + r, k) == (id, s.len() as int),
        decreases k,
    {
        let suf = s + r;
        if k > s.len() {
            assert(!self.suffixes.contains_key(encode_utf8(suf.take(k))));
            self.lemma_suffix_found(s, r, id, k - 1);
        } else {
            assert(suf.take(s.len() as int) =~= s);
        }
    }

    /// The longest prefix that ends what stands before a word is the one that is found, and how
    /// much stands before it.
    pub proof fn law_prefix_found(self, h: Seq<char>, p: Seq<char>, id: u32)
        requires
            self.longest_prefix(h, p, id),
        ensures
            self.prefix_of(h + p) == (id, h.len() as int),
    {
        let n = (h + p).len();
        self.lemma_prefix_found(
            h,
            p,
            id,
            if n < self.max_p {
                n as int
            } else {
                self.max_p as int
            },
        );
    }

    /// The longest suffix that starts what stands behind a word is the one that is found, and how
    /// long it is.
    pub proof fn law_suffix_found(self, s: Seq<char>, r: Seq<char>, id: u32)
        requires
            self.longest_suffix(s, r, id),
        ensures
            self.suffix_of(s + r) == (id, s.len() as int),
    {
        let n = (s + r).len();
        self.lemma_suffix_found(
            s,
            r,
            id,
            if n < self.max_s {
                n as int
            } else {
                self.max_s as int
            },
        );
    }

    /// What a word becomes with what stands before and behind it: before it `h` and the longest
    /// prefix `p`, behind it the longest suffix `s` and `r`. The tokens are those of `h` without
    /// folding, those of the word with the id of the prefix on the first one and the id of the
    /// suffix on the last one, and those of `r` without folding.
    pub proof fn law_affixed(
        self,
        h: Seq<char>,
        p: Seq<char>,
        prefix: u32,
        w: Seq<char>,
        s: Seq<char>,
        suffix: u32,
        r: Seq<char>,
    )
        requires
            w.len() > 0,
            self.longest_prefix(h, p, prefix),
            self.longest_suffix(s, r, suffix),
        ensures
            self.affixed_toks(h + p, w, s + r) == self.plain_toks(cps_of(h)) + dressed(
                self.word_toks(cps_of(w)),
                prefix,
                suffix,
            ) + self.plain_toks(cps_of(r)),
            self.word_toks(cps_of(w)).len() > 0,
    {
        let x = h + p;
        let y = s + r;
        self.law_prefix_found(h, p, prefix);
        self.law_suffix_found(s, r, suffix);
        assert(x.take(h.len() as int) =~= h);
        assert(y.skip(s.len() as int) =~= r);
        assert(cps_of(h) =~= code_points(h));
        assert(cps_of(w) =~= code_points(w));
        assert(cps_of(r) =~= code_points(r));
        let toks = self.word_toks(cps_of(w));
        self.lemma_word_toks(cps_of(w));
        self.lemma_bare_word(cps_of(w));
        assert(bare(toks));
        assert(tagged(toks, prefix, suffix) =~= dressed(toks, prefix, suffix));
    }

    /// What the first unit of a text becomes. Before its word stand `h` and the longest prefix
    /// `p`, behind it the longest suffix `s` and `r`, and behind the unit `z`. The tokens are those
    /// of `h` without folding, those of the word with the id of the prefix on the first one and the
    /// id of the suffix on the last one, those of `r` without folding, and those of `z`.
    pub proof fn law_encode(
        self,
        h: Seq<char>,
        p: Seq<char>,
        prefix: u32,
        w: Seq<char>,
        s: Seq<char>,
        suffix: u32,
        r: Seq<char>,
        z: Seq<char>,
    )
        requires
            self.wordless(h + p),
            self.word_before(w, s + r + z),
            self.tail_before(s + r, z),
            self.longest_prefix(h, p, prefix),
            self.longest_suffix(s, r, suffix),
        ensures
            self.encode(h + p + w + s + r + z) == self.plain_toks(cps_of(h)) + dressed(
                self.word_toks(cps_of(w)),
                prefix,
                suffix,
            ) + self.plain_toks(cps_of(r)) + self.encode(z),
            self.word_toks(cps_of(w)).len() > 0,
    {
        let x = h + p;
        let y = s + r;
        let unit = x + w + y;
        let text = h + p + w + s + r + z;
        assert(text =~= x + w + y + z);
        assert(unit =~= x + w + y + seq![]);
        assert(y + seq![] =~= y);
        self.law_cut(x, w, y, z);
        self.lemma_span_of(x, w, y, z);
        self.lemma_span_of(x, w, y, seq![]);
        assert(self.units(text).skip(1) =~= self.units(z));
        let sp = self.first_unit(unit);
        assert(unit.take(sp.word) =~= x);
        assert(unit.subrange(sp.word, sp.word_end) =~= w);
        assert(unit.skip(sp.word_end) =~= y);
        self.law_affixed(h, p, prefix, w, s, suffix, r);
        assert(self.encode(text) =~= self.unit_toks(unit) + self.encode(z));
    }
}

} // verus!
