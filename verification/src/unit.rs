//! Units: the pieces that a text is cut into, each a word with what stands before and after it.
//!
//! A unit is a run of characters that are neither letters nor digits, a word of letters and marks
//! or of digits, and the run of characters after it that are neither letters, digits nor white
//! space. What is left at the end of a text without a word is a unit too.
use crate::model::Model;
use crate::tables::Tables;
use crate::tok::{Tok, C_NUM, C_WORD};
use crate::utf8::{byte_pos, char_starts, code_points, lemma_byte_pos, lemma_first_char};
use vstd::prelude::*;
use vstd::slice::slice_subrange;
use vstd::utf8::{decode_utf8, encode_utf8, length_of_first_scalar, valid_utf8};

verus! {

/// Letters, marks and digits.
pub const C_ALNUM: u8 = 3;

/// What ends the punctuation after a word.
pub const C_STOP: u8 = 7;

/// The first index from `i` on whose class is in the mask, or the end.
pub open spec fn find(cl: Seq<u8>, i: int, mask: u8) -> int
    decreases cl.len() - i,
{
    if i >= cl.len() {
        cl.len() as int
    } else if cl[i] & mask != 0 {
        i
    } else {
        find(cl, i + 1, mask)
    }
}

/// The first index from `i` on whose class is not in the mask, or the end.
pub open spec fn run(cl: Seq<u8>, i: int, mask: u8) -> int
    decreases cl.len() - i,
{
    if i >= cl.len() {
        cl.len() as int
    } else if cl[i] & mask == 0 {
        i
    } else {
        run(cl, i + 1, mask)
    }
}

/// Where the parts of a unit are: its word, what follows the word, and the end. Junk has no word.
pub struct Span {
    pub word: int,
    pub word_end: int,
    pub end: int,
    pub junk: bool,
}

/// The kind of character that a word goes on with, by its first character.
pub open spec fn word_mask(first: u8) -> u8 {
    if first & C_WORD != 0 {
        C_WORD
    } else {
        C_NUM
    }
}

/// The unit that starts at index `a`.
pub open spec fn span_at(cl: Seq<u8>, a: int, punct_to_next: bool) -> Span {
    let word = find(cl, a, C_ALNUM);
    if word >= cl.len() {
        Span { word, word_end: word, end: word, junk: true }
    } else {
        let word_end = run(cl, word, word_mask(cl[word]));
        let end = if punct_to_next {
            word_end
        } else {
            find(cl, word_end, C_STOP)
        };
        Span { word, word_end, end, junk: false }
    }
}

pub proof fn lemma_find(cl: Seq<u8>, i: int, mask: u8)
    requires
        0 <= i <= cl.len(),
    ensures
        i <= find(cl, i, mask) <= cl.len(),
        find(cl, i, mask) < cl.len() ==> cl[find(cl, i, mask)] & mask != 0,
        forall|k: int| i <= k < find(cl, i, mask) ==> #[trigger] cl[k] & mask == 0,
    decreases cl.len() - i,
{
    if i < cl.len() && cl[i] & mask == 0 {
        lemma_find(cl, i + 1, mask);
    }
}

pub proof fn lemma_run(cl: Seq<u8>, i: int, mask: u8)
    requires
        0 <= i <= cl.len(),
    ensures
        i <= run(cl, i, mask) <= cl.len(),
        run(cl, i, mask) < cl.len() ==> cl[run(cl, i, mask)] & mask == 0,
        forall|k: int| i <= k < run(cl, i, mask) ==> #[trigger] cl[k] & mask != 0,
    decreases cl.len() - i,
{
    if i < cl.len() && cl[i] & mask != 0 {
        lemma_run(cl, i + 1, mask);
    }
}

/// The parts of a unit are in order, and a unit is not empty.
pub proof fn lemma_span(cl: Seq<u8>, a: int, punct_to_next: bool)
    requires
        0 <= a <= cl.len(),
    ensures
        ({
            let sp = span_at(cl, a, punct_to_next);
            &&& a <= sp.word <= sp.word_end <= sp.end <= cl.len()
            &&& a < cl.len() ==> a < sp.end
            &&& !sp.junk ==> sp.word < sp.word_end
            &&& sp.junk ==> sp.word == cl.len()
        }),
{
    lemma_find(cl, a, C_ALNUM);
    let word = find(cl, a, C_ALNUM);
    if word < cl.len() {
        let c = cl[word];
        assert(c & 3 != 0 ==> c & 1 != 0 || c & 2 != 0) by (bit_vector);
        lemma_run(cl, word, word_mask(c));
        lemma_find(cl, run(cl, word, word_mask(c)), C_STOP);
    }
}

/// A search is determined by what it finds.
pub proof fn lemma_find_is(cl: Seq<u8>, i: int, mask: u8, r: int)
    requires
        0 <= i <= r <= cl.len(),
        r < cl.len() ==> cl[r] & mask != 0,
        forall|k: int| i <= k < r ==> #[trigger] cl[k] & mask == 0,
    ensures
        find(cl, i, mask) == r,
{
    lemma_find(cl, i, mask);
    let f = find(cl, i, mask);
    if f < r {
        assert(cl[f] & mask == 0);
    } else if r < f {
        assert(cl[r] & mask == 0);
    }
}

/// A run is determined by where it ends.
pub proof fn lemma_run_is(cl: Seq<u8>, i: int, mask: u8, r: int)
    requires
        0 <= i <= r <= cl.len(),
        r < cl.len() ==> cl[r] & mask == 0,
        forall|k: int| i <= k < r ==> #[trigger] cl[k] & mask != 0,
    ensures
        run(cl, i, mask) == r,
{
    lemma_run(cl, i, mask);
    let f = run(cl, i, mask);
    if f < r {
        assert(cl[f] & mask != 0);
    } else if r < f {
        assert(cl[r] & mask != 0);
    }
}

/// A unit does not depend on what stands before it.
pub proof fn lemma_span_skip(cl: Seq<u8>, a: int, punct_to_next: bool)
    requires
        0 <= a <= cl.len(),
    ensures
        ({
            let sp = span_at(cl, a, punct_to_next);
            span_at(cl.skip(a), 0, punct_to_next) == (Span {
                word: sp.word - a,
                word_end: sp.word_end - a,
                end: sp.end - a,
                junk: sp.junk,
            })
        }),
{
    let sp = span_at(cl, a, punct_to_next);
    let rest = cl.skip(a);
    lemma_span(cl, a, punct_to_next);
    lemma_find(cl, a, C_ALNUM);
    assert forall|k: int| 0 <= k < sp.word - a implies #[trigger] rest[k] & C_ALNUM == 0 by {
        assert(rest[k] == cl[a + k]);
    }
    lemma_find_is(rest, 0, C_ALNUM, sp.word - a);
    if !sp.junk {
        let mask = word_mask(cl[sp.word]);
        assert(rest[sp.word - a] == cl[sp.word]);
        lemma_run(cl, sp.word, mask);
        assert forall|k: int| sp.word - a <= k < sp.word_end - a implies #[trigger] rest[k] & mask
            != 0 by {
            assert(rest[k] == cl[a + k]);
        }
        lemma_run_is(rest, sp.word - a, mask, sp.word_end - a);
        if !punct_to_next {
            lemma_find(cl, sp.word_end, C_STOP);
            assert forall|k: int| sp.word_end - a <= k < sp.end - a implies #[trigger] rest[k]
                & C_STOP == 0 by {
                assert(rest[k] == cl[a + k]);
            }
            lemma_find_is(rest, sp.word_end - a, C_STOP, sp.end - a);
        }
    }
}

/// A unit does not depend on what stands after it: cut out of its text, it has the same parts.
pub proof fn lemma_span_take(cl: Seq<u8>, punct_to_next: bool)
    ensures
        ({
            let sp = span_at(cl, 0, punct_to_next);
            span_at(cl.take(sp.end), 0, punct_to_next) == sp
        }),
{
    let sp = span_at(cl, 0, punct_to_next);
    let unit = cl.take(sp.end);
    lemma_span(cl, 0, punct_to_next);
    lemma_find(cl, 0, C_ALNUM);
    assert forall|k: int| 0 <= k < sp.word implies #[trigger] unit[k] & C_ALNUM == 0 by {
        assert(unit[k] == cl[k]);
    }
    if sp.junk {
        lemma_find_is(unit, 0, C_ALNUM, unit.len() as int);
    } else {
        lemma_find_is(unit, 0, C_ALNUM, sp.word);
        let mask = word_mask(cl[sp.word]);
        assert(unit[sp.word] == cl[sp.word]);
        lemma_run(cl, sp.word, mask);
        assert forall|k: int| sp.word <= k < sp.word_end implies #[trigger] unit[k] & mask
            != 0 by {
            assert(unit[k] == cl[k]);
        }
        lemma_run_is(unit, sp.word, mask, sp.word_end);
        if !punct_to_next {
            lemma_find(cl, sp.word_end, C_STOP);
            assert forall|k: int| sp.word_end <= k < sp.end implies #[trigger] unit[k] & C_STOP
                == 0 by {
                assert(unit[k] == cl[k]);
            }
            lemma_find_is(unit, sp.word_end, C_STOP, sp.end);
        }
    }
}

/// The tokens of a word with the prefix put on the first one and the suffix on the last one.
pub open spec fn tagged(toks: Seq<Tok>, prefix: u32, suffix: u32) -> Seq<Tok> {
    let first = toks.update(0, Tok { prefix, ..toks[0] });
    let last = toks.len() - 1;
    first.update(last, Tok { suffix, ..first[last] })
}

impl Tables {
    /// The id of the longest prefix of at most `k` characters that ends the text, and how many
    /// characters stand before it. Without one the id is 0.
    pub open spec fn prefix_within(self, pre: Seq<char>, k: int) -> (u32, int)
        decreases k,
    {
        let head = pre.len() - k;
        if k <= 0 {
            (0, pre.len() as int)
        } else if self.prefixes.contains_key(encode_utf8(pre.skip(head))) {
            (self.prefixes[encode_utf8(pre.skip(head))], head)
        } else {
            self.prefix_within(pre, k - 1)
        }
    }

    /// The longest prefix of the table that ends the text.
    pub open spec fn prefix_of(self, pre: Seq<char>) -> (u32, int) {
        self.prefix_within(
            pre,
            if pre.len() < self.max_p {
                pre.len() as int
            } else {
                self.max_p as int
            },
        )
    }

    /// The id of the longest suffix of at most `k` characters that starts the text, and how many
    /// characters it has. Without one the id is 0.
    pub open spec fn suffix_within(self, suf: Seq<char>, k: int) -> (u32, int)
        decreases k,
    {
        if k <= 0 {
            (0, 0)
        } else if self.suffixes.contains_key(encode_utf8(suf.take(k))) {
            (self.suffixes[encode_utf8(suf.take(k))], k)
        } else {
            self.suffix_within(suf, k - 1)
        }
    }

    /// The longest suffix of the table that starts the text.
    pub open spec fn suffix_of(self, suf: Seq<char>) -> (u32, int) {
        self.suffix_within(
            suf,
            if suf.len() < self.max_s {
                suf.len() as int
            } else {
                self.max_s as int
            },
        )
    }

    /// The tokens of a word with what stands before and after it: what no prefix covers, the word
    /// with its affixes, and what no suffix covers.
    pub open spec fn affixed_toks(self, pre: Seq<char>, word: Seq<char>, suf: Seq<char>) -> Seq<
        Tok,
    > {
        let (p, head) = self.prefix_of(pre);
        let (s, tail) = self.suffix_of(suf);
        self.plain_toks(code_points(pre.take(head))) + tagged(
            self.word_toks(code_points(word)),
            p,
            s,
        ) + self.plain_toks(code_points(suf.skip(tail)))
    }

    /// The first unit of a text.
    pub open spec fn first_unit(self, text: Seq<char>) -> Span {
        span_at(self.classes(text), 0, self.punct_to_next)
    }

    /// The tokens of a text that is a single unit.
    pub open spec fn unit_toks(self, unit: Seq<char>) -> Seq<Tok> {
        let sp = self.first_unit(unit);
        if sp.junk {
            self.plain_toks(code_points(unit))
        } else {
            self.affixed_toks(
                unit.take(sp.word),
                unit.subrange(sp.word, sp.word_end),
                unit.skip(sp.word_end),
            )
        }
    }

    pub proof fn lemma_prefix_within(self, pre: Seq<char>, k: int)
        requires
            0 <= k <= pre.len(),
        ensures
            0 <= self.prefix_within(pre, k).1 <= pre.len(),
        decreases k,
    {
        if k > 0 {
            self.lemma_prefix_within(pre, k - 1);
        }
    }

    pub proof fn lemma_suffix_within(self, suf: Seq<char>, k: int)
        requires
            0 <= k <= suf.len(),
        ensures
            0 <= self.suffix_within(suf, k).1 <= suf.len(),
        decreases k,
    {
        if k > 0 {
            self.lemma_suffix_within(suf, k - 1);
        }
    }
}

/// How a part of a text lies in it.
pub proof fn lemma_text_part(s: Seq<u8>, j: int, k: int)
    requires
        valid_utf8(s),
        0 <= j <= k <= decode_utf8(s).len(),
    ensures
        ({
            let text = decode_utf8(s);
            let part = s.subrange(byte_pos(text, j), byte_pos(text, k));
            &&& 0 <= byte_pos(text, j) <= byte_pos(text, k) <= s.len()
            &&& valid_utf8(part)
            &&& part == encode_utf8(text.subrange(j, k))
            &&& decode_utf8(part) == text.subrange(j, k)
        }),
{
    let text = decode_utf8(s);
    vstd::utf8::decode_utf8_encode_utf8(s);
    lemma_byte_pos(text, j, k);
    vstd::utf8::encode_utf8_valid_utf8(text.subrange(j, k));
    vstd::utf8::encode_utf8_decode_utf8(text.subrange(j, k));
}

impl Model {
    /// The id of the longest prefix that ends the text, and how many bytes stand before it.
    pub fn longest_prefix_affix(&self, pre: &[u8]) -> (r: (u32, usize))
        requires
            valid_utf8(pre@),
        ensures
            r.0 == self@.prefix_of(decode_utf8(pre@)).0,
            0 <= self@.prefix_of(decode_utf8(pre@)).1 <= decode_utf8(pre@).len(),
            r.1 == byte_pos(decode_utf8(pre@), self@.prefix_of(decode_utf8(pre@)).1),
    {
        let st: Vec<usize> = char_starts(pre);
        let nch: usize = st.len() - 1;
        let max_p: usize = self.max_prefix();
        let mut k: usize = if nch < max_p {
            nch
        } else {
            max_p
        };
        let ghost text = decode_utf8(pre@);
        proof {
            vstd::utf8::decode_utf8_encode_utf8(pre@);
            self@.lemma_prefix_within(text, k as int);
            lemma_byte_pos(text, 0, nch as int);
        }
        while k > 0
            invariant
                valid_utf8(pre@),
                text == decode_utf8(pre@),
                encode_utf8(text) == pre@,
                nch == text.len(),
                st@.len() == nch + 1,
                k <= nch,
                forall|i: int| 0 <= i < st@.len() ==> #[trigger] st@[i] == byte_pos(text, i),
                self@.prefix_of(text) == self@.prefix_within(text, k as int),
            decreases k,
        {
            let from: usize = st[nch - k];
            proof {
                lemma_text_part(pre@, nch - k, nch as int);
                lemma_byte_pos(text, 0, nch as int);
                assert(text.subrange(nch - k, nch as int) =~= text.skip(nch - k));
            }
            if let Some(id) = self.prefix_id(slice_subrange(pre, from, pre.len())) {
                return (id, from);
            }
            k = k - 1;
        }
        (0, pre.len())
    }

    /// The id of the longest suffix that starts the text, and how many bytes it has.
    pub fn longest_suffix_affix(&self, suf: &[u8]) -> (r: (u32, usize))
        requires
            valid_utf8(suf@),
        ensures
            r.0 == self@.suffix_of(decode_utf8(suf@)).0,
            0 <= self@.suffix_of(decode_utf8(suf@)).1 <= decode_utf8(suf@).len(),
            r.1 == byte_pos(decode_utf8(suf@), self@.suffix_of(decode_utf8(suf@)).1),
    {
        let st: Vec<usize> = char_starts(suf);
        let nch: usize = st.len() - 1;
        let max_s: usize = self.max_suffix();
        let mut k: usize = if nch < max_s {
            nch
        } else {
            max_s
        };
        let ghost text = decode_utf8(suf@);
        proof {
            vstd::utf8::decode_utf8_encode_utf8(suf@);
            self@.lemma_suffix_within(text, k as int);
            lemma_byte_pos(text, 0, nch as int);
        }
        while k > 0
            invariant
                valid_utf8(suf@),
                text == decode_utf8(suf@),
                encode_utf8(text) == suf@,
                nch == text.len(),
                st@.len() == nch + 1,
                k <= nch,
                byte_pos(text, 0) == 0,
                forall|i: int| 0 <= i < st@.len() ==> #[trigger] st@[i] == byte_pos(text, i),
                self@.suffix_of(text) == self@.suffix_within(text, k as int),
            decreases k,
        {
            let to: usize = st[k];
            proof {
                lemma_text_part(suf@, 0, k as int);
                assert(text.subrange(0, k as int) =~= text.take(k as int));
            }
            if let Some(id) = self.suffix_id(slice_subrange(suf, 0, to)) {
                return (id, to);
            }
            k = k - 1;
        }
        (0, 0)
    }

    /// Appends the tokens of the unit `s[a..d]`, whose word is `s[b..c]`. Junk is encoded as it
    /// stands.
    pub fn encode_unit(
        &self,
        s: &[u8],
        a: usize,
        b: usize,
        c: usize,
        d: usize,
        junk: bool,
        out: &mut Vec<Tok>,
    )
        requires
            self.wf(),
            a <= d <= s@.len(),
            junk ==> valid_utf8(s@.subrange(a as int, d as int)),
            !junk ==> {
                &&& a <= b < c <= d
                &&& valid_utf8(s@.subrange(a as int, b as int))
                &&& valid_utf8(s@.subrange(b as int, c as int))
                &&& valid_utf8(s@.subrange(c as int, d as int))
            },
        ensures
            junk ==> final(out)@ == old(out)@ + self@.plain_toks(
                code_points(decode_utf8(s@.subrange(a as int, d as int))),
            ),
            !junk ==> final(out)@ == old(out)@ + self@.affixed_toks(
                decode_utf8(s@.subrange(a as int, b as int)),
                decode_utf8(s@.subrange(b as int, c as int)),
                decode_utf8(s@.subrange(c as int, d as int)),
            ),
    {
        if junk {
            self.core_encode(slice_subrange(s, a, d), out);
            return;
        }
        let pre: &[u8] = slice_subrange(s, a, b);
        let word: &[u8] = slice_subrange(s, b, c);
        let suf: &[u8] = slice_subrange(s, c, d);
        let (p, head) = self.longest_prefix_affix(pre);
        let (sx, tail) = self.longest_suffix_affix(suf);
        let ghost tpre = decode_utf8(pre@);
        let ghost tsuf = decode_utf8(suf@);
        let ghost h = self@.prefix_of(tpre).1;
        let ghost t = self@.suffix_of(tsuf).1;
        proof {
            lemma_text_part(pre@, 0, h);
            lemma_text_part(suf@, t, tsuf.len() as int);
            lemma_byte_pos(tpre, 0, 0);
            vstd::utf8::decode_utf8_encode_utf8(suf@);
            lemma_byte_pos(tsuf, t, tsuf.len() as int);
            assert(tpre.subrange(0, h) =~= tpre.take(h));
            assert(tsuf.subrange(t, tsuf.len() as int) =~= tsuf.skip(t));
        }
        self.core_encode(slice_subrange(pre, 0, head), out);
        let body: usize = out.len();
        let ghost out1 = out@;
        let ghost wt = self@.word_toks(code_points(decode_utf8(word@)));
        self.encode_word(word, out);
        proof {
            lemma_has_chars(word@);
            self@.lemma_word_toks(code_points(decode_utf8(word@)));
        }
        let first: Tok = out[body];
        out[body] = Tok {
            variation: first.variation,
            prefix: p,
            core: first.core,
            suffix: first.suffix,
        };
        let last: usize = out.len() - 1;
        let end: Tok = out[last];
        out[last] = Tok {
            variation: end.variation,
            prefix: end.prefix,
            core: end.core,
            suffix: sx,
        };
        assert(out@ =~= out1 + tagged(wt, p, sx));
        self.core_encode(slice_subrange(suf, tail, suf.len()), out);
        assert(out@ =~= old(out)@ + self@.affixed_toks(tpre, decode_utf8(word@), tsuf));
    }
}

/// Bytes that are text have characters.
pub proof fn lemma_has_chars(s: Seq<u8>)
    requires
        valid_utf8(s),
        s.len() > 0,
    ensures
        decode_utf8(s).len() > 0,
{
    lemma_first_char(s);
}

/// Searching a rest is searching from an index on.
pub proof fn lemma_find_skip(cl: Seq<u8>, k: int, mask: u8)
    requires
        0 <= k <= cl.len(),
    ensures
        find(cl.skip(k), 0, mask) + k == find(cl, k, mask),
{
    let f = find(cl, k, mask);
    lemma_find(cl, k, mask);
    assert forall|j: int| 0 <= j < f - k implies #[trigger] cl.skip(k)[j] & mask == 0 by {
        assert(cl.skip(k)[j] == cl[k + j]);
    }
    lemma_find_is(cl.skip(k), 0, mask, f - k);
}

/// A run at the start of a rest is a run from an index on.
pub proof fn lemma_run_skip(cl: Seq<u8>, k: int, mask: u8)
    requires
        0 <= k <= cl.len(),
    ensures
        run(cl.skip(k), 0, mask) + k == run(cl, k, mask),
{
    let f = run(cl, k, mask);
    lemma_run(cl, k, mask);
    assert forall|j: int| 0 <= j < f - k implies #[trigger] cl.skip(k)[j] & mask != 0 by {
        assert(cl.skip(k)[j] == cl[k + j]);
    }
    lemma_run_is(cl.skip(k), 0, mask, f - k);
}

/// Byte positions in a rest.
pub proof fn lemma_byte_pos_skip(text: Seq<char>, k: int, j: int)
    requires
        0 <= k,
        0 <= j,
        k + j <= text.len(),
    ensures
        byte_pos(text, k + j) == byte_pos(text, k) + byte_pos(text.skip(k), j),
{
    lemma_byte_pos(text, k, k + j);
    assert(text.subrange(k, k + j) =~= text.skip(k).take(j));
}

/// A reader at byte `p` of a text, behind `k` of its characters.
pub open spec fn reads(s: Seq<u8>, i: int, text: Seq<char>, p: int, k: int) -> bool {
    &&& 0 <= i <= p <= s.len()
    &&& 0 <= k <= text.len()
    &&& p == i + byte_pos(text, k)
    &&& valid_utf8(s.skip(p))
    &&& decode_utf8(s.skip(p)) == text.skip(k)
}

/// Readers in a row.
pub proof fn lemma_reads_on(s: Seq<u8>, i: int, text: Seq<char>, p: int, k: int, q: int, j: int)
    requires
        reads(s, i, text, p, k),
        reads(s, p, text.skip(k), q, j),
    ensures
        reads(s, i, text, q, k + j),
{
    lemma_byte_pos_skip(text, k, j);
    assert(text.skip(k).skip(j) =~= text.skip(k + j));
}

/// A reader at a character can read the character.
pub proof fn lemma_reads_next(s: Seq<u8>, i: int, text: Seq<char>, p: int, k: int)
    requires
        reads(s, i, text, p, k),
        p < s.len(),
    ensures
        k < text.len(),
        vstd::utf8::valid_first_scalar(s.skip(p)),
        vstd::utf8::decode_first_scalar(s.skip(p)) == text[k] as u32,
        1 <= length_of_first_scalar(s.skip(p)) <= 4,
        p + length_of_first_scalar(s.skip(p)) <= s.len(),
        reads(s, i, text, p + length_of_first_scalar(s.skip(p)), k + 1),
{
    let rest = s.skip(p);
    let l = length_of_first_scalar(rest);
    lemma_first_char(rest);
    assert(text.skip(k)[0] == text[k]);
    lemma_byte_pos_skip(text, k, 1);
    assert(rest.skip(l) =~= s.skip(p + l));
    assert(text.skip(k).skip(1) =~= text.skip(k + 1));
}

/// A reader at the start of a text.
pub proof fn lemma_reads_start(s: Seq<u8>, i: int)
    requires
        0 <= i <= s.len(),
        valid_utf8(s.skip(i)),
    ensures
        reads(s, i, decode_utf8(s.skip(i)), i, 0),
{
    let text = decode_utf8(s.skip(i));
    lemma_byte_pos(text, 0, 0);
    assert(text.skip(0) =~= text);
}

/// A reader at the end has read everything, and one that has read everything is at the end.
pub proof fn lemma_reads_end(s: Seq<u8>, i: int, text: Seq<char>, p: int, k: int)
    requires
        reads(s, i, text, p, k),
    ensures
        p == s.len() <==> k == text.len(),
{
    if p == s.len() {
        assert(s.skip(p) =~= seq![]);
        assert(text.skip(k).len() == 0);
    } else {
        lemma_reads_next(s, i, text, p, k);
    }
}

impl Model {
    /// The position of the first character from byte `i` on whose class is in the mask.
    fn find_from(&self, s: &[u8], i: usize, mask: u8) -> (r: usize)
        requires
            self.wf(),
            i <= s@.len(),
            valid_utf8(s@.skip(i as int)),
        ensures
            ({
                let text = decode_utf8(s@.skip(i as int));
                reads(s@, i as int, text, r as int, find(self@.classes(text), 0, mask))
            }),
    {
        let mut p: usize = i;
        let ghost text = decode_utf8(s@.skip(i as int));
        let ghost cl = self@.classes(text);
        let ghost mut k: int = 0;
        proof {
            lemma_reads_start(s@, i as int);
        }
        while p < s.len()
            invariant
                self.wf(),
                text == decode_utf8(s@.skip(i as int)),
                cl == self@.classes(text),
                reads(s@, i as int, text, p as int, k),
                find(cl, 0, mask) == find(cl, k, mask),
            decreases s@.len() - p,
        {
            proof {
                lemma_reads_next(s@, i as int, text, p as int, k);
            }
            let (c, l) = self.class_at(s, p);
            assert(c == cl[k]);
            if c & mask != 0 {
                return p;
            }
            p = p + l;
            proof {
                k = k + 1;
            }
        }
        proof {
            lemma_reads_end(s@, i as int, text, p as int, k);
        }
        p
    }

    /// The position of the first character from byte `i` on whose class is not in the mask.
    fn run_from(&self, s: &[u8], i: usize, mask: u8) -> (r: usize)
        requires
            self.wf(),
            i <= s@.len(),
            valid_utf8(s@.skip(i as int)),
        ensures
            ({
                let text = decode_utf8(s@.skip(i as int));
                reads(s@, i as int, text, r as int, run(self@.classes(text), 0, mask))
            }),
    {
        let mut p: usize = i;
        let ghost text = decode_utf8(s@.skip(i as int));
        let ghost cl = self@.classes(text);
        let ghost mut k: int = 0;
        proof {
            lemma_reads_start(s@, i as int);
        }
        while p < s.len()
            invariant
                self.wf(),
                text == decode_utf8(s@.skip(i as int)),
                cl == self@.classes(text),
                reads(s@, i as int, text, p as int, k),
                run(cl, 0, mask) == run(cl, k, mask),
            decreases s@.len() - p,
        {
            proof {
                lemma_reads_next(s@, i as int, text, p as int, k);
            }
            let (c, l) = self.class_at(s, p);
            assert(c == cl[k]);
            if c & mask == 0 {
                return p;
            }
            p = p + l;
            proof {
                k = k + 1;
            }
        }
        proof {
            lemma_reads_end(s@, i as int, text, p as int, k);
        }
        p
    }
}

/// The parts of the unit that starts at byte `a`, as the tokenizer cuts its texts: the start and
/// the end of its word, its end, and whether it is junk.
pub fn parse_unit(m: &Model, s: &[u8], a: usize) -> (r: (usize, usize, usize, bool))
    requires
        m.wf(),
        a <= s@.len(),
        valid_utf8(s@.skip(a as int)),
    ensures
        ({
            let text = decode_utf8(s@.skip(a as int));
            let sp = m@.first_unit(text);
            &&& reads(s@, a as int, text, r.0 as int, sp.word)
            &&& reads(s@, a as int, text, r.1 as int, sp.word_end)
            &&& reads(s@, a as int, text, r.2 as int, sp.end)
            &&& r.3 == sp.junk
        }),
{
    let ghost text = decode_utf8(s@.skip(a as int));
    let ghost cl = m@.classes(text);
    let b: usize = m.find_from(s, a, C_ALNUM);
    let ghost kb = find(cl, 0, C_ALNUM);
    proof {
        lemma_reads_end(s@, a as int, text, b as int, kb);
    }
    if b == s.len() {
        return (b, b, b, true);
    }
    proof {
        lemma_reads_next(s@, a as int, text, b as int, kb);
    }
    let (c0, _l) = m.class_at(s, b);
    let want: u8 = if c0 & C_WORD != 0 {
        C_WORD
    } else {
        C_NUM
    };
    assert(c0 == cl[kb]);
    let c: usize = m.run_from(s, b, want);
    let ghost kc = run(cl, kb, want);
    proof {
        assert(m@.classes(text.skip(kb)) =~= cl.skip(kb));
        lemma_run_skip(cl, kb, want);
        lemma_reads_on(s@, a as int, text, b as int, kb, c as int, kc - kb);
    }
    if m.puts_punct_next() {
        return (b, c, c, false);
    }
    let d: usize = m.find_from(s, c, C_STOP);
    proof {
        let kd = find(cl, kc, C_STOP);
        assert(m@.classes(text.skip(kc)) =~= cl.skip(kc));
        lemma_find_skip(cl, kc, C_STOP);
        lemma_reads_on(s@, a as int, text, c as int, kc, d as int, kd - kc);
    }
    (b, c, d, false)
}

} // verus!
