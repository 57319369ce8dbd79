//! Texts: cutting them into units, and the tokens of the units in a row.
//!
//! The tokens of a unit depend on its text alone, so they are looked up in a cache before they are
//! computed.
use crate::blocks::encode_text_blocks;
use crate::cache::{Cache, CacheState};
use crate::hash::{hash_key, key_hash, key_hi, key_lo, load16};
use crate::model::Model;
use crate::tables::Tables;
use crate::tok::Tok;
use crate::unit::{
    lemma_reads_end, lemma_reads_on, lemma_reads_start, lemma_span, lemma_span_take,
    lemma_text_part, parse_unit, reads,
};
use vstd::prelude::*;
use vstd::slice::slice_subrange;
use vstd::utf8::{decode_utf8, encode_utf8, valid_utf8};

verus! {

impl Tables {
    /// The units that a text is cut into, one after the other.
    pub open spec fn units(self, text: Seq<char>) -> Seq<Seq<char>>
        decreases text.len(),
    {
        if text.len() == 0 {
            seq![]
        } else {
            proof {
                lemma_span(self.classes(text), 0, self.punct_to_next);
            }
            let end = self.first_unit(text).end;
            seq![text.take(end)] + self.units(text.skip(end))
        }
    }

    /// The tokens of units in a row.
    pub open spec fn units_toks(self, units: Seq<Seq<char>>) -> Seq<Tok>
        decreases units.len(),
    {
        if units.len() == 0 {
            seq![]
        } else {
            self.unit_toks(units[0]) + self.units_toks(units.skip(1))
        }
    }

    /// The tokens of a text.
    pub open spec fn encode(self, text: Seq<char>) -> Seq<Tok> {
        self.units_toks(self.units(text))
    }

    /// A cache after a unit has been looked up in it, and offered to it if it was not there.
    pub open spec fn looked_up(self, c: CacheState, unit: Seq<char>) -> CacheState {
        if c.entries.contains_key(encode_utf8(unit)) {
            c
        } else {
            c.store(encode_utf8(unit), self.unit_toks(unit))
        }
    }

    /// A cache after units have been looked up in it, one after the other.
    pub open spec fn all_looked_up(self, c: CacheState, units: Seq<Seq<char>>) -> CacheState
        decreases units.len(),
    {
        if units.len() == 0 {
            c
        } else {
            self.all_looked_up(self.looked_up(c, units[0]), units.skip(1))
        }
    }

    /// Whether a cache belongs to this tokenizer: what it holds are the tokens of units.
    pub open spec fn owns(self, c: CacheState) -> bool {
        forall|key: Seq<u8>| #[trigger]
            c.entries.contains_key(key) ==> valid_utf8(key) && c.entries[key] == self.unit_toks(
                decode_utf8(key),
            )
    }

    /// The first unit of a text, cut out of it, has the same parts.
    pub proof fn lemma_first_unit(self, text: Seq<char>)
        ensures
            ({
                let sp = self.first_unit(text);
                &&& 0 <= sp.word <= sp.word_end <= sp.end <= text.len()
                &&& text.len() > 0 ==> sp.end > 0
                &&& !sp.junk ==> sp.word < sp.word_end
                &&& sp.junk ==> sp.word == sp.word_end == sp.end == text.len()
                &&& self.first_unit(text.take(sp.end)) == sp
            }),
    {
        let cl = self.classes(text);
        let sp = self.first_unit(text);
        lemma_span(cl, 0, self.punct_to_next);
        lemma_span_take(cl, self.punct_to_next);
        assert(self.classes(text.take(sp.end)) =~= cl.take(sp.end));
    }

    /// The units of a text that is not empty are the first unit and those of the rest.
    pub proof fn lemma_encode_step(self, text: Seq<char>)
        requires
            text.len() > 0,
        ensures
            ({
                let end = self.first_unit(text).end;
                &&& self.units(text).len() > 0
                &&& self.units(text)[0] == text.take(end)
                &&& self.units(text).skip(1) == self.units(text.skip(end))
                &&& self.encode(text) == self.unit_toks(text.take(end)) + self.encode(
                    text.skip(end),
                )
            }),
    {
        let end = self.first_unit(text).end;
        self.lemma_first_unit(text);
        assert(self.units(text).skip(1) =~= self.units(text.skip(end)));
    }

    /// Looking units up does not change whose cache it is.
    pub proof fn lemma_owns(self, c: CacheState, unit: Seq<char>)
        requires
            self.owns(c),
        ensures
            self.owns(self.looked_up(c, unit)),
    {
        vstd::utf8::encode_utf8_valid_utf8(unit);
        vstd::utf8::encode_utf8_decode_utf8(unit);
    }
}

/// Whether `s[a..d]` is the first unit of what is left of a text from byte `a` on.
pub open spec fn is_unit(t: Tables, s: Seq<u8>, a: int, d: int) -> bool {
    &&& 0 <= a <= s.len()
    &&& valid_utf8(s.skip(a))
    &&& reads(
        s,
        a,
        decode_utf8(s.skip(a)),
        d,
        t.first_unit(decode_utf8(s.skip(a))).end,
    )
}

/// The text of a unit.
pub open spec fn unit_text(t: Tables, s: Seq<u8>, a: int) -> Seq<char> {
    let text = decode_utf8(s.skip(a));
    text.take(t.first_unit(text).end)
}

/// The bytes between two characters of what is left of a text.
proof fn lemma_between(s: Seq<u8>, a: int, p: int, j: int, q: int, k: int)
    requires
        0 <= a <= s.len(),
        valid_utf8(s.skip(a)),
        reads(s, a, decode_utf8(s.skip(a)), p, j),
        reads(s, a, decode_utf8(s.skip(a)), q, k),
        j <= k,
    ensures
        a <= p <= q <= s.len(),
        valid_utf8(s.subrange(p, q)),
        decode_utf8(s.subrange(p, q)) == decode_utf8(s.skip(a)).subrange(j, k),
        s.subrange(p, q) == encode_utf8(decode_utf8(s.skip(a)).subrange(j, k)),
{
    lemma_text_part(s.skip(a), j, k);
    assert(s.skip(a).subrange(p - a, q - a) =~= s.subrange(p, q));
}

/// The bytes of a unit.
pub proof fn lemma_is_unit(t: Tables, s: Seq<u8>, a: int, d: int)
    requires
        is_unit(t, s, a, d),
    ensures
        a <= d <= s.len(),
        a < s.len() ==> a < d,
        valid_utf8(s.subrange(a, d)),
        decode_utf8(s.subrange(a, d)) == unit_text(t, s, a),
        s.subrange(a, d) == encode_utf8(unit_text(t, s, a)),
{
    let text = decode_utf8(s.skip(a));
    let end = t.first_unit(text).end;
    t.lemma_first_unit(text);
    lemma_reads_start(s, a);
    lemma_reads_end(s, a, text, a, 0);
    lemma_between(s, a, a, 0, d, end);
    assert(text.subrange(0, end) =~= text.take(end));
    if a < s.len() {
        crate::utf8::lemma_byte_pos(text, 0, end);
    }
}

/// One unit further in a text.
pub proof fn lemma_step(
    t: Tables,
    s: Seq<u8>,
    text: Seq<char>,
    a: int,
    k: int,
    d: int,
    c: CacheState,
)
    requires
        reads(s, 0, text, a, k),
        a < s.len(),
        is_unit(t, s, a, d),
    ensures
        ({
            let rest = text.skip(k);
            let end = t.first_unit(rest).end;
            &&& unit_text(t, s, a) == rest.take(end)
            &&& rest.skip(end) == text.skip(k + end)
            &&& reads(s, 0, text, d, k + end)
            &&& t.encode(rest) == t.unit_toks(rest.take(end)) + t.encode(rest.skip(end))
            &&& t.all_looked_up(c, t.units(rest)) == t.all_looked_up(
                t.looked_up(c, rest.take(end)),
                t.units(rest.skip(end)),
            )
        }),
{
    let rest = text.skip(k);
    let end = t.first_unit(rest).end;
    lemma_reads_end(s, 0, text, a, k);
    t.lemma_encode_step(rest);
    t.lemma_first_unit(rest);
    lemma_reads_on(s, 0, text, a, k, d, end);
    assert(rest.skip(end) =~= text.skip(k + end));
}

/// Appends the tokens of the unit `s[a..d]`. `lo` and `hi` are the first sixteen bytes of the
/// unit, and `h` is its hash.
pub fn emit_unit_h(
    m: &Model,
    s: &[u8],
    a: usize,
    d: usize,
    lo: u64,
    hi: u64,
    h: u64,
    cache: &mut Cache,
    out: &mut Vec<Tok>,
)
    requires
        m.wf(),
        old(cache).wf(),
        m@.owns(old(cache)@),
        is_unit(m@, s@, a as int, d as int),
        lo == key_lo(s@.subrange(a as int, d as int)),
        hi == key_hi(s@.subrange(a as int, d as int)),
        h == key_hash(s@.subrange(a as int, d as int)),
    ensures
        final(cache).wf(),
        m@.owns(final(cache)@),
        final(cache)@ == m@.looked_up(old(cache)@, unit_text(m@, s@, a as int)),
        final(out)@ == old(out)@ + m@.unit_toks(unit_text(m@, s@, a as int)),
{
    let ghost text = decode_utf8(s@.skip(a as int));
    let ghost unit = unit_text(m@, s@, a as int);
    proof {
        lemma_is_unit(m@, s@, a as int, d as int);
        m@.lemma_owns(cache@, unit);
    }
    let key: &[u8] = slice_subrange(s, a, d);
    if cache.get_emit(key, lo, hi, h, out) {
        return;
    }
    let (b, c, _e, junk) = parse_unit(m, s, a);
    proof {
        let sp = m@.first_unit(text);
        m@.lemma_first_unit(text);
        lemma_reads_start(s@, a as int);
        lemma_between(s@, a as int, a as int, 0, b as int, sp.word);
        lemma_between(s@, a as int, b as int, sp.word, c as int, sp.word_end);
        lemma_between(s@, a as int, c as int, sp.word_end, d as int, sp.end);
        if !sp.junk {
            crate::utf8::lemma_byte_pos(text, sp.word, sp.word_end);
        }
        assert(text.subrange(0, sp.word) =~= unit.take(sp.word));
        assert(text.subrange(sp.word, sp.word_end) =~= unit.subrange(sp.word, sp.word_end));
        assert(text.subrange(sp.word_end, sp.end) =~= unit.skip(sp.word_end));
    }
    let start: usize = out.len();
    m.encode_unit(s, a, b, c, d, junk, out);
    assert(out@.subrange(start as int, out@.len() as int) =~= m@.unit_toks(unit));
    cache.insert(key, lo, hi, h, slice_subrange(out.as_slice(), start, out.len()));
}

/// Appends the tokens of the unit `s[a..d]`.
pub fn emit_unit(m: &Model, s: &[u8], a: usize, d: usize, cache: &mut Cache, out: &mut Vec<Tok>)
    requires
        m.wf(),
        old(cache).wf(),
        m@.owns(old(cache)@),
        is_unit(m@, s@, a as int, d as int),
    ensures
        final(cache).wf(),
        m@.owns(final(cache)@),
        final(cache)@ == m@.looked_up(old(cache)@, unit_text(m@, s@, a as int)),
        final(out)@ == old(out)@ + m@.unit_toks(unit_text(m@, s@, a as int)),
{
    proof {
        lemma_is_unit(m@, s@, a as int, d as int);
    }
    let key: &[u8] = slice_subrange(s, a, d);
    let (lo, hi) = load16(key);
    let h: u64 = hash_key(key, lo, hi);
    emit_unit_h(m, s, a, d, lo, hi, h, cache, out);
}

/// Appends the tokens of a text, one character at a time.
pub fn encode_text_scalar(m: &Model, s: &[u8], cache: &mut Cache, out: &mut Vec<Tok>)
    requires
        m.wf(),
        old(cache).wf(),
        m@.owns(old(cache)@),
        valid_utf8(s@),
    ensures
        final(cache).wf(),
        m@.owns(final(cache)@),
        final(cache)@ == m@.all_looked_up(old(cache)@, m@.units(decode_utf8(s@))),
        final(out)@ == old(out)@ + m@.encode(decode_utf8(s@)),
{
    let mut a: usize = 0;
    let ghost text = decode_utf8(s@);
    let ghost mut k: int = 0;
    let ghost out0 = out@;
    let ghost cache0 = cache@;
    proof {
        assert(s@.skip(0) =~= s@);
        lemma_reads_start(s@, 0);
        assert(text.skip(0) =~= text);
    }
    while a < s.len()
        invariant
            m.wf(),
            cache.wf(),
            m@.owns(cache@),
            reads(s@, 0, text, a as int, k),
            out0 + m@.encode(text) == out@ + m@.encode(text.skip(k)),
            m@.all_looked_up(cache0, m@.units(text)) == m@.all_looked_up(
                cache@,
                m@.units(text.skip(k)),
            ),
        decreases s@.len() - a,
    {
        let ghost rest = text.skip(k);
        let ghost end = m@.first_unit(rest).end;
        let ghost out1 = out@;
        let (_b, _c, d, _junk) = parse_unit(m, s, a);
        proof {
            lemma_is_unit(m@, s@, a as int, d as int);
            lemma_step(m@, s@, text, a as int, k, d as int, cache@);
        }
        emit_unit(m, s, a, d, cache, out);
        assert(out1 + (m@.unit_toks(rest.take(end)) + m@.encode(rest.skip(end))) =~= out@
            + m@.encode(rest.skip(end)));
        a = d;
        proof {
            k = k + end;
        }
    }
    proof {
        lemma_reads_end(s@, 0, text, a as int, k);
        assert(text.skip(k) =~= seq![]);
        assert(m@.units(text.skip(k)) =~= seq![]);
        assert(out@ + m@.encode(text.skip(k)) =~= out@);
    }
}

/// Appends the tokens of a text.
pub fn encode_text(m: &Model, s: &[u8], cache: &mut Cache, out: &mut Vec<Tok>)
    requires
        m.wf(),
        old(cache).wf(),
        m@.owns(old(cache)@),
        valid_utf8(s@),
    ensures
        final(cache).wf(),
        m@.owns(final(cache)@),
        final(cache)@ == m@.all_looked_up(old(cache)@, m@.units(decode_utf8(s@))),
        final(out)@ == old(out)@ + m@.encode(decode_utf8(s@)),
{
    if m.simd() && m.is_exclusive() && (s.len() as u64) < 0xFFFF_FFFF {
        encode_text_blocks(m, s, cache, out);
    } else {
        encode_text_scalar(m, s, cache, out);
    }
}

/// How many units a text is cut into.
pub fn scan_units(m: &Model, s: &[u8]) -> (units: usize)
    requires
        m.wf(),
        valid_utf8(s@),
    ensures
        units == m@.units(decode_utf8(s@)).len(),
{
    let mut a: usize = 0;
    let mut units: usize = 0;
    let ghost text = decode_utf8(s@);
    let ghost mut k: int = 0;
    proof {
        assert(s@.skip(0) =~= s@);
        lemma_reads_start(s@, 0);
        assert(text.skip(0) =~= text);
    }
    while a < s.len()
        invariant
            m.wf(),
            reads(s@, 0, text, a as int, k),
            units <= a,
            m@.units(text).len() == units + m@.units(text.skip(k)).len(),
        decreases s@.len() - a,
    {
        let ghost rest = text.skip(k);
        let ghost end = m@.first_unit(rest).end;
        let (_b, _c, d, _junk) = parse_unit(m, s, a);
        proof {
            lemma_reads_end(s@, 0, text, a as int, k);
            m@.lemma_first_unit(rest);
            lemma_reads_on(s@, 0, text, a as int, k, d as int, end);
            crate::utf8::lemma_byte_pos(rest, 0, end);
            assert(rest.skip(end) =~= text.skip(k + end));
        }
        units = units + 1;
        a = d;
        proof {
            k = k + end;
        }
    }
    proof {
        lemma_reads_end(s@, 0, text, a as int, k);
    }
    units
}

/// The tokens of a text.
pub fn encode(m: &Model, text: &str, cache: &mut Cache) -> (toks: Vec<Tok>)
    requires
        m.wf(),
        old(cache).wf(),
        m@.owns(old(cache)@),
    ensures
        final(cache).wf(),
        m@.owns(final(cache)@),
        final(cache)@ == m@.all_looked_up(old(cache)@, m@.units(text@)),
        toks@ == m@.encode(text@),
{
    let mut toks: Vec<Tok> = Vec::new();
    let s: &[u8] = text.as_bytes();
    proof {
        vstd::utf8::encode_utf8_valid_utf8(text@);
        vstd::utf8::encode_utf8_decode_utf8(text@);
    }
    encode_text(m, s, cache, &mut toks);
    toks
}

} // verus!
