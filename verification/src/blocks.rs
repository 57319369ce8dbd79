//! Cutting texts into units a block of sixty-four bytes at a time.
use crate::cache::Cache;
use crate::hash::{hash_key, key_hash, key_hi, key_lo, load16};
use crate::marks::{
    bit, block_starts, is_before, lemma_clear_lowest, lemma_next_start, starts_below, starts_unit,
    Before,
};
use crate::model::Model;
use crate::tables::{one_kind, Tables};
use crate::text::{emit_unit_h, is_unit, lemma_is_unit, lemma_step, scan_units};
use crate::tok::Tok;
use crate::unit::{
    find, lemma_byte_pos_skip, lemma_find, lemma_find_is, lemma_reads_end, lemma_reads_next,
    lemma_run, lemma_run_is, lemma_span, lemma_span_skip, reads, run, span_at, word_mask, C_ALNUM,
    C_STOP,
};
use crate::utf8::{byte_pos, lemma_byte_pos, lemma_byte_rest};
use vstd::prelude::*;
use vstd::slice::slice_subrange;
use vstd::utf8::{decode_utf8, encode_scalar, encode_utf8, valid_utf8};

verus! {

impl Tables {
    /// The class of each byte of a text: that of the character that the byte belongs to.
    pub open spec fn byte_classes(self, text: Seq<char>) -> Seq<u8>
        decreases text.len(),
    {
        if text.len() == 0 {
            seq![]
        } else {
            Seq::new(
                encode_scalar(text[0] as u32).len(),
                |i: int| self.class(text[0] as u32),
            ) + self.byte_classes(text.drop_first())
        }
    }

    /// There is one class for each byte.
    proof fn lemma_byte_classes_len(self, text: Seq<char>)
        ensures
            self.byte_classes(text).len() == encode_utf8(text).len(),
        decreases text.len(),
    {
        if text.len() > 0 {
            self.lemma_byte_classes_len(text.drop_first());
        }
    }

    /// The bytes of a character have its class.
    proof fn lemma_byte_class(self, text: Seq<char>, k: int, q: int)
        requires
            0 <= k < text.len(),
            byte_pos(text, k) <= q < byte_pos(text, k + 1),
        ensures
            0 <= q < self.byte_classes(text).len(),
            self.byte_classes(text)[q] == self.classes(text)[k],
        decreases text.len(),
    {
        let head = encode_scalar(text[0] as u32).len();
        self.lemma_byte_classes_len(text);
        lemma_byte_pos(text, 0, k);
        lemma_byte_pos(text, k + 1, text.len() as int);
        assert(text.take(1).drop_first() =~= seq![]);
        reveal_with_fuel(encode_utf8, 2);
        assert(byte_pos(text, 1) == head);
        assert(text.skip(1) =~= text.drop_first());
        if k > 0 {
            lemma_byte_pos_skip(text, 1, k - 1);
            lemma_byte_pos_skip(text, 1, k);
            lemma_byte_pos(text.skip(1), 0, k - 1);
            self.lemma_byte_class(text.drop_first(), k - 1, q - head);
            assert(self.classes(text.drop_first())[k - 1] == self.classes(text)[k]);
        }
    }

    /// If no code point is of two kinds, no byte is.
    proof fn lemma_byte_kinds(self, text: Seq<char>)
        requires
            self.exclusive(),
            self.cls.len() == 0x110000,
        ensures
            forall|q: int|
                0 <= q < self.byte_classes(text).len() ==> one_kind(
                    #[trigger] self.byte_classes(text)[q],
                ),
    {
        assert forall|q: int| 0 <= q < self.byte_classes(text).len() implies one_kind(
            #[trigger] self.byte_classes(text)[q],
        ) by {
            self.lemma_byte_classes_len(text);
            let k = lemma_char_of(text, q);
            self.lemma_byte_class(text, k, q);
            let cp = text[k] as u32;
            vstd::utf8::char_is_scalar(text[k]);
            assert(one_kind(self.cls[cp as int]));
        }
    }

    /// Searching the bytes is searching the characters.
    proof fn lemma_find_bytes(self, text: Seq<char>, k: int, mask: u8)
        requires
            0 <= k <= text.len(),
        ensures
            find(self.byte_classes(text), byte_pos(text, k), mask) == byte_pos(
                text,
                find(self.classes(text), k, mask),
            ),
    {
        let cl = self.classes(text);
        let bc = self.byte_classes(text);
        let f = find(cl, k, mask);
        lemma_find(cl, k, mask);
        self.lemma_byte_classes_len(text);
        lemma_byte_pos(text, k, f);
        if f < text.len() {
            lemma_byte_pos(text, f, f + 1);
            self.lemma_byte_class(text, f, byte_pos(text, f));
        } else {
            lemma_byte_pos(text, 0, f);
        }
        assert forall|q: int| byte_pos(text, k) <= q < byte_pos(text, f) implies #[trigger] bc[q]
            & mask == 0 by {
            lemma_byte_pos(text, 0, k);
            let j = lemma_char_of(text, q);
            lemma_char_between(text, k, j, f, q);
            self.lemma_byte_class(text, j, q);
            assert(cl[j] & mask == 0);
        }
        lemma_find_is(bc, byte_pos(text, k), mask, byte_pos(text, f));
    }

    /// Runs of bytes are runs of characters.
    proof fn lemma_run_bytes(self, text: Seq<char>, k: int, mask: u8)
        requires
            0 <= k <= text.len(),
        ensures
            run(self.byte_classes(text), byte_pos(text, k), mask) == byte_pos(
                text,
                run(self.classes(text), k, mask),
            ),
    {
        let cl = self.classes(text);
        let bc = self.byte_classes(text);
        let f = run(cl, k, mask);
        lemma_run(cl, k, mask);
        self.lemma_byte_classes_len(text);
        lemma_byte_pos(text, k, f);
        if f < text.len() {
            lemma_byte_pos(text, f, f + 1);
            self.lemma_byte_class(text, f, byte_pos(text, f));
        } else {
            lemma_byte_pos(text, 0, f);
        }
        assert forall|q: int| byte_pos(text, k) <= q < byte_pos(text, f) implies #[trigger] bc[q]
            & mask != 0 by {
            lemma_byte_pos(text, 0, k);
            let j = lemma_char_of(text, q);
            lemma_char_between(text, k, j, f, q);
            self.lemma_byte_class(text, j, q);
            assert(cl[j] & mask != 0);
        }
        lemma_run_is(bc, byte_pos(text, k), mask, byte_pos(text, f));
    }

    /// The units of the bytes are the units of the characters.
    proof fn lemma_span_bytes(self, text: Seq<char>, k: int, punct_to_next: bool)
        requires
            0 <= k <= text.len(),
        ensures
            span_at(self.byte_classes(text), byte_pos(text, k), punct_to_next).end == byte_pos(
                text,
                span_at(self.classes(text), k, punct_to_next).end,
            ),
    {
        let cl = self.classes(text);
        let bc = self.byte_classes(text);
        let sp = span_at(cl, k, punct_to_next);
        lemma_span(cl, k, punct_to_next);
        self.lemma_byte_classes_len(text);
        self.lemma_find_bytes(text, k, C_ALNUM);
        lemma_byte_pos(text, 0, sp.word);
        if !sp.junk {
            lemma_byte_pos(text, sp.word, sp.word + 1);
            self.lemma_byte_class(text, sp.word, byte_pos(text, sp.word));
            self.lemma_run_bytes(text, sp.word, word_mask(cl[sp.word]));
            self.lemma_find_bytes(text, sp.word_end, C_STOP);
        }
    }
}

/// The character that a byte belongs to.
proof fn lemma_char_of(text: Seq<char>, q: int) -> (k: int)
    requires
        0 <= q < encode_utf8(text).len(),
    ensures
        0 <= k < text.len(),
        byte_pos(text, k) <= q < byte_pos(text, k + 1),
    decreases text.len(),
{
    let n = text.len() as int;
    lemma_byte_pos(text, n, n);
    if n == 0 {
        assert(false);
        0
    } else if byte_pos(text, n - 1) <= q {
        n - 1
    } else {
        let head = text.take(n - 1);
        let k = lemma_char_of(head, q);
        assert(head.take(k) =~= text.take(k));
        assert(head.take(k + 1) =~= text.take(k + 1));
        k
    }
}

/// A byte between two characters belongs to a character between them.
proof fn lemma_char_between(text: Seq<char>, k: int, j: int, f: int, q: int)
    requires
        0 <= k <= f <= text.len(),
        0 <= j < text.len(),
        byte_pos(text, j) <= q < byte_pos(text, j + 1),
        byte_pos(text, k) <= q < byte_pos(text, f),
    ensures
        k <= j < f,
{
    if j < k {
        lemma_byte_pos(text, j + 1, k);
    }
    if j >= f {
        lemma_byte_pos(text, f, j);
    }
}

/// What a block leaves for the next one of the character at its end: how many of its bytes are
/// left, and their class.
#[derive(Clone, Copy)]
struct Carry {
    class: u8,
    left: usize,
}

/// Whether what is left of a character at byte `pos` is as the carry says, up to the start of the
/// character with index `k`.
spec fn carries(t: Tables, s: Seq<u8>, pos: int, c: Carry, k: int) -> bool {
    &&& reads(s, 0, decode_utf8(s), pos + c.left, k)
    &&& forall|q: int|
        pos <= q < pos + c.left ==> #[trigger] t.byte_classes(decode_utf8(s))[q] == c.class
}

impl Model {
    /// The classes of the next `len` bytes of a text, and what they leave for the next block.
    fn class_block(&self, s: &[u8], pos: usize, len: usize, carry: Carry, k: Ghost<int>) -> (r: (
        Vec<u8>,
        Carry,
        Ghost<int>,
    ))
        requires
            self.wf(),
            valid_utf8(s@),
            pos + len <= s@.len(),
            carries(self@, s@, pos as int, carry, k@),
        ensures
            pos + len <= self@.byte_classes(decode_utf8(s@)).len(),
            r.0@ == self@.byte_classes(decode_utf8(s@)).subrange(pos as int, pos + len),
            carries(self@, s@, pos + len, r.1, r.2@),
    {
        let n: usize = s.len();
        let mut block: Vec<u8> = Vec::new();
        let mut class: u8 = carry.class;
        let mut left: usize = carry.left;
        let ghost text = decode_utf8(s@);
        let ghost bc = self@.byte_classes(text);
        let ghost mut kk: int = k@;
        proof {
            vstd::utf8::decode_utf8_encode_utf8(s@);
            self@.lemma_byte_classes_len(text);
        }
        while block.len() < len
            invariant
                self.wf(),
                valid_utf8(s@),
                text == decode_utf8(s@),
                bc == self@.byte_classes(text),
                n == bc.len() == s@.len(),
                block@.len() <= len,
                pos + len <= n,
                block@ == bc.subrange(pos as int, pos + block@.len()),
                carries(self@, s@, pos + block@.len(), Carry { class, left }, kk),
            decreases len - block@.len(),
        {
            let ghost block0 = block@;
            let p: usize = pos + block.len();
            if left > 0 {
                assert(bc[p as int] == class);
                block.push(class);
                left = left - 1;
            } else {
                proof {
                    lemma_reads_next(s@, 0, text, p as int, kk);
                }
                let (c, l) = self.class_at(s, p);
                proof {
                    assert(c == self@.classes(text)[kk]);
                    assert forall|q: int| p <= q < p + l implies #[trigger] bc[q] == c by {
                        self@.lemma_byte_class(text, kk, q);
                    }
                    kk = kk + 1;
                }
                assert(bc[p as int] == c);
                block.push(c);
                class = c;
                left = l - 1;
            }
            assert(block@ =~= bc.subrange(pos as int, pos + block@.len())) by {
                assert(block@ =~= block0.push(bc[p as int]));
            }
        }
        (block, Carry { class, left }, Ghost(kk))
    }
}

/// A unit of a text: its bytes are `a..d`, the first sixteen are `lo` and `hi`, and its hash is
/// `h`.
#[derive(Clone, Copy)]
struct Unit {
    a: u32,
    d: u32,
    lo: u64,
    hi: u64,
    h: u64,
}

/// Whether a unit of a text is described as it is.
spec fn described(t: Tables, s: Seq<u8>, u: Unit) -> bool {
    &&& u.a < u.d
    &&& is_unit(t, s, u.a as int, u.d as int)
    &&& u.lo == key_lo(s.subrange(u.a as int, u.d as int))
    &&& u.hi == key_hi(s.subrange(u.a as int, u.d as int))
    &&& u.h == key_hash(s.subrange(u.a as int, u.d as int))
}

/// Whether units are those of a text up to byte `end`, in order.
spec fn listed(t: Tables, s: Seq<u8>, units: Seq<Unit>, end: int) -> bool {
    &&& forall|j: int| 0 <= j < units.len() ==> described(t, s, #[trigger] units[j])
    &&& forall|i: int, j: int|
        #![trigger units[i], units[j]]
        0 <= i < units.len() && j == i + 1 && j < units.len() ==> units[j].a == units[i].d
    &&& units.len() > 0 ==> units[0].a == 0
    &&& end == (if units.len() == 0 {
        0
    } else {
        units.last().d as int
    })
}

/// Lists one more unit.
fn push_unit(t: Ghost<Tables>, s: &[u8], a: usize, d: usize, units: &mut Vec<Unit>)
    requires
        s@.len() < u32::MAX,
        a < d,
        is_unit(t@, s@, a as int, d as int),
        listed(t@, s@, old(units)@, a as int),
    ensures
        listed(t@, s@, final(units)@, d as int),
{
    proof {
        lemma_is_unit(t@, s@, a as int, d as int);
    }
    let key: &[u8] = slice_subrange(s, a, d);
    let (lo, hi) = load16(key);
    let h: u64 = hash_key(key, lo, hi);
    units.push(Unit { a: a as u32, d: d as u32, lo, hi, h });
}

/// What reaches from a start to the next one is a unit.
proof fn lemma_unit_found(t: Tables, s: Seq<u8>, a: int, k: int, d: int) -> (end: int)
    requires
        t.exclusive(),
        t.cls.len() == 0x110000,
        valid_utf8(s),
        reads(s, 0, decode_utf8(s), a, k),
        a < d <= s.len(),
        a == 0 || starts_unit(t.byte_classes(decode_utf8(s)), a, t.punct_to_next),
        d == s.len() || starts_unit(t.byte_classes(decode_utf8(s)), d, t.punct_to_next),
        forall|q: int|
            a < q < d ==> !starts_unit(t.byte_classes(decode_utf8(s)), q, t.punct_to_next),
    ensures
        is_unit(t, s, a, d),
        reads(s, 0, decode_utf8(s), d, end),
{
    let text = decode_utf8(s);
    let bc = t.byte_classes(text);
    let cl = t.classes(text);
    let rest = text.skip(k);
    vstd::utf8::decode_utf8_encode_utf8(s);
    t.lemma_byte_classes_len(text);
    t.lemma_byte_kinds(text);
    lemma_next_start(bc, a, t.punct_to_next);
    t.lemma_span_bytes(text, k, t.punct_to_next);
    let end = span_at(cl, k, t.punct_to_next).end;
    lemma_span(cl, k, t.punct_to_next);
    lemma_span_skip(cl, k, t.punct_to_next);
    assert(t.classes(rest) =~= cl.skip(k));
    assert(byte_pos(text, end) == d);
    lemma_reads_at(s, end);
    lemma_byte_pos_skip(text, k, end - k);
    assert(rest.skip(end - k) =~= text.skip(end));
    end
}

/// A reader can stand at any character.
proof fn lemma_reads_at(s: Seq<u8>, k: int)
    requires
        valid_utf8(s),
        0 <= k <= decode_utf8(s).len(),
    ensures
        reads(s, 0, decode_utf8(s), byte_pos(decode_utf8(s), k), k),
{
    let text = decode_utf8(s);
    vstd::utf8::decode_utf8_encode_utf8(s);
    lemma_byte_rest(text, k);
    vstd::utf8::encode_utf8_valid_utf8(text.skip(k));
    vstd::utf8::encode_utf8_decode_utf8(text.skip(k));
}

/// The units of a text, found a block at a time.
fn find_units(m: &Model, s: &[u8]) -> (units: Vec<Unit>)
    requires
        m.wf(),
        m@.exclusive(),
        valid_utf8(s@),
        s@.len() < u32::MAX,
    ensures
        listed(m@, s@, units@, s@.len() as int),
{
    let n: usize = s.len();
    let punct_to_next: bool = m.puts_punct_next();
    let mut units: Vec<Unit> = Vec::new();
    let mut before = Before { word: 0, num: 0, inner: 0 };
    let mut carry = Carry { class: 0, left: 0 };
    let mut ustart: usize = 0;
    let mut pos: usize = 0;
    let ghost text = decode_utf8(s@);
    let ghost bc = m@.byte_classes(text);
    let ghost mut ku: int = 0;
    let mut kc: Ghost<int> = Ghost(0);
    proof {
        vstd::utf8::decode_utf8_encode_utf8(s@);
        m@.lemma_byte_classes_len(text);
        m.lemma_wf();
        lemma_reads_at(s@, 0);
        lemma_byte_pos(text, 0, 0);
    }
    while pos < n
        invariant
            m.wf(),
            m@.exclusive(),
            m@.cls.len() == 0x110000,
            valid_utf8(s@),
            n == s@.len() < u32::MAX,
            punct_to_next == m@.punct_to_next,
            text == decode_utf8(s@),
            bc == m@.byte_classes(text),
            bc.len() == n,
            pos <= n,
            ustart < pos || pos == 0 == ustart,
            carries(m@, s@, pos as int, carry, kc@),
            pos < n ==> is_before(before, bc, pos as int, punct_to_next),
            reads(s@, 0, text, ustart as int, ku),
            ustart == 0 || starts_unit(bc, ustart as int, punct_to_next),
            forall|q: int| ustart < q < pos ==> !starts_unit(bc, q, punct_to_next),
            listed(m@, s@, units@, ustart as int),
        decreases n - pos,
    {
        let len: usize = if n - pos < 64 {
            n - pos
        } else {
            64
        };
        let (block, next_carry, next_k) = m.class_block(s, pos, len, carry, kc);
        let (starts, next) = block_starts(
            &block,
            before,
            punct_to_next,
            Ghost(bc),
            Ghost(pos as int),
        );
        let mut bnd: u64 = starts;
        assert(!starts_unit(bc, 0, punct_to_next));
        while bnd != 0
            invariant
                m.wf(),
                m@.exclusive(),
                m@.cls.len() == 0x110000,
                valid_utf8(s@),
                n == s@.len() < u32::MAX,
                punct_to_next == m@.punct_to_next,
                text == decode_utf8(s@),
                bc == m@.byte_classes(text),
                bc.len() == n,
                0 < len <= 64,
                pos + len <= n,
                ustart < pos + len,
                reads(s@, 0, text, ustart as int, ku),
                ustart == 0 || starts_unit(bc, ustart as int, punct_to_next),
                forall|q: int| ustart < q < pos ==> !starts_unit(bc, q, punct_to_next),
                forall|i: u64|
                    i < 64 ==> #[trigger] bit(bnd, i) == (i < len && ustart < pos + i
                        && starts_unit(bc, pos + i, punct_to_next)),
                listed(m@, s@, units@, ustart as int),
            decreases bnd,
        {
            let low: u64 = bnd.trailing_zeros() as u64;
            let ghost bnd0 = bnd;
            assert(bit(bnd, low));
            let q: usize = pos + low as usize;
            proof {
                assert forall|x: int| ustart < x < q implies !starts_unit(bc, x, punct_to_next) by {
                    if x >= pos {
                        let i = (x - pos) as u64;
                        assert(!bit(bnd, i));
                    }
                }
                ku = lemma_unit_found(m@, s@, ustart as int, ku, q as int);
            }
            push_unit(Ghost(m@), s, ustart, q, &mut units);
            ustart = q;
            bnd = bnd & (bnd - 1);
            proof {
                assert forall|i: u64| i < 64 implies #[trigger] bit(bnd, i) == (i < len && ustart
                    < pos + i && starts_unit(bc, pos + i, punct_to_next)) by {
                    lemma_clear_lowest(bnd0, low, i);
                    assert(bit(bnd0, i) ==> i >= low);
                }
                lemma_clear_lowest(bnd0, low, low);
            }
        }
        proof {
            assert forall|q: int| ustart < q < pos + len implies !starts_unit(
                bc,
                q,
                punct_to_next,
            ) by {
                if q >= pos {
                    let i = (q - pos) as u64;
                    crate::marks::lemma_bit_zero(i);
                    assert(!bit(bnd, i));
                }
            }
        }
        pos = pos + len;
        before = next;
        carry = next_carry;
        kc = next_k;
    }
    if ustart < n {
        proof {
            ku = lemma_unit_found(m@, s@, ustart as int, ku, n as int);
        }
        push_unit(Ghost(m@), s, ustart, n, &mut units);
    }
    units
}

/// Appends the tokens of a text, a block at a time: first all units are found and hashed, then
/// their tokens are looked up.
pub fn encode_text_blocks(m: &Model, s: &[u8], cache: &mut Cache, out: &mut Vec<Tok>)
    requires
        m.wf(),
        m@.exclusive(),
        old(cache).wf(),
        m@.owns(old(cache)@),
        valid_utf8(s@),
        s@.len() < u32::MAX,
    ensures
        final(cache).wf(),
        m@.owns(final(cache)@),
        final(cache)@ == m@.all_looked_up(old(cache)@, m@.units(decode_utf8(s@))),
        final(out)@ == old(out)@ + m@.encode(decode_utf8(s@)),
{
    let units: Vec<Unit> = find_units(m, s);
    let mut j: usize = 0;
    let ghost text = decode_utf8(s@);
    let ghost mut k: int = 0;
    let ghost out0 = out@;
    let ghost cache0 = cache@;
    let ghost mut a: int = 0;
    proof {
        lemma_reads_at(s@, 0);
        lemma_byte_pos(text, 0, 0);
        assert(text.skip(0) =~= text);
    }
    while j < units.len()
        invariant
            m.wf(),
            cache.wf(),
            m@.owns(cache@),
            listed(m@, s@, units@, s@.len() as int),
            j <= units@.len(),
            a == (if j == 0 {
                0
            } else {
                units@[j - 1].d as int
            }),
            reads(s@, 0, text, a, k),
            out0 + m@.encode(text) == out@ + m@.encode(text.skip(k)),
            m@.all_looked_up(cache0, m@.units(text)) == m@.all_looked_up(
                cache@,
                m@.units(text.skip(k)),
            ),
        decreases units@.len() - j,
    {
        let u: Unit = units[j];
        let ghost rest = text.skip(k);
        let ghost end = m@.first_unit(rest).end;
        let ghost out1 = out@;
        proof {
            assert(described(m@, s@, units@[j as int]));
            assert(u.a == a) by {
                if j > 0 {
                    assert(units@[j - 1].d == units@[j as int].a);
                }
            }
            lemma_is_unit(m@, s@, u.a as int, u.d as int);
            lemma_step(m@, s@, text, a, k, u.d as int, cache@);
        }
        emit_unit_h(m, s, u.a as usize, u.d as usize, u.lo, u.hi, u.h, cache, out);
        assert(out1 + (m@.unit_toks(rest.take(end)) + m@.encode(rest.skip(end))) =~= out@
            + m@.encode(rest.skip(end)));
        j = j + 1;
        proof {
            a = u.d as int;
            k = k + end;
        }
    }
    proof {
        lemma_reads_end(s@, 0, text, a, k);
        assert(text.skip(k) =~= seq![]);
        assert(m@.units(text.skip(k)) =~= seq![]);
        assert(out@ + m@.encode(text.skip(k)) =~= out@);
    }
}

/// How many units a text is cut into, found a block at a time. They are counted by their starts,
/// which are those of the units if no code point is of two kinds.
pub fn count_units(m: &Model, s: &[u8]) -> (units: usize)
    requires
        m.wf(),
        valid_utf8(s@),
    ensures
        units == m@.starts_in(decode_utf8(s@)),
        m@.exclusive() ==> units == m@.units(decode_utf8(s@)).len(),
{
    let n: usize = s.len();
    let ghost text = decode_utf8(s@);
    let ghost cl = m@.byte_classes(text);
    let mut kc: Ghost<int> = Ghost(0);
    proof {
        vstd::utf8::decode_utf8_encode_utf8(s@);
        m@.lemma_byte_classes_len(text);
        m.lemma_wf();
        lemma_reads_at(s@, 0);
        lemma_byte_pos(text, 0, 0);
        if m@.exclusive() {
            m@.lemma_starts_in(text);
        }
    }
    if n == 0 {
        return 0;
    }
    let punct_to_next: bool = m.puts_punct_next();
    let mut carry = Carry { class: 0, left: 0 };
    let mut before = Before { word: 0, num: 0, inner: 0 };
    let mut pos: usize = 0;
    let mut units: usize = 1;
    while pos < n
        invariant
            m.wf(),
            valid_utf8(s@),
            n == s@.len() == cl.len(),
            punct_to_next == m@.punct_to_next,
            text == decode_utf8(s@),
            cl == m@.byte_classes(text),
            pos <= n,
            carries(m@, s@, pos as int, carry, kc@),
            pos < n ==> is_before(before, cl, pos as int, punct_to_next),
            units == 1 + starts_below(cl, pos as int, punct_to_next),
            pos == 0 ==> units == 1,
            pos > 0 ==> units <= pos,
        decreases n - pos,
    {
        let len: usize = if n - pos < 64 {
            n - pos
        } else {
            64
        };
        let (block, next_carry, next_k) = m.class_block(s, pos, len, carry, kc);
        let (starts, next) = block_starts(
            &block,
            before,
            punct_to_next,
            Ghost(cl),
            Ghost(pos as int),
        );
        let mut bnd: u64 = starts;
        let ghost mut seen: int = pos as int;
        assert(!starts_unit(cl, 0, punct_to_next));
        while bnd != 0
            invariant
                0 < len <= 64,
                pos + len <= n,
                n == cl.len(),
                pos <= seen <= pos + len,
                forall|i: u64|
                    i < 64 ==> #[trigger] bit(bnd, i) == (i < len && seen <= pos + i && starts_unit(
                        cl,
                        pos + i,
                        punct_to_next,
                    )),
                units == 1 + starts_below(cl, seen, punct_to_next),
                seen == 0 ==> units == 1,
                seen > 0 ==> units <= seen,
                !starts_unit(cl, 0, punct_to_next),
            decreases bnd,
        {
            let ghost low: u64 = bnd.trailing_zeros() as u64;
            let ghost bnd0 = bnd;
            proof {
                lemma_clear_lowest(bnd0, low, low);
                assert(bit(bnd0, low));
                assert forall|x: int| seen <= x < pos + low implies !starts_unit(
                    cl,
                    x,
                    punct_to_next,
                ) by {
                    let i = (x - pos) as u64;
                    lemma_clear_lowest(bnd0, low, i);
                    assert(!bit(bnd0, i));
                }
                lemma_no_starts(cl, seen, pos + low, punct_to_next);
            }
            units = units + 1;
            bnd = bnd & (bnd - 1);
            proof {
                seen = pos + low + 1;
                assert forall|i: u64| i < 64 implies #[trigger] bit(bnd, i) == (i < len && seen
                    <= pos + i && starts_unit(cl, pos + i, punct_to_next)) by {
                    lemma_clear_lowest(bnd0, low, i);
                    assert(bit(bnd0, i) ==> i >= low);
                }
            }
        }
        proof {
            assert forall|x: int| seen <= x < pos + len implies !starts_unit(
                cl,
                x,
                punct_to_next,
            ) by {
                let i = (x - pos) as u64;
                crate::marks::lemma_bit_zero(i);
                assert(!bit(bnd, i));
            }
            lemma_no_starts(cl, seen, pos + len, punct_to_next);
        }
        pos = pos + len;
        before = next;
        carry = next_carry;
        kc = next_k;
    }
    units
}

/// How many units a text is cut into, found by the scan that encoding uses.
pub fn profile_units(m: &Model, s: &[u8]) -> (units: usize)
    requires
        m.wf(),
        valid_utf8(s@),
    ensures
        units == m@.units(decode_utf8(s@)).len(),
{
    if m.simd() && m.is_exclusive() {
        count_units(m, s)
    } else {
        scan_units(m, s)
    }
}

impl Tables {
    /// How many units start in a text: the first one, and those at the bytes that start a unit.
    pub open spec fn starts_in(self, text: Seq<char>) -> nat {
        if text.len() == 0 {
            0
        } else {
            1 + starts_below(
                self.byte_classes(text),
                self.byte_classes(text).len() as int,
                self.punct_to_next,
            )
        }
    }

    /// If no code point is of two kinds, as many units start as a text is cut into.
    pub proof fn lemma_starts_in(self, text: Seq<char>)
        requires
            self.cls.len() == 0x110000,
            self.exclusive(),
        ensures
            self.starts_in(text) == self.units(text).len(),
    {
        let bc = self.byte_classes(text);
        if text.len() > 0 {
            lemma_byte_pos(text, 0, 0);
            self.lemma_starts_from(text, 0);
            assert(text.skip(0) =~= text);
            assert(!starts_unit(bc, 0, self.punct_to_next));
            assert(starts_below(bc, 1, self.punct_to_next) == 0) by {
                reveal_with_fuel(starts_below, 2);
            }
        }
    }

    proof fn lemma_starts_from(self, text: Seq<char>, k: int)
        requires
            self.cls.len() == 0x110000,
            self.exclusive(),
            0 <= k < text.len(),
            k == 0 || starts_unit(
                self.byte_classes(text),
                byte_pos(text, k),
                self.punct_to_next,
            ),
        ensures
            self.units(text.skip(k)).len() == 1 + starts_below(
                self.byte_classes(text),
                self.byte_classes(text).len() as int,
                self.punct_to_next,
            ) - starts_below(self.byte_classes(text), byte_pos(text, k) + 1, self.punct_to_next),
        decreases text.len() - k,
    {
        let bc = self.byte_classes(text);
        let cl = self.classes(text);
        let a = byte_pos(text, k);
        let rest = text.skip(k);
        let end = span_at(cl, k, self.punct_to_next).end;
        let d = byte_pos(text, end);
        self.lemma_byte_classes_len(text);
        self.lemma_byte_kinds(text);
        lemma_span(cl, k, self.punct_to_next);
        lemma_span_skip(cl, k, self.punct_to_next);
        lemma_byte_pos(text, 0, k);
        lemma_byte_pos(text, k, end);
        lemma_byte_pos(text, end, text.len() as int);
        self.lemma_span_bytes(text, k, self.punct_to_next);
        lemma_next_start(bc, a, self.punct_to_next);
        assert(self.classes(rest) =~= cl.skip(k));
        assert(rest.skip(end - k) =~= text.skip(end));
        lemma_no_starts(bc, a + 1, d, self.punct_to_next);
        if end < text.len() {
            self.lemma_starts_from(text, end);
        } else {
            assert(self.units(text.skip(end)).len() == 0);
        }
    }
}

/// Where no unit starts, there are no more starts.
proof fn lemma_no_starts(cl: Seq<u8>, i: int, j: int, punct_to_next: bool)
    requires
        0 <= i <= j,
        forall|x: int| i <= x < j ==> !starts_unit(cl, x, punct_to_next),
    ensures
        starts_below(cl, j, punct_to_next) == starts_below(cl, i, punct_to_next),
    decreases j - i,
{
    if i < j {
        lemma_no_starts(cl, i, j - 1, punct_to_next);
    }
}

} // verus!
