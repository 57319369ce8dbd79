//! Texts as bytes: reading characters out of UTF-8 and writing them as byte tokens.
use crate::tok::{byte_toks, Tok, V_NONE};
use vstd::prelude::*;
use vstd::utf8::{
    decode_first_scalar, decode_utf8, encode_scalar, encode_utf8, is_scalar,
    length_of_first_scalar, pop_first_scalar, valid_first_scalar, valid_utf8,
};

verus! {

/// The code points of a text.
pub open spec fn code_points(text: Seq<char>) -> Seq<u32> {
    text.map_values(|c: char| c as u32)
}

/// The UTF-8 bytes of a code point. What is no character is written as U+FFFD.
pub open spec fn scalar_bytes(cp: u32) -> Seq<u8> {
    if is_scalar(cp) {
        encode_scalar(cp)
    } else {
        encode_scalar(0xFFFD)
    }
}

/// The UTF-8 bytes of a sequence of code points.
pub open spec fn spell(cps: Seq<u32>) -> Seq<u8>
    decreases cps.len(),
{
    if cps.len() == 0 {
        seq![]
    } else {
        scalar_bytes(cps[0]) + spell(cps.drop_first())
    }
}

/// The byte position of the character with index `k`.
pub open spec fn byte_pos(text: Seq<char>, k: int) -> int {
    encode_utf8(text.take(k)).len() as int
}

/// The bytes of two texts in a row are the bytes of the texts, in a row.
pub proof fn lemma_encode_concat(a: Seq<char>, b: Seq<char>)
    ensures
        encode_utf8(a + b) == encode_utf8(a) + encode_utf8(b),
    decreases a.len(),
{
    if a.len() == 0 {
        assert(a + b =~= b);
        assert(encode_utf8(a) + encode_utf8(b) =~= encode_utf8(b));
    } else {
        lemma_encode_concat(a.drop_first(), b);
        assert((a + b).drop_first() =~= a.drop_first() + b);
        assert(encode_utf8(a + b) =~= encode_utf8(a) + encode_utf8(b));
    }
}

/// The bytes between the positions of two characters are the bytes of the characters between.
pub proof fn lemma_byte_pos(text: Seq<char>, j: int, k: int)
    requires
        0 <= j <= k <= text.len(),
    ensures
        0 <= byte_pos(text, j) <= byte_pos(text, k) <= encode_utf8(text).len(),
        j < k ==> byte_pos(text, j) < byte_pos(text, k),
        byte_pos(text, 0) == 0,
        byte_pos(text, text.len() as int) == encode_utf8(text).len(),
        encode_utf8(text).subrange(byte_pos(text, j), byte_pos(text, k)) == encode_utf8(
            text.subrange(j, k),
        ),
        byte_pos(text, k) - byte_pos(text, j) == encode_utf8(text.subrange(j, k)).len(),
{
    let head = text.take(j);
    let mid = text.subrange(j, k);
    let tail = text.skip(k);
    assert(text =~= head + (mid + tail));
    assert(text.take(k) =~= head + mid);
    lemma_encode_concat(head, mid + tail);
    lemma_encode_concat(mid, tail);
    lemma_encode_concat(head, mid);
    assert(text.take(text.len() as int) =~= text);
    assert(encode_utf8(text).subrange(byte_pos(text, j), byte_pos(text, k)) =~= encode_utf8(mid));
    if j < k {
        assert(encode_utf8(mid).len() > 0);
    }
}

/// The bytes from the position of a character on are the bytes of the rest of the text.
pub proof fn lemma_byte_rest(text: Seq<char>, k: int)
    requires
        0 <= k <= text.len(),
    ensures
        0 <= byte_pos(text, k) <= encode_utf8(text).len(),
        encode_utf8(text).skip(byte_pos(text, k)) == encode_utf8(text.skip(k)),
        encode_utf8(text).take(byte_pos(text, k)) == encode_utf8(text.take(k)),
        k < text.len() ==> byte_pos(text, k) < encode_utf8(text).len(),
{
    lemma_byte_pos(text, k, text.len() as int);
    lemma_byte_pos(text, 0, k);
    assert(text.subrange(k, text.len() as int) =~= text.skip(k));
    assert(text.subrange(0, k) =~= text.take(k));
    let s = encode_utf8(text);
    assert(s.skip(byte_pos(text, k)) =~= s.subrange(byte_pos(text, k), s.len() as int));
    assert(s.take(byte_pos(text, k)) =~= s.subrange(0, byte_pos(text, k)));
}

/// The first character of a text that is not empty, and the bytes after it.
pub proof fn lemma_first_char(s: Seq<u8>)
    requires
        valid_utf8(s),
        s.len() > 0,
    ensures
        decode_utf8(s).len() > 0,
        valid_first_scalar(s),
        1 <= length_of_first_scalar(s) <= 4,
        length_of_first_scalar(s) <= s.len(),
        decode_first_scalar(s) == decode_utf8(s)[0] as u32,
        decode_first_scalar(s) < 0x110000,
        is_scalar(decode_first_scalar(s)),
        length_of_first_scalar(s) == byte_pos(decode_utf8(s), 1),
        valid_utf8(s.skip(length_of_first_scalar(s))),
        decode_utf8(s.skip(length_of_first_scalar(s))) == decode_utf8(s).skip(1),
{
    let text = decode_utf8(s);
    vstd::utf8::decode_utf8_encode_utf8(s);
    assert(text.len() > 0);
    vstd::utf8::encode_utf8_first_scalar(text);
    vstd::utf8::char_is_scalar(text[0]);
    assert(text.take(1).drop_first() =~= seq![]);
    reveal_with_fuel(encode_utf8, 2);
    assert(encode_utf8(text.take(1)) =~= encode_scalar(text[0] as u32));
    assert(pop_first_scalar(s) =~= s.skip(length_of_first_scalar(s)));
    assert(text.skip(1) =~= decode_utf8(pop_first_scalar(s)));
}

/// Characters and their code points have the same bytes.
pub proof fn lemma_spell_text(text: Seq<char>)
    ensures
        spell(code_points(text)) == encode_utf8(text),
    decreases text.len(),
{
    if text.len() > 0 {
        vstd::utf8::char_is_scalar(text[0]);
        lemma_spell_text(text.drop_first());
        assert(code_points(text).drop_first() =~= code_points(text.drop_first()));
    }
}

/// Characters are scalar values.
pub proof fn lemma_scalars(text: Seq<char>)
    ensures
        forall|k: int| 0 <= k < text.len() ==> is_scalar(#[trigger] code_points(text)[k]),
{
    assert forall|k: int| 0 <= k < text.len() implies is_scalar(
        #[trigger] code_points(text)[k],
    ) by {
        vstd::utf8::char_is_scalar(text[k]);
    }
}

/// The bytes of two sequences of code points in a row.
pub proof fn lemma_spell_concat(a: Seq<u32>, b: Seq<u32>)
    ensures
        spell(a + b) == spell(a) + spell(b),
    decreases a.len(),
{
    if a.len() == 0 {
        assert(a + b =~= b);
        assert(spell(a) + spell(b) =~= spell(b));
    } else {
        lemma_spell_concat(a.drop_first(), b);
        assert((a + b).drop_first() =~= a.drop_first() + b);
        assert(spell(a + b) =~= spell(a) + spell(b));
    }
}

/// The character that starts at byte `i`: its code point, and how many bytes it takes.
pub fn decode_at(s: &[u8], i: usize) -> (r: (u32, usize))
    requires
        i < s@.len(),
        valid_first_scalar(s@.skip(i as int)),
    ensures
        r.0 == decode_first_scalar(s@.skip(i as int)),
        r.1 == length_of_first_scalar(s@.skip(i as int)),
{
    let b0: u8 = s[i];
    assert(s@.skip(i as int)[0] == b0);
    if b0 < 0x80 {
        assert(b0 & 0x7F == b0) by (bit_vector)
            requires
                b0 < 0x80,
        ;
        (b0 as u32, 1)
    } else if b0 < 0xE0 {
        assert(s@.skip(i as int)[1] == s@[i + 1]);
        ((((b0 & 0x1F) as u32) << 6) | ((s[i + 1] & 0x3F) as u32), 2)
    } else if b0 < 0xF0 {
        assert(s@.skip(i as int)[1] == s@[i + 1]);
        assert(s@.skip(i as int)[2] == s@[i + 2]);
        (
            (((b0 & 0x0F) as u32) << 12) | (((s[i + 1] & 0x3F) as u32) << 6) | ((s[i + 2]
                & 0x3F) as u32),
            3,
        )
    } else {
        assert(s@.skip(i as int)[1] == s@[i + 1]);
        assert(s@.skip(i as int)[2] == s@[i + 2]);
        assert(s@.skip(i as int)[3] == s@[i + 3]);
        (
            (((b0 & 0x07) as u32) << 18) | (((s[i + 1] & 0x3F) as u32) << 12) | (((s[i + 2]
                & 0x3F) as u32) << 6) | ((s[i + 3] & 0x3F) as u32),
            4,
        )
    }
}

/// Appends the token of a single byte.
fn push_byte(b: u8, out: &mut Vec<Tok>)
    ensures
        final(out)@ == old(out)@ + byte_toks(seq![b]),
{
    out.push(Tok { variation: V_NONE, prefix: 0, core: b as u32, suffix: 0 });
    assert(out@ =~= old(out)@ + byte_toks(seq![b]));
}

/// Appends the UTF-8 bytes of a code point, one token for each byte.
pub fn push_utf8(cp: u32, out: &mut Vec<Tok>)
    ensures
        final(out)@ == old(out)@ + byte_toks(scalar_bytes(cp)),
{
    let c: u32 = if cp < 0xD800 || (0xE000 <= cp && cp < 0x110000) {
        cp
    } else {
        0xFFFD
    };
    if c < 0x80 {
        push_byte((c & 0x7F) as u8, out);
    } else if c < 0x800 {
        push_byte(0xC0 | ((c >> 6) & 0x1F) as u8, out);
        push_byte(0x80 | (c & 0x3F) as u8, out);
    } else if c < 0x10000 {
        push_byte(0xE0 | ((c >> 12) & 0x0F) as u8, out);
        push_byte(0x80 | ((c >> 6) & 0x3F) as u8, out);
        push_byte(0x80 | (c & 0x3F) as u8, out);
    } else {
        push_byte(0xF0 | ((c >> 18) & 0x7) as u8, out);
        push_byte(0x80 | ((c >> 12) & 0x3F) as u8, out);
        push_byte(0x80 | ((c >> 6) & 0x3F) as u8, out);
        push_byte(0x80 | (c & 0x3F) as u8, out);
    }
    assert(out@ =~= old(out)@ + byte_toks(scalar_bytes(cp)));
}

/// The byte positions at which characters start, and the length of the text as the last one.
pub fn char_starts(s: &[u8]) -> (v: Vec<usize>)
    requires
        valid_utf8(s@),
    ensures
        v@.len() == decode_utf8(s@).len() + 1,
        forall|k: int| 0 <= k < v@.len() ==> #[trigger] v@[k] == byte_pos(decode_utf8(s@), k),
{
    let mut v: Vec<usize> = Vec::new();
    let mut i: usize = 0;
    let ghost text = decode_utf8(s@);
    proof {
        vstd::utf8::decode_utf8_encode_utf8(s@);
        lemma_byte_pos(text, 0, 0);
        assert(s@.skip(0) =~= s@);
        assert(text.skip(0) =~= text);
    }
    while i < s.len()
        invariant
            i <= s@.len(),
            text == decode_utf8(s@),
            encode_utf8(text) == s@,
            v@.len() <= text.len(),
            i == byte_pos(text, v@.len() as int),
            valid_utf8(s@.skip(i as int)),
            decode_utf8(s@.skip(i as int)) == text.skip(v@.len() as int),
            forall|k: int| 0 <= k < v@.len() ==> #[trigger] v@[k] == byte_pos(text, k),
        decreases s@.len() - i,
    {
        let ghost rest = s@.skip(i as int);
        proof {
            lemma_first_char(rest);
            let k = v@.len() as int;
            lemma_byte_pos(text, k, k + 1);
            assert(text.subrange(k, k + 1) =~= text.skip(k).take(1));
            assert(rest.skip(length_of_first_scalar(rest)) =~= s@.skip(
                i + length_of_first_scalar(rest),
            ));
            assert(text.skip(k).skip(1) =~= text.skip(k + 1));
            assert(rest[0] == s@[i as int]);
        }
        v.push(i);
        let b: u8 = s[i];
        i = i + (if b < 0x80 {
            1
        } else if b < 0xE0 {
            2
        } else if b < 0xF0 {
            3
        } else {
            4
        });
    }
    proof {
        assert(s@.skip(i as int) =~= seq![]);
        assert(text.skip(v@.len() as int).len() == 0);
        lemma_byte_pos(text, 0, text.len() as int);
    }
    v.push(s.len());
    v
}

} // verus!
