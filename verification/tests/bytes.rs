use cbpe_fast::hash::{hash_head, hash_key, load16, mum};
use cbpe_fast::tok::Tok;
use cbpe_fast::utf8::{char_starts, decode_at, push_utf8};

fn byte_ids(toks: &[Tok]) -> Vec<u32> {
    for t in toks {
        assert_eq!((t.variation, t.prefix, t.suffix), (0, 0, 0));
    }
    toks.iter().map(|t| t.core).collect()
}

#[test]
fn decode_at_reads_every_width() {
    let s = "a\u{e9}\u{4e2d}\u{1f600}".as_bytes();
    assert_eq!(decode_at(s, 0), (0x61, 1));
    assert_eq!(decode_at(s, 1), (0xe9, 2));
    assert_eq!(decode_at(s, 3), (0x4e2d, 3));
    assert_eq!(decode_at(s, 6), (0x1f600, 4));
}

#[test]
fn decode_at_reads_the_edges_of_each_width() {
    for c in ['\u{0}', '\u{7f}', '\u{80}', '\u{7ff}', '\u{800}', '\u{d7ff}', '\u{e000}', '\u{ffff}', '\u{10000}', '\u{10ffff}'] {
        let text = c.to_string();
        assert_eq!(decode_at(text.as_bytes(), 0), (c as u32, c.len_utf8()));
    }
}

#[test]
fn push_utf8_writes_the_bytes_of_each_width() {
    for c in ['a', '\u{7f}', '\u{80}', '\u{e9}', '\u{7ff}', '\u{800}', '\u{4e2d}', '\u{ffff}', '\u{10000}', '\u{1f600}', '\u{10ffff}'] {
        let mut out = vec![Tok { variation: 0, prefix: 0, core: 1, suffix: 0 }];
        push_utf8(c as u32, &mut out);
        let want: Vec<u32> = c.to_string().bytes().map(|b| b as u32).collect();
        assert_eq!(byte_ids(&out)[0], 1);
        assert_eq!(byte_ids(&out[1..]), want);
    }
}

#[test]
fn push_utf8_replaces_what_is_no_character() {
    for cp in [0xd800u32, 0xdfff, 0x110000, 0x7fff_ffff, u32::MAX] {
        let mut out = Vec::new();
        push_utf8(cp, &mut out);
        assert_eq!(byte_ids(&out), vec![0xef, 0xbf, 0xbd]);
    }
}

#[test]
fn char_starts_lists_positions_and_the_end() {
    assert_eq!(char_starts("".as_bytes()), vec![0]);
    assert_eq!(char_starts("ab".as_bytes()), vec![0, 1, 2]);
    assert_eq!(char_starts("a\u{e9}\u{4e2d}\u{1f600}z".as_bytes()), vec![0, 1, 3, 6, 10, 11]);
}

#[test]
fn load16_pads_with_zeros() {
    assert_eq!(load16(b""), (0, 0));
    assert_eq!(load16(b"the"), (0x656874, 0));
    assert_eq!(load16(b"01234567"), (0x3736353433323130, 0));
    assert_eq!(load16(b"0123456789"), (0x3736353433323130, 0x3938));
    assert_eq!(load16(b"0123456789abcdefXYZ"), (0x3736353433323130, 0x6665646362613938));
}

#[test]
fn mum_mixes_the_halves_of_the_product() {
    assert_eq!(mum(0, 5), 0);
    assert_eq!(mum(7, 6), 42);
    assert_eq!(mum(u64::MAX, 3), u64::MAX);
    assert_eq!(mum(0xa076_1d64_78bd_642f, 0xe703_7ed1_a0b4_28db), 0x1ff5c2923a788d2c);
}

#[test]
fn hash_key_has_its_values() {
    let keys: [(&[u8], u64); 5] = [
        (b"", 0x1ff5c2923a788d2c),
        (b"the", 0x4caf3275effe1246),
        (b"0123456789abcdef", 0xc1ffee27bae4e14c),
        (b"0123456789abcdefXYZ", 0xd6d48503a6ee995c),
        (b"0123456789abcdef01234567Q", 0xba505853e841b40e),
    ];
    for (key, want) in keys {
        let (lo, hi) = load16(key);
        assert_eq!(hash_key(key, lo, hi), want);
    }
    let (lo, hi) = load16(b"the");
    assert_eq!(hash_head(3, lo, hi), 0x4caf3275effe1246);
}
