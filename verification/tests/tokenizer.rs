use cbpe_fast::batch::{flatten, to_rows, worker_limit, worker_of};
use cbpe_fast::blocks::{count_units, encode_text_blocks, profile_units};
use cbpe_fast::cache::Cache;
use cbpe_fast::decode::DecodeError;
use cbpe_fast::hash::{hash_key, load16};
use cbpe_fast::model::{Model, ModelError};
use cbpe_fast::text::{emit_unit, encode, encode_text, encode_text_scalar, scan_units};
use cbpe_fast::tok::{Tok, C_LL, C_LU, C_NUM, C_WORD, C_WS, F_TRAD, F_UP, OOA};
use cbpe_fast::unit::parse_unit;

const TH: u32 = 400;
const THE: u32 = 401;
const AB: u32 = 402;
const HAN: u32 = 360;

/// The tables of a small tokenizer.
struct Parts {
    cls: Vec<u8>,
    fold: Vec<(u32, u32)>,
    chars: Vec<(u32, u32)>,
    merges: Vec<(u32, u32, u32, u32)>,
    prefixes: Vec<Vec<u8>>,
    suffixes: Vec<Vec<u8>>,
    fold_case: bool,
    fold_han: bool,
    split_camel: bool,
    punct_to_next: bool,
    simd: bool,
}

fn id(c: char) -> u32 {
    match c {
        'a'..='z' => 300 + (c as u32 - 'a' as u32),
        '0'..='9' => 340 + (c as u32 - '0' as u32),
        '\u{e9}' => 350,
        '\u{6c49}' => HAN,
        '\u{5b57}' => 361,
        _ => panic!("no core"),
    }
}

fn list(texts: &[&str]) -> Vec<Vec<u8>> {
    texts.iter().map(|t| t.as_bytes().to_vec()).collect()
}

impl Parts {
    fn new() -> Parts {
        let mut cls = vec![0u8; 0x110000];
        for c in 'a'..='z' {
            cls[c as usize] = C_WORD | C_LL;
        }
        for c in 'A'..='Z' {
            cls[c as usize] = C_WORD | C_LU;
        }
        for c in '0'..='9' {
            cls[c as usize] = C_NUM;
        }
        for c in [' ', '\n', '\t', '\u{3000}'] {
            cls[c as usize] = C_WS;
        }
        cls[0xe9] = C_WORD | C_LL;
        cls[0xc9] = C_WORD | C_LU;
        for c in ['\u{6c49}', '\u{6f22}', '\u{5b57}', '\u{1d400}'] {
            cls[c as usize] = C_WORD;
        }
        let mut chars: Vec<(u32, u32)> = Vec::new();
        for c in ('a'..='z').chain('0'..='9').chain(['\u{e9}', '\u{6c49}', '\u{5b57}']) {
            chars.push((c as u32, id(c)));
        }
        Parts {
            cls,
            fold: vec![(0xc9, 0xe9)],
            chars,
            merges: vec![
                (id('t'), id('h'), 0, TH),
                (TH, id('e'), 1, THE),
                (id('a'), id('b'), 2, AB),
            ],
            prefixes: list(&["", " ", "(", " ("]),
            suffixes: list(&["", ",", ")", "),"]),
            fold_case: true,
            fold_han: true,
            split_camel: true,
            punct_to_next: false,
            simd: false,
        }
    }

    /// The spelling of each core in each variation.
    fn dec_core(&self) -> Vec<Vec<Vec<u8>>> {
        let mut plain: Vec<String> = vec![String::new(); 410];
        for &(cp, core) in &self.chars {
            if (core as usize) < plain.len() {
                plain[core as usize] = char::from_u32(cp).unwrap().to_string();
            }
        }
        plain[TH as usize] = "th".to_string();
        plain[THE as usize] = "the".to_string();
        plain[AB as usize] = "ab".to_string();
        let capital = |s: &String| -> Vec<u8> {
            let mut cs = s.chars();
            match cs.next() {
                Some(c) => {
                    let rest: String = cs.collect();
                    format!("{}{}", c.to_uppercase(), rest).into_bytes()
                }
                None => Vec::new(),
            }
        };
        let mut none: Vec<Vec<u8>> = plain.iter().map(|s| s.as_bytes().to_vec()).collect();
        for b in 0..256usize {
            none[b] = vec![b as u8];
        }
        vec![
            none,
            plain.iter().map(capital).collect(),
            plain.iter().map(|s| s.to_uppercase().into_bytes()).collect(),
            plain.iter().map(|s| s.replace('\u{6c49}', "\u{6f22}").into_bytes()).collect(),
        ]
    }

    fn build(self) -> Result<Model, ModelError> {
        let dec_core = self.dec_core();
        Model::new(
            self.cls,
            self.fold.iter().map(|p| p.0).collect(),
            self.fold.iter().map(|p| p.1).collect(),
            self.chars.iter().map(|p| p.0).collect(),
            self.chars.iter().map(|p| p.1).collect(),
            self.merges.iter().map(|m| m.0).collect(),
            self.merges.iter().map(|m| m.1).collect(),
            self.merges.iter().map(|m| m.2).collect(),
            self.merges.iter().map(|m| m.3).collect(),
            self.prefixes,
            self.suffixes,
            2,
            2,
            self.fold_case,
            self.fold_han,
            self.split_camel,
            self.punct_to_next,
            vec![0x6f22],
            vec![0x6c49],
            vec![0x6c49],
            dec_core,
            self.simd,
        )
    }

    fn model(self) -> Model {
        self.build().unwrap()
    }
}

fn tok(variation: u32, prefix: u32, core: u32, suffix: u32) -> Tok {
    Tok { variation, prefix, core, suffix }
}

fn plain(c: char) -> Tok {
    tok(0, 0, id(c), 0)
}

fn byte(b: u8) -> Tok {
    tok(0, 0, b as u32, 0)
}

fn toks_of(m: &Model, text: &str) -> Vec<Tok> {
    let mut cache = Cache::new(100);
    encode(m, text, &mut cache)
}

fn lookup(cache: &Cache, key: &[u8]) -> Option<Vec<Tok>> {
    let (lo, hi) = load16(key);
    let h = hash_key(key, lo, hi);
    let mut out = vec![tok(9, 9, 9, 9)];
    let hit = cache.get_emit(key, lo, hi, h, &mut out);
    assert_eq!(out[0], tok(9, 9, 9, 9));
    if hit {
        Some(out[1..].to_vec())
    } else {
        assert_eq!(out.len(), 1);
        None
    }
}

fn store(cache: &mut Cache, key: &[u8], toks: &[Tok]) {
    let (lo, hi) = load16(key);
    let h = hash_key(key, lo, hi);
    cache.insert(key, lo, hi, h, toks);
}

const TEXTS: [&str; 14] = [
    "",
    "the",
    "  ",
    "the (ab), The THE tHe.",
    "a1b22 c!!d\u{e9}\u{c9} ...",
    "\u{6f22}\u{5b57}, \u{6c49}\u{6f22}",
    "\u{1f600}the\u{1f600}\u{1f600} \u{1d400}9",
    "\u{3000}the\u{3000}",
    "0123456789012345678901234567890123456789012345678901234567890123456789",
    "the the the the the the the the the the the the the the the the, the (the) the",
    "...............................................................the...............",
    "aaaaaaaaaaaaaaaaaaaaaaaaaaaaaaaaaaaaaaaaaaaaaaaaaaaaaaaaaaaaaa\u{6f22}\u{5b57}\u{6f22} b,,",
    "a,,,,,,,,,,,,,,,,,,,,,,,,,,,,,,,,,,,,,,,,,,,,,,,,,,,,,,,,,,,,,,,,,,,,,,,,,,,,,,,,,,,,, b",
    "theAbTHEabAB camelCase HTTPServer",
];

#[test]
fn a_class_table_of_another_size_is_refused() {
    let mut p = Parts::new();
    p.cls.pop();
    assert!(matches!(p.build(), Err(ModelError::ClassTable)));
    let mut p = Parts::new();
    p.cls.push(0);
    assert!(matches!(p.build(), Err(ModelError::ClassTable)));
    assert!(Parts::new().build().is_ok());
}

#[test]
fn classes_are_read_per_character() {
    let m = Parts::new().model();
    let s = "a\u{e9}\u{6f22} ".as_bytes();
    assert_eq!(m.class_at(s, 0), (C_WORD | C_LL, 1));
    assert_eq!(m.class_at(s, 1), (C_WORD | C_LL, 2));
    assert_eq!(m.class_at(s, 3), (C_WORD, 3));
    assert_eq!(m.class_at(s, 6), (C_WS, 1));
    assert_eq!(m.class_of('B' as u32), C_WORD | C_LU);
    assert_eq!(m.class_of(0x10ffff), 0);
}

#[test]
fn symbols_are_cores_or_flagged_code_points() {
    let mut p = Parts::new();
    p.chars.push(('!' as u32, u32::MAX));
    p.chars.push((0x4e2d, 399));
    p.chars.push(('a' as u32, 398));
    let m = p.model();
    assert_eq!(m.sym_of('b' as u32), id('b'));
    assert_eq!(m.sym_of('a' as u32), 398);
    assert_eq!(m.sym_of(0x4e2d), 399);
    assert_eq!(m.sym_of('?' as u32), OOA | '?' as u32);
    assert_eq!(m.sym_of('!' as u32), OOA | '!' as u32);
    assert_eq!(m.sym_of(0x1f600), OOA | 0x1f600);
}

#[test]
fn the_last_rank_of_a_pair_counts() {
    let mut p = Parts::new();
    p.merges.push((id('t'), id('h'), 7, 405));
    let m = p.model();
    assert_eq!(m.merge_of(id('t'), id('h')), Some((7, 405)));
    assert_eq!(m.merge_of(TH, id('e')), Some((1, THE)));
    assert_eq!(m.merge_of(id('h'), id('t')), None);
}

#[test]
fn characters_fold_by_case_first() {
    let m = Parts::new().model();
    assert_eq!(m.fold_char('A' as u32), ('a' as u32, F_UP));
    assert_eq!(m.fold_char('Z' as u32), ('z' as u32, F_UP));
    assert_eq!(m.fold_char('[' as u32), ('[' as u32, 0));
    assert_eq!(m.fold_char('a' as u32), ('a' as u32, 0));
    assert_eq!(m.fold_char(0xc9), (0xe9, F_UP));
    assert_eq!(m.fold_char(0x6f22), (0x6c49, F_TRAD));
    assert_eq!(m.fold_char(0x6c49), (0x6c49, 0));
    let mut p = Parts::new();
    p.fold_case = false;
    p.fold_han = false;
    let m = p.model();
    assert_eq!(m.fold_char('A' as u32), ('A' as u32, 0));
    assert_eq!(m.fold_char(0xc9), (0xc9, 0));
    assert_eq!(m.fold_char(0x6f22), (0x6f22, 0));
    assert!(m.has_trad(0x6c49));
    assert!(!m.has_trad(0x6f22));
}

#[test]
fn affixes_have_their_index_as_id() {
    let mut p = Parts::new();
    p.prefixes = list(&["", " ", "(", " "]);
    let m = p.model();
    assert_eq!(m.prefix_id(b" "), Some(3));
    assert_eq!(m.prefix_id(b"("), Some(2));
    assert_eq!(m.prefix_id(b""), None);
    assert_eq!(m.prefix_id(b"["), None);
    assert_eq!(m.suffix_id(b"),"), Some(3));
    assert_eq!(m.suffix_id(b" "), None);
}

#[test]
fn the_lowest_rank_merges_first_everywhere() {
    let m = Parts::new().model();
    let mut syms: Vec<u32> = "thethab".chars().map(id).collect();
    m.bpe(&mut syms);
    assert_eq!(syms, vec![THE, TH, AB]);
    m.bpe(&mut syms);
    assert_eq!(syms, vec![THE, TH, AB]);
    let mut none: Vec<u32> = Vec::new();
    m.bpe(&mut none);
    assert_eq!(none, vec![]);
}

#[test]
fn overlapping_pairs_merge_from_the_left() {
    let mut p = Parts::new();
    p.merges = vec![(id('a'), id('a'), 0, 405)];
    let m = p.model();
    let mut syms: Vec<u32> = "aaaaa".chars().map(id).collect();
    m.bpe(&mut syms);
    assert_eq!(syms, vec![405, 405, id('a')]);
}

#[test]
fn a_rank_of_all_ones_never_merges() {
    let mut p = Parts::new();
    p.merges = vec![(id('a'), id('b'), u32::MAX, 405)];
    let m = p.model();
    let mut syms: Vec<u32> = "ab".chars().map(id).collect();
    m.bpe(&mut syms);
    assert_eq!(syms, vec![id('a'), id('b')]);
}

#[test]
fn symbols_outside_the_alphabet_do_not_merge() {
    let mut p = Parts::new();
    p.merges.push((OOA | 1, id('a'), 0, 405));
    let m = p.model();
    let mut syms = vec![OOA | 1, id('a'), id('b')];
    m.bpe(&mut syms);
    assert_eq!(syms, vec![OOA | 1, AB]);
}

#[test]
fn merged_symbols_keep_count_of_their_characters() {
    let m = Parts::new().model();
    let mut syms: Vec<u32> = "xtheabz".chars().map(id).collect();
    let mut lens: Vec<usize> = vec![1; 7];
    m.bpe_lens(&mut syms, &mut lens);
    assert_eq!(syms, vec![id('x'), THE, AB, id('z')]);
    assert_eq!(lens, vec![1, 3, 2, 1]);
}

#[test]
fn plain_texts_are_not_folded() {
    let m = Parts::new().model();
    let mut out = Vec::new();
    m.core_encode("theT\u{e9}\u{6f22}!".as_bytes(), &mut out);
    let mut want = vec![tok(0, 0, THE, 0), byte(b'T'), plain('\u{e9}')];
    want.extend("\u{6f22}!".bytes().map(byte));
    assert_eq!(out, want);
    let mut nothing = Vec::new();
    m.core_encode(b"", &mut nothing);
    assert_eq!(nothing, vec![]);
}

#[test]
fn variations_restore_folded_pieces() {
    let m = Parts::new().model();
    assert_eq!(toks_of(&m, "the"), vec![tok(0, 0, THE, 0)]);
    assert_eq!(toks_of(&m, "The"), vec![tok(1, 0, THE, 0)]);
    assert_eq!(toks_of(&m, "THE"), vec![tok(2, 0, THE, 0)]);
    assert_eq!(toks_of(&m, "\u{6f22}"), vec![tok(3, 0, HAN, 0)]);
    assert_eq!(toks_of(&m, "\u{6c49}"), vec![tok(0, 0, HAN, 0)]);
    assert_eq!(toks_of(&m, "\u{c9}"), vec![tok(1, 0, 350, 0)]);
}

#[test]
fn pieces_that_no_variation_restores_are_spelled() {
    let mut p = Parts::new();
    p.split_camel = false;
    let m = p.model();
    assert_eq!(toks_of(&m, "tHe"), vec![plain('t'), tok(1, 0, id('h'), 0), plain('e')]);
    assert_eq!(toks_of(&m, "THe"), vec![tok(1, 0, id('t'), 0), tok(1, 0, id('h'), 0), plain('e')]);
}

#[test]
fn traditional_pieces_need_all_their_characters_changed() {
    let mut p = Parts::new();
    p.merges.push((HAN, HAN, 5, 406));
    p.merges.push((HAN, id('\u{5b57}'), 6, 407));
    p.merges.push((id('a'), HAN, 7, 408));
    let m = p.model();
    assert_eq!(toks_of(&m, "\u{6f22}\u{6f22}"), vec![tok(3, 0, 406, 0)]);
    assert_eq!(toks_of(&m, "\u{6f22}\u{5b57}"), vec![tok(3, 0, 407, 0)]);
    assert_eq!(toks_of(&m, "\u{6f22}\u{6c49}"), vec![tok(3, 0, HAN, 0), tok(0, 0, HAN, 0)]);
    assert_eq!(toks_of(&m, "A\u{6f22}"), vec![tok(1, 0, id('a'), 0), tok(3, 0, HAN, 0)]);
}

#[test]
fn variations_of_a_piece_go_by_its_flags() {
    let m = Parts::new().model();
    let abc = [97u32, 98, 99];
    assert_eq!(m.piece_variation(&abc, &[0, 0, 0]), Some(0));
    assert_eq!(m.piece_variation(&abc, &[F_UP, 0, 0]), Some(1));
    assert_eq!(m.piece_variation(&abc, &[F_UP, F_UP, F_UP]), Some(2));
    assert_eq!(m.piece_variation(&abc, &[F_UP, F_UP, 0]), None);
    assert_eq!(m.piece_variation(&abc, &[0, F_UP, 0]), None);
    assert_eq!(m.piece_variation(&abc, &[0, F_TRAD, 0]), Some(3));
    assert_eq!(m.piece_variation(&[0x6c49, 98], &[0, F_TRAD]), None);
    assert_eq!(m.piece_variation(&abc, &[F_UP, F_TRAD, 0]), None);
}

#[test]
fn unknown_characters_are_bytes_of_the_text() {
    let mut p = Parts::new();
    p.chars.retain(|c| c.0 != 'x' as u32);
    let m = p.model();
    assert_eq!(toks_of(&m, "aX"), vec![plain('a'), byte(b'X')]);
    assert_eq!(toks_of(&m, "\u{1d400}"), vec![byte(0xf0), byte(0x9d), byte(0x90), byte(0x80)]);
}

#[test]
fn words_are_cut_at_camel_humps() {
    let m = Parts::new().model();
    assert_eq!(toks_of(&m, "theThe"), vec![tok(0, 0, THE, 0), tok(1, 0, THE, 0)]);
    assert_eq!(toks_of(&m, "ABThe"), vec![tok(2, 0, AB, 0), tok(1, 0, THE, 0)]);
    assert_eq!(toks_of(&m, "THEAB"), vec![tok(2, 0, THE, 0), tok(2, 0, AB, 0)]);
    let mut p = Parts::new();
    p.split_camel = false;
    p.merges.push((THE, THE, 3, 406));
    let m = p.model();
    assert_eq!(toks_of(&m, "thethe"), vec![tok(0, 0, 406, 0)]);
    assert_eq!(toks_of(&m, "Thethe"), vec![tok(1, 0, 406, 0)]);
}

#[test]
fn without_folding_capitals_are_unknown() {
    let mut p = Parts::new();
    p.fold_case = false;
    p.fold_han = false;
    let m = p.model();
    assert_eq!(toks_of(&m, "the"), vec![tok(0, 0, THE, 0)]);
    assert_eq!(toks_of(&m, "The"), vec![byte(b'T'), plain('h'), plain('e')]);
}

#[test]
fn the_longest_affixes_are_taken() {
    let m = Parts::new().model();
    assert_eq!(m.longest_prefix_affix(b""), (0, 0));
    assert_eq!(m.longest_prefix_affix(b" ("), (3, 0));
    assert_eq!(m.longest_prefix_affix(b"x ("), (3, 1));
    assert_eq!(m.longest_prefix_affix(b"[("), (2, 1));
    assert_eq!(m.longest_prefix_affix(b" ["), (0, 2));
    assert_eq!(m.longest_prefix_affix("\u{3000} ".as_bytes()), (1, 3));
    assert_eq!(m.longest_suffix_affix(b""), (0, 0));
    assert_eq!(m.longest_suffix_affix(b"),"), (3, 2));
    assert_eq!(m.longest_suffix_affix(b"),,"), (3, 2));
    assert_eq!(m.longest_suffix_affix(b",)"), (1, 1));
    assert_eq!(m.longest_suffix_affix(b";)"), (0, 0));
}

#[test]
fn affixes_longer_than_the_limit_are_not_looked_for() {
    let mut p = Parts::new();
    p.prefixes = list(&["", " ", "   "]);
    p.suffixes = list(&["", "!", "!!!"]);
    let m = p.model();
    assert_eq!(m.longest_prefix_affix(b"   "), (1, 2));
    assert_eq!(m.longest_suffix_affix(b"!!!"), (1, 1));
}

#[test]
fn units_carry_their_affixes() {
    let m = Parts::new().model();
    assert_eq!(toks_of(&m, " (the),"), vec![tok(0, 3, THE, 3)]);
    assert_eq!(toks_of(&m, " theTHE)"), vec![tok(0, 1, THE, 0), tok(2, 0, THE, 2)]);
    assert_eq!(toks_of(&m, "[(ab);"), vec![byte(b'['), tok(0, 2, AB, 2), byte(b';')]);
    assert_eq!(toks_of(&m, "..."), vec![byte(b'.'), byte(b'.'), byte(b'.')]);
}

#[test]
fn units_are_cut_where_words_change() {
    let m = Parts::new().model();
    let s = "the, 12ab..  \u{6f22}!".as_bytes();
    assert_eq!(parse_unit(&m, s, 0), (0, 3, 4, false));
    assert_eq!(parse_unit(&m, s, 4), (5, 7, 7, false));
    assert_eq!(parse_unit(&m, s, 7), (7, 9, 11, false));
    assert_eq!(parse_unit(&m, s, 11), (13, 16, 17, false));
    assert_eq!(parse_unit(&m, s, 17), (17, 17, 17, true));
    assert_eq!(parse_unit(&m, b" .. ", 0), (4, 4, 4, true));
}

#[test]
fn punctuation_can_belong_to_the_next_word() {
    let mut p = Parts::new();
    p.punct_to_next = true;
    let m = p.model();
    let s = b"the, ab.";
    assert_eq!(parse_unit(&m, s, 0), (0, 3, 3, false));
    assert_eq!(parse_unit(&m, s, 3), (5, 7, 7, false));
    assert_eq!(parse_unit(&m, s, 7), (8, 8, 8, true));
    assert_eq!(toks_of(&m, "the(ab"), vec![tok(0, 0, THE, 0), tok(0, 2, AB, 0)]);
}

#[test]
fn tokens_of_a_text_are_those_of_its_units() {
    let m = Parts::new().model();
    let whole = toks_of(&m, "the, (ab) 12 THE.");
    let mut parts = Vec::new();
    for unit in ["the,", " (ab)", " 12", " THE."] {
        parts.extend(toks_of(&m, unit));
    }
    assert_eq!(whole, parts);
    assert_eq!(
        whole,
        vec![
            tok(0, 0, THE, 1),
            tok(0, 3, AB, 2),
            tok(0, 1, id('1'), 0),
            plain('2'),
            tok(2, 1, THE, 0),
            byte(b'.'),
        ],
    );
}

#[test]
fn an_empty_text_has_no_tokens() {
    let m = Parts::new().model();
    assert_eq!(toks_of(&m, ""), vec![]);
    assert_eq!(scan_units(&m, b""), 0);
    assert_eq!(count_units(&m, b""), 0);
}

#[test]
fn blocks_give_the_same_tokens_as_single_characters() {
    for punct_to_next in [false, true] {
        let mut p = Parts::new();
        p.punct_to_next = punct_to_next;
        let m = p.model();
        for text in TEXTS {
            for pad in 0..70 {
                let padded = format!("{}{}{}", "x".repeat(pad), text, "\u{6f22} ");
                let mut a = Cache::new(100);
                let mut b = Cache::new(100);
                let mut out_a = Vec::new();
                let mut out_b = Vec::new();
                encode_text_scalar(&m, padded.as_bytes(), &mut a, &mut out_a);
                encode_text_blocks(&m, padded.as_bytes(), &mut b, &mut out_b);
                assert_eq!(out_a, out_b);
                assert_eq!(a.size(), b.size());
            }
        }
    }
}

#[test]
fn the_scan_is_chosen_by_the_tokenizer() {
    let mut p = Parts::new();
    p.simd = true;
    let fast = p.model();
    let slow = Parts::new().model();
    assert!(fast.simd());
    assert!(!slow.simd());
    assert!(fast.is_exclusive());
    for text in TEXTS {
        assert_eq!(toks_of(&fast, text), toks_of(&slow, text));
    }
}

#[test]
fn units_of_overlapping_classes_are_counted_one_by_one() {
    let mut p = Parts::new();
    p.cls['_' as usize] = C_WORD | C_NUM;
    p.simd = true;
    let m = p.model();
    for text in ["a_1_b", "1_a", "_", "a_ 1_2,"] {
        assert_eq!(profile_units(&m, text.as_bytes()), scan_units(&m, text.as_bytes()));
    }
}

#[test]
fn classes_of_two_kinds_are_scanned_one_by_one() {
    let mut p = Parts::new();
    p.cls['_' as usize] = C_WORD | C_NUM;
    p.simd = true;
    let fast = p.model();
    assert!(!fast.is_exclusive());
    let mut p = Parts::new();
    p.cls['_' as usize] = C_WORD | C_NUM;
    let slow = p.model();
    for text in ["a_1_b", "1_a", "_", "a_ 1_2,"] {
        assert_eq!(toks_of(&fast, text), toks_of(&slow, text));
    }
}

#[test]
fn a_warm_cache_changes_nothing() {
    let m = Parts::new().model();
    let mut cache = Cache::new(1000);
    for text in TEXTS {
        let cold = toks_of(&m, text);
        assert_eq!(encode(&m, text, &mut cache), cold);
        let held = cache.size();
        assert_eq!(encode(&m, text, &mut cache), cold);
        assert_eq!(cache.size(), held);
    }
    cache.clear();
    assert_eq!(cache.size(), 0);
    for text in TEXTS {
        assert_eq!(encode(&m, text, &mut cache), toks_of(&m, text));
    }
}

#[test]
fn a_cache_counts_different_units() {
    let m = Parts::new().model();
    let mut cache = Cache::new(1000);
    encode(&m, "the the the ab the", &mut cache);
    assert_eq!(cache.size(), 3);
    assert_eq!(lookup(&cache, b"the"), Some(vec![tok(0, 0, THE, 0)]));
    assert_eq!(lookup(&cache, b" the"), Some(vec![tok(0, 1, THE, 0)]));
    assert_eq!(lookup(&cache, b" ab"), Some(vec![tok(0, 1, AB, 0)]));
    assert_eq!(lookup(&cache, b"ab"), None);
}

#[test]
fn a_full_cache_takes_no_more() {
    let m = Parts::new().model();
    let mut cache = Cache::new(2);
    let want = toks_of(&m, "the ab 1 2 3 the ab 1");
    assert_eq!(encode(&m, "the ab 1 2 3 the ab 1", &mut cache), want);
    assert_eq!(cache.size(), 2);
    let mut none = Cache::new(0);
    assert_eq!(encode(&m, "the ab 1 2 3 the ab 1", &mut none), want);
    assert_eq!(none.size(), 0);
}

#[test]
fn emit_unit_appends_and_remembers() {
    let m = Parts::new().model();
    let mut cache = Cache::new(10);
    let mut out = vec![byte(1)];
    emit_unit(&m, b"x the,", 1, 6, &mut cache, &mut out);
    assert_eq!(out, vec![byte(1), tok(0, 1, THE, 1)]);
    assert_eq!(lookup(&cache, b" the,"), Some(vec![tok(0, 1, THE, 1)]));
    emit_unit(&m, b"x the,", 1, 6, &mut cache, &mut out);
    assert_eq!(out.len(), 3);
    assert_eq!(cache.size(), 1);
}

#[test]
fn long_keys_and_large_tokens_are_read_back() {
    let mut cache = Cache::new(100);
    let long = b"a key that is longer than sixteen bytes";
    let other = b"a key that is longer than sixteen bytez";
    let many = vec![tok(1, 2, 3, 4), tok(5, 6, 7, 8), tok(9, 10, 11, 12)];
    let large = vec![tok(0, 0, 0x1_0000, 0)];
    store(&mut cache, b"", &[]);
    store(&mut cache, b"sixteen bytes ..", &[tok(3, 0xffff, 0xffff, 0xffff)]);
    store(&mut cache, long, &many);
    store(&mut cache, b"short", &large);
    assert_eq!(cache.size(), 4);
    assert_eq!(lookup(&cache, b""), Some(vec![]));
    assert_eq!(lookup(&cache, b"\0"), None);
    assert_eq!(lookup(&cache, b"sixteen bytes .."), Some(vec![tok(3, 0xffff, 0xffff, 0xffff)]));
    assert_eq!(lookup(&cache, long), Some(many));
    assert_eq!(lookup(&cache, other), None);
    assert_eq!(lookup(&cache, b"short"), Some(large));
}

#[test]
fn what_a_slot_cannot_count_is_not_stored() {
    let mut cache = Cache::new(100);
    store(&mut cache, &vec![b'a'; 0x10000], &[byte(1)]);
    assert_eq!(cache.size(), 0);
    store(&mut cache, &vec![b'a'; 0xffff], &[byte(1)]);
    assert_eq!(cache.size(), 1);
    assert_eq!(lookup(&cache, &vec![b'a'; 0xffff]), Some(vec![byte(1)]));
    store(&mut cache, b"many", &vec![byte(1); 0x8000]);
    assert_eq!(cache.size(), 1);
    store(&mut cache, b"many", &vec![byte(1); 0x7fff]);
    assert_eq!(lookup(&cache, b"many"), Some(vec![byte(1); 0x7fff]));
}

#[test]
fn a_growing_cache_keeps_what_it_holds() {
    let mut cache = Cache::new(1 << 20);
    for i in 0..20_000u32 {
        let key = format!("unit number {}", i * 7);
        let toks = if i % 3 == 0 { vec![byte(1), tok(0, 0, i, 0)] } else { vec![tok(0, 0, i, 0)] };
        store(&mut cache, key.as_bytes(), &toks);
    }
    assert_eq!(cache.size(), 20_000);
    for i in 0..20_000u32 {
        let key = format!("unit number {}", i * 7);
        let toks = if i % 3 == 0 { vec![byte(1), tok(0, 0, i, 0)] } else { vec![tok(0, 0, i, 0)] };
        assert_eq!(lookup(&cache, key.as_bytes()), Some(toks));
        let absent = format!("unit number {}", i * 7 + 1);
        assert_eq!(lookup(&cache, absent.as_bytes()), None);
    }
}

#[test]
fn units_are_counted() {
    let m = Parts::new().model();
    assert_eq!(scan_units(&m, b"the, (ab) 12 THE."), 4);
    assert_eq!(count_units(&m, b"the, (ab) 12 THE."), 4);
    assert_eq!(scan_units(&m, b"a1b2 .."), 5);
    assert_eq!(scan_units(&m, "\u{6f22}, \u{6f22}".as_bytes()), 2);
}

#[test]
fn both_counts_agree() {
    for punct_to_next in [false, true] {
        let mut p = Parts::new();
        p.punct_to_next = punct_to_next;
        let m = p.model();
        for text in TEXTS {
            for pad in 0..70 {
                let padded = format!("{}{}", "z".repeat(pad), text);
                let s = padded.as_bytes();
                assert_eq!(count_units(&m, s), scan_units(&m, s));
                assert_eq!(profile_units(&m, s), scan_units(&m, s));
            }
        }
    }
}

#[test]
fn units_are_counted_as_they_are_cut() {
    for simd in [false, true] {
        let mut p = Parts::new();
        p.simd = simd;
        let m = p.model();
        assert_eq!(profile_units(&m, b""), 0);
        assert_eq!(profile_units(&m, b"a,"), 1);
        assert_eq!(profile_units(&m, b"a, b. c"), 3);
        assert_eq!(profile_units(&m, "\u{6f22}\u{5b57}, \u{e9}1\u{1f600}".as_bytes()), 3);
        assert_eq!(profile_units(&m, "\u{1f600}\u{1f600}".as_bytes()), 1);
        let mut p = Parts::new();
        p.punct_to_next = true;
        p.simd = simd;
        let m = p.model();
        assert_eq!(scan_units(&m, b"a,"), 2);
        assert_eq!(count_units(&m, b"a,"), 2);
        assert_eq!(profile_units(&m, b""), 0);
        assert_eq!(profile_units(&m, b"a,"), 2);
        assert_eq!(profile_units(&m, b"a, b."), 3);
    }
}

#[test]
fn decoding_undoes_encoding() {
    for simd in [false, true] {
        let mut p = Parts::new();
        p.simd = simd;
        let m = p.model();
        for text in TEXTS {
            let ids = to_rows(&toks_of(&m, text));
            assert_eq!(m.decode(&ids, 4).unwrap(), text.as_bytes());
        }
    }
}

#[test]
fn decoding_puts_affixes_around_the_core() {
    let m = Parts::new().model();
    assert_eq!(m.decode(&[2, 3, THE as i32, 3], 4).unwrap(), b" (THE),");
    assert_eq!(m.decode(&[0, 0, 65, 0, 3, 1, HAN as i32, 0], 4).unwrap(), "A \u{6f22}".as_bytes());
    assert_eq!(m.decode(&[], 4).unwrap(), b"");
}

#[test]
fn segments_are_restored_without_affixes() {
    let m = Parts::new().model();
    for text in ["the", "The", "THE", "tHE", "x\u{6f22}\u{6c49}Q", "\u{1d400}ab"] {
        let cps: Vec<u32> = text.chars().map(|c| c as u32).collect();
        let mut out = Vec::new();
        m.encode_segment(&cps, &mut out);
        assert!(out.iter().all(|t| t.prefix == 0 && t.suffix == 0));
        assert_eq!(m.decode(&to_rows(&out), 4).unwrap(), text.as_bytes());
    }
}

#[test]
fn texts_split_where_space_follows_a_word() {
    for punct_to_next in [false, true] {
        let mut p = Parts::new();
        p.punct_to_next = punct_to_next;
        let m = p.model();
        for (a, b) in [("(the", " ab,"), ("x, 12", "\n(the) "), ("\u{6f22}", "\u{3000}")] {
            let mut parts = toks_of(&m, a);
            parts.extend(toks_of(&m, b));
            let whole = format!("{}{}", a, b);
            assert_eq!(toks_of(&m, &whole), parts);
            let counts = scan_units(&m, a.as_bytes()) + scan_units(&m, b.as_bytes());
            assert_eq!(scan_units(&m, whole.as_bytes()), counts);
        }
    }
}

#[test]
fn words_split_at_humps() {
    let m = Parts::new().model();
    for (a, b) in [("the", "The"), ("HTTP", "Server"), ("abC", "Dab"), ("x", "Y")] {
        let mut parts = Vec::new();
        m.encode_word(a.as_bytes(), &mut parts);
        m.encode_word(b.as_bytes(), &mut parts);
        let mut whole = Vec::new();
        m.encode_word(format!("{}{}", a, b).as_bytes(), &mut whole);
        assert_eq!(whole, parts);
    }
}

#[test]
fn symbols_split_at_unknown_characters() {
    let m = Parts::new().model();
    let mut a: Vec<u32> = "abthe".chars().map(id).collect();
    let mut b: Vec<u32> = "theabt".chars().map(id).collect();
    let mut whole = a.clone();
    whole.push(OOA | 7);
    whole.extend(&b);
    m.bpe(&mut whole);
    m.bpe(&mut a);
    m.bpe(&mut b);
    a.push(OOA | 7);
    a.extend(&b);
    assert_eq!(whole, a);
    assert_eq!(whole, vec![AB, THE, OOA | 7, THE, AB, id('t')]);
}

#[test]
fn a_text_has_at_most_one_token_per_byte() {
    let m = Parts::new().model();
    for text in TEXTS {
        assert!(toks_of(&m, text).len() <= text.len());
    }
    assert_eq!(toks_of(&m, "\u{1f600}?!").len(), 6);
}

#[test]
fn a_cache_keeps_its_limit_through_inserts_and_clears() {
    let mut cache = Cache::new(3000);
    for round in 0..3 {
        for i in 0..5000u32 {
            store(&mut cache, format!("{} {}", round, i).as_bytes(), &[tok(0, 0, i, 0)]);
            assert!(cache.size() <= 3000);
        }
        assert_eq!(cache.size(), 3000);
        cache.clear();
        assert_eq!(cache.size(), 0);
    }
}

#[test]
fn rows_decode_one_after_the_other() {
    let m = Parts::new().model();
    let a = to_rows(&toks_of(&m, " (the),"));
    let b = to_rows(&toks_of(&m, " AB"));
    let both: Vec<i32> = a.iter().chain(&b).copied().collect();
    assert_eq!(m.decode(&both, 4).unwrap(), b" (the), AB");
    let bad: Vec<i32> = a.iter().chain(&[0, 7, 1, 0]).chain(&b).copied().collect();
    assert_eq!(
        m.decode(&bad, 4),
        Err(DecodeError::OutOfRange { variation: 0, prefix: 7, core: 1, suffix: 0 }),
    );
}

#[test]
fn negative_ids_are_out_of_range() {
    let m = Parts::new().model();
    for column in 0..4 {
        for id in [-1, i32::MIN] {
            let mut ids = to_rows(&toks_of(&m, "the ab"));
            ids[4 + column] = id;
            assert!(matches!(m.decode(&ids, 4), Err(DecodeError::OutOfRange { .. })));
        }
    }
}

#[test]
fn a_new_cache_is_empty() {
    let cache = Cache::new(10);
    assert_eq!(cache.size(), 0);
    assert_eq!(lookup(&cache, b""), None);
    assert_eq!(lookup(&cache, b"the"), None);
}

#[test]
fn ids_in_other_shapes_do_not_decode() {
    let m = Parts::new().model();
    assert_eq!(m.decode(&[0, 0, 65], 3), Err(DecodeError::Shape));
    assert_eq!(m.decode(&[], 5), Err(DecodeError::Shape));
    assert_eq!(m.decode(&[], 0), Err(DecodeError::Shape));
}

#[test]
fn the_first_token_out_of_range_is_reported() {
    let m = Parts::new().model();
    let error = |ids: &[i32]| m.decode(ids, 4).unwrap_err();
    assert_eq!(
        error(&[0, 0, 65, 0, 4, 0, 65, 0, 0, 9, 65, 0]),
        DecodeError::OutOfRange { variation: 4, prefix: 0, core: 65, suffix: 0 },
    );
    assert_eq!(
        error(&[0, 4, 65, 0]),
        DecodeError::OutOfRange { variation: 0, prefix: 4, core: 65, suffix: 0 },
    );
    assert_eq!(
        error(&[1, 0, 410, 0]),
        DecodeError::OutOfRange { variation: 1, prefix: 0, core: 410, suffix: 0 },
    );
    assert_eq!(
        error(&[1, 0, 300, 4]),
        DecodeError::OutOfRange { variation: 1, prefix: 0, core: 300, suffix: 4 },
    );
    assert_eq!(
        error(&[0, 0, -1, 0]),
        DecodeError::OutOfRange { variation: 0, prefix: 0, core: usize::MAX, suffix: 0 },
    );
}

#[test]
fn rows_list_the_four_ids() {
    assert_eq!(to_rows(&vec![]), vec![]);
    assert_eq!(
        to_rows(&vec![tok(1, 2, 3, 4), tok(0, 0, 0x7fff_ffff, 5)]),
        vec![1, 2, 3, 4, 0, 0, i32::MAX, 5],
    );
    assert_eq!(to_rows(&vec![tok(0, 0, u32::MAX, 0)]), vec![0, 0, -1, 0]);
}

#[test]
fn flattened_texts_lie_between_their_offsets() {
    let results = vec![vec![byte(1), byte(2)], vec![], vec![byte(3)], vec![]];
    let (flat, offs) = flatten(&results);
    assert_eq!(flat, vec![byte(1), byte(2), byte(3)]);
    assert_eq!(offs, vec![0, 2, 2, 3, 3]);
    for (i, r) in results.iter().enumerate() {
        assert_eq!(&flat[offs[i]..offs[i + 1]], &r[..]);
        assert_eq!(&to_rows(&flat)[4 * offs[i]..4 * offs[i + 1]], &to_rows(r)[..]);
    }
    assert_eq!(flatten(&vec![]), (vec![], vec![0]));
}

#[test]
fn batches_do_not_depend_on_the_cache() {
    let mut p = Parts::new();
    p.simd = true;
    let m = p.model();
    let mut caches = [Cache::new(5), Cache::new(500)];
    let mut batches: Vec<Vec<Vec<Tok>>> = Vec::new();
    for cache in caches.iter_mut() {
        let mut results = Vec::new();
        for text in TEXTS {
            let mut out = Vec::new();
            encode_text(&m, text.as_bytes(), cache, &mut out);
            results.push(out);
        }
        batches.push(results);
    }
    assert_eq!(batches[0], batches[1]);
    let (flat, offs) = flatten(&batches[0]);
    for (i, text) in TEXTS.iter().enumerate() {
        assert_eq!(&flat[offs[i]..offs[i + 1]], &toks_of(&m, text)[..]);
    }
    assert_eq!(offs[TEXTS.len()], flat.len());
}

#[test]
fn workers_share_the_limit() {
    assert_eq!(worker_limit(2_000_000, 8), 250_001);
    assert_eq!(worker_limit(0, 3), 1);
    assert_eq!(worker_limit(7, 2), 4);
    assert_eq!(worker_of(None, 4), 0);
    assert_eq!(worker_of(Some(3), 4), 3);
    assert_eq!(worker_of(Some(9), 4), 1);
}
