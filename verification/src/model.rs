//! A tokenizer: its tables in executable form, and the look-ups in them.
use crate::fx::{affix_get, affix_ids, affix_insert, affix_new, map_get, map_insert, set_contains,
    set_insert};
use crate::tables::{affix_map, bind_all, bytes_of, bytes_of_all, merge_map, one_kind, zip_map,
    Tables};
use crate::tok::{C_NUM, C_WORD, C_WS, F_TRAD, F_UP, OOA};
use crate::utf8::decode_at;
use rustc_hash::{FxHashMap, FxHashSet};
use vstd::prelude::*;
use vstd::utf8::{decode_first_scalar, length_of_first_scalar, valid_first_scalar};

verus! {

/// The number of code points that the class table covers.
pub const CODE_POINTS: usize = 0x110000;

/// Why tables do not make a tokenizer.
#[derive(Clone, Copy, Debug, PartialEq, Eq, Structural)]
pub enum ModelError {
    /// The class table does not cover 0x110000 code points.
    ClassTable,
}

/// The key that a pair of symbols is looked up by.
pub open spec fn pair_key(a: u32, b: u32) -> u64 {
    ((a as u64) << 32) | (b as u64)
}

/// Packs a pair of symbols into one number.
fn pack(a: u32, b: u32) -> (key: u64)
    ensures
        key == pair_key(a, b),
{
    ((a as u64) << 32) | (b as u64)
}

proof fn lemma_pair_key(a: u32, b: u32, c: u32, d: u32)
    ensures
        pair_key(a, b) == pair_key(c, d) <==> a == c && b == d,
{
    assert((((a as u64) << 32) | (b as u64)) == (((c as u64) << 32) | (d as u64)) <==> a == c && b
        == d) by (bit_vector);
}

/// The merges that a table keyed by packed pairs holds.
spec fn unpacked(m: Map<u64, (u32, u32)>) -> Map<(u32, u32), (u32, u32)> {
    Map::new(
        |p: (u32, u32)| m.contains_key(pair_key(p.0, p.1)),
        |p: (u32, u32)| m[pair_key(p.0, p.1)],
    )
}

/// A tokenizer.
pub struct Model {
    cls: Vec<u8>,
    fold: FxHashMap<u32, u32>,
    han_fold: FxHashMap<u32, u32>,
    han_to_trad: FxHashSet<u32>,
    ascii_id: [u32; 128],
    char_id: FxHashMap<u32, u32>,
    merges: FxHashMap<u64, (u32, u32)>,
    prefixes: FxHashMap<Vec<u8>, u32>,
    suffixes: FxHashMap<Vec<u8>, u32>,
    max_p: usize,
    max_s: usize,
    fold_case: bool,
    fold_han: bool,
    split_camel: bool,
    punct_to_next: bool,
    simd: bool,
    exclusive: bool,
    dec_prefix: Vec<Vec<u8>>,
    dec_suffix: Vec<Vec<u8>>,
    dec_core: Vec<Vec<Vec<u8>>>,
}

impl View for Model {
    type V = Tables;

    closed spec fn view(&self) -> Tables {
        Tables {
            cls: self.cls@,
            fold: self.fold@,
            han_fold: self.han_fold@,
            han_to_trad: self.han_to_trad@,
            char_id: self.char_id@,
            merges: unpacked(self.merges@),
            prefixes: affix_ids(self.prefixes),
            suffixes: affix_ids(self.suffixes),
            max_p: self.max_p as nat,
            max_s: self.max_s as nat,
            fold_case: self.fold_case,
            fold_han: self.fold_han,
            split_camel: self.split_camel,
            punct_to_next: self.punct_to_next,
            dec_prefix: bytes_of(self.dec_prefix@),
            dec_suffix: bytes_of(self.dec_suffix@),
            dec_core: bytes_of_all(self.dec_core@),
        }
    }
}

/// The map of `src[i]` to `dst[i]`, later pairs overwriting earlier ones.
fn zip_table(src: &Vec<u32>, dst: &Vec<u32>) -> (m: FxHashMap<u32, u32>)
    ensures
        m@ == zip_map(src@, dst@),
{
    let mut m: FxHashMap<u32, u32> = FxHashMap::default();
    let n: usize = if src.len() < dst.len() {
        src.len()
    } else {
        dst.len()
    };
    let mut i: usize = 0;
    while i < n
        invariant
            i <= n <= src@.len(),
            n <= dst@.len(),
            m@ == bind_all(src@, dst@, i as int),
        decreases n - i,
    {
        map_insert(&mut m, src[i], dst[i]);
        i = i + 1;
    }
    m
}

/// The table of the affixes of a list: an affix's id is its index.
fn affix_table(list: &Vec<Vec<u8>>) -> (m: FxHashMap<Vec<u8>, u32>)
    ensures
        affix_ids(m) == affix_map(bytes_of(list@), list@.len() as int),
{
    let mut m: FxHashMap<Vec<u8>, u32> = affix_new();
    let mut i: usize = 0;
    while i < list.len()
        invariant
            i <= list@.len(),
            affix_ids(m) == affix_map(bytes_of(list@), i as int),
        decreases list@.len() - i,
    {
        if !list[i].is_empty() {
            let p: Vec<u8> = list[i].clone();
            assert(p@ == list@[i as int]@);
            affix_insert(&mut m, p, i as u32);
        }
        i = i + 1;
    }
    m
}

/// Whether no class of a table is of two kinds.
fn all_one_kind(cls: &Vec<u8>) -> (r: bool)
    ensures
        r == (forall|i: int| 0 <= i < cls@.len() ==> one_kind(#[trigger] cls@[i])),
{
    let mut i: usize = 0;
    while i < cls.len()
        invariant
            i <= cls@.len(),
            forall|k: int| 0 <= k < i ==> one_kind(#[trigger] cls@[k]),
        decreases cls@.len() - i,
    {
        let c: u8 = cls[i];
        let word: bool = c & C_WORD != 0;
        let num: bool = c & C_NUM != 0;
        let space: bool = c & C_WS != 0;
        if (word && (num || space)) || (num && space) {
            assert(!one_kind(cls@[i as int]));
            return false;
        }
        i = i + 1;
    }
    true
}

impl Model {
    /// Whether texts may be scanned a block at a time.
    pub closed spec fn scans_blocks(&self) -> bool {
        self.simd
    }

    /// What construction keeps true of a tokenizer.
    pub closed spec fn wf(&self) -> bool {
        &&& self.cls@.len() == CODE_POINTS
        &&& self.exclusive == self@.exclusive()
        &&& forall|cp: u32|
            cp < 128 ==> #[trigger] self.ascii_id@[cp as int] == (if self.char_id@.contains_key(
                cp,
            ) {
                self.char_id@[cp]
            } else {
                u32::MAX
            })
    }

    /// The class table of a tokenizer covers all code points.
    pub proof fn lemma_wf(&self)
        requires
            self.wf(),
        ensures
            self@.cls.len() == CODE_POINTS,
    {
    }

    /// Makes a tokenizer of its tables. Fails if the class table does not cover all code points.
    pub fn new(
        cls: Vec<u8>,
        fold_src: Vec<u32>,
        fold_dst: Vec<u32>,
        char_cps: Vec<u32>,
        char_ids: Vec<u32>,
        merge_a: Vec<u32>,
        merge_b: Vec<u32>,
        merge_rank: Vec<u32>,
        merge_out: Vec<u32>,
        prefixes: Vec<Vec<u8>>,
        suffixes: Vec<Vec<u8>>,
        max_p: usize,
        max_s: usize,
        fold_case: bool,
        fold_han: bool,
        split_camel: bool,
        punct_to_next: bool,
        han_src: Vec<u32>,
        han_dst: Vec<u32>,
        han_trad_keys: Vec<u32>,
        dec_core: Vec<Vec<Vec<u8>>>,
        simd: bool,
    ) -> (r: Result<Model, ModelError>)
        requires
            cls@.len() == CODE_POINTS ==> {
                &&& merge_a@.len() <= merge_b@.len()
                &&& merge_a@.len() <= merge_rank@.len()
                &&& merge_a@.len() <= merge_out@.len()
            },
        ensures
            cls@.len() != CODE_POINTS <==> r == Err::<Model, ModelError>(ModelError::ClassTable),
            r matches Ok(m) ==> {
                &&& m.wf()
                &&& m.scans_blocks() == simd
                &&& m@ == (Tables {
                    cls: cls@,
                    fold: zip_map(fold_src@, fold_dst@),
                    han_fold: zip_map(han_src@, han_dst@),
                    han_to_trad: han_trad_keys@.to_set(),
                    char_id: zip_map(char_cps@, char_ids@),
                    merges: merge_map(
                        merge_a@,
                        merge_b@,
                        merge_rank@,
                        merge_out@,
                        merge_a@.len() as int,
                    ),
                    prefixes: affix_map(bytes_of(prefixes@), prefixes@.len() as int),
                    suffixes: affix_map(bytes_of(suffixes@), suffixes@.len() as int),
                    max_p: max_p as nat,
                    max_s: max_s as nat,
                    fold_case,
                    fold_han,
                    split_camel,
                    punct_to_next,
                    dec_prefix: bytes_of(prefixes@),
                    dec_suffix: bytes_of(suffixes@),
                    dec_core: bytes_of_all(dec_core@),
                })
            },
    {
        if cls.len() != CODE_POINTS {
            return Err(ModelError::ClassTable);
        }
        let mut ascii_id: [u32; 128] = [u32::MAX; 128];
        let mut char_id: FxHashMap<u32, u32> = FxHashMap::default();
        let n: usize = if char_cps.len() < char_ids.len() {
            char_cps.len()
        } else {
            char_ids.len()
        };
        let mut i: usize = 0;
        while i < n
            invariant
                i <= n <= char_cps@.len(),
                n <= char_ids@.len(),
                char_id@ == bind_all(char_cps@, char_ids@, i as int),
                forall|cp: u32|
                    cp < 128 ==> #[trigger] ascii_id@[cp as int] == (if char_id@.contains_key(cp) {
                        char_id@[cp]
                    } else {
                        u32::MAX
                    }),
            decreases n - i,
        {
            let cp: u32 = char_cps[i];
            let id: u32 = char_ids[i];
            if cp < 128 {
                ascii_id[cp as usize] = id;
            }
            map_insert(&mut char_id, cp, id);
            i = i + 1;
        }
        let mut merges: FxHashMap<u64, (u32, u32)> = FxHashMap::default();
        let mut j: usize = 0;
        assert(unpacked(merges@) =~= Map::empty());
        while j < merge_a.len()
            invariant
                j <= merge_a@.len(),
                merge_a@.len() <= merge_b@.len(),
                merge_a@.len() <= merge_rank@.len(),
                merge_a@.len() <= merge_out@.len(),
                unpacked(merges@) == merge_map(
                    merge_a@,
                    merge_b@,
                    merge_rank@,
                    merge_out@,
                    j as int,
                ),
            decreases merge_a@.len() - j,
        {
            let a: u32 = merge_a[j];
            let b: u32 = merge_b[j];
            let ghost before = merges@;
            map_insert(&mut merges, pack(a, b), (merge_rank[j], merge_out[j]));
            proof {
                assert forall|p: (u32, u32)| #[trigger]
                    pair_key(p.0, p.1) == pair_key(a, b) <==> p == (a, b) by {
                    lemma_pair_key(p.0, p.1, a, b);
                }
                assert(unpacked(merges@) =~= unpacked(before).insert(
                    (a, b),
                    (merge_rank@[j as int], merge_out@[j as int]),
                ));
            }
            j = j + 1;
        }
        let mut han_to_trad: FxHashSet<u32> = FxHashSet::default();
        let mut k: usize = 0;
        assert(han_to_trad@ =~= han_trad_keys@.take(0).to_set());
        while k < han_trad_keys.len()
            invariant
                k <= han_trad_keys@.len(),
                han_to_trad@ == han_trad_keys@.take(k as int).to_set(),
            decreases han_trad_keys@.len() - k,
        {
            set_insert(&mut han_to_trad, han_trad_keys[k]);
            proof {
                let now = han_trad_keys@.take(k + 1);
                assert(now =~= han_trad_keys@.take(k as int).push(han_trad_keys@[k as int]));
                assert(han_to_trad@ =~= now.to_set()) by {
                    assert forall|x: u32| now.to_set().contains(x) implies han_to_trad@.contains(
                        x,
                    ) by {
                        let q = choose|q: int| 0 <= q < now.len() && now[q] == x;
                        if q < k {
                            assert(han_trad_keys@.take(k as int)[q] == x);
                        }
                    }
                    assert forall|x: u32| han_to_trad@.contains(x) implies now.to_set().contains(
                        x,
                    ) by {
                        if x == han_trad_keys@[k as int] {
                            assert(now[k as int] == x);
                        } else {
                            let old_keys = han_trad_keys@.take(k as int);
                            let q = choose|q: int| 0 <= q < old_keys.len() && old_keys[q] == x;
                            assert(now[q] == x);
                        }
                    }
                }
            }
            k = k + 1;
        }
        assert(han_trad_keys@.take(k as int) =~= han_trad_keys@);
        let exclusive: bool = all_one_kind(&cls);
        let m = Model {
            cls,
            fold: zip_table(&fold_src, &fold_dst),
            han_fold: zip_table(&han_src, &han_dst),
            han_to_trad,
            ascii_id,
            char_id,
            merges,
            prefixes: affix_table(&prefixes),
            suffixes: affix_table(&suffixes),
            max_p,
            max_s,
            fold_case,
            fold_han,
            split_camel,
            punct_to_next,
            simd,
            exclusive,
            dec_prefix: prefixes,
            dec_suffix: suffixes,
            dec_core,
        };
        assert(m@.cls == m.cls@);
        assert(m.exclusive == m@.exclusive());
        Ok(m)
    }

    /// The class bits of a code point.
    pub fn class_of(&self, cp: u32) -> (c: u8)
        requires
            self.wf(),
            cp < CODE_POINTS,
        ensures
            c == self@.class(cp),
    {
        self.cls[cp as usize]
    }

    /// The class of the character that starts at byte `i`, and how many bytes it takes.
    pub fn class_at(&self, s: &[u8], i: usize) -> (r: (u8, usize))
        requires
            self.wf(),
            i < s@.len(),
            valid_first_scalar(s@.skip(i as int)),
        ensures
            r.0 == self@.class(decode_first_scalar(s@.skip(i as int))),
            r.1 == length_of_first_scalar(s@.skip(i as int)),
    {
        let (cp, l) = decode_at(s, i);
        proof {
            lemma_first_scalar_bound(s@.skip(i as int));
        }
        (self.class_of(cp), l)
    }

    /// The symbol that a code point starts out as.
    pub fn sym_of(&self, cp: u32) -> (sym: u32)
        requires
            self.wf(),
        ensures
            sym == self@.sym(cp),
    {
        if cp < 128 {
            let id: u32 = self.ascii_id[cp as usize];
            if id != u32::MAX {
                return id;
            }
            return OOA | cp;
        }
        match map_get(&self.char_id, &cp) {
            Some(id) => id,
            None => OOA | cp,
        }
    }

    /// The rank at which two symbols merge, and the symbol that they merge into.
    pub fn merge_of(&self, a: u32, b: u32) -> (r: Option<(u32, u32)>)
        ensures
            r == (if self@.merges.contains_key((a, b)) {
                Some(self@.merges[(a, b)])
            } else {
                None
            }),
    {
        map_get(&self.merges, &pack(a, b))
    }

    /// A code point's normal form, and the flag that says what was folded.
    pub fn fold_char(&self, cp: u32) -> (r: (u32, u8))
        ensures
            r == self@.folded(cp),
    {
        if self.fold_case {
            if 65 <= cp && cp <= 90 {
                return (cp + 32, F_UP);
            }
            if cp >= 128 {
                if let Some(lo) = map_get(&self.fold, &cp) {
                    return (lo, F_UP);
                }
            }
        }
        if self.fold_han {
            if let Some(s) = map_get(&self.han_fold, &cp) {
                return (s, F_TRAD);
            }
        }
        (cp, 0)
    }

    /// Whether the traditional variation changes a character.
    pub fn has_trad(&self, cp: u32) -> (r: bool)
        ensures
            r == self@.han_to_trad.contains(cp),
    {
        set_contains(&self.han_to_trad, &cp)
    }

    /// The id of a prefix.
    pub fn prefix_id(&self, prefix: &[u8]) -> (r: Option<u32>)
        ensures
            r == (if self@.prefixes.contains_key(prefix@) {
                Some(self@.prefixes[prefix@])
            } else {
                None
            }),
    {
        affix_get(&self.prefixes, prefix)
    }

    /// The id of a suffix.
    pub fn suffix_id(&self, suffix: &[u8]) -> (r: Option<u32>)
        ensures
            r == (if self@.suffixes.contains_key(suffix@) {
                Some(self@.suffixes[suffix@])
            } else {
                None
            }),
    {
        affix_get(&self.suffixes, suffix)
    }

    /// The bytes of a prefix id.
    pub fn prefix_bytes(&self, id: usize) -> (r: Option<&Vec<u8>>)
        ensures
            r is Some <==> id < self@.dec_prefix.len(),
            r matches Some(bytes) ==> bytes@ == self@.dec_prefix[id as int],
    {
        if id < self.dec_prefix.len() {
            Some(&self.dec_prefix[id])
        } else {
            None
        }
    }

    /// The bytes of a suffix id.
    pub fn suffix_bytes(&self, id: usize) -> (r: Option<&Vec<u8>>)
        ensures
            r is Some <==> id < self@.dec_suffix.len(),
            r matches Some(bytes) ==> bytes@ == self@.dec_suffix[id as int],
    {
        if id < self.dec_suffix.len() {
            Some(&self.dec_suffix[id])
        } else {
            None
        }
    }

    /// The bytes of a core in some variation.
    pub fn core_bytes(&self, variation: usize, core: usize) -> (r: Option<&Vec<u8>>)
        ensures
            r is Some <==> variation < self@.dec_core.len() && core
                < self@.dec_core[variation as int].len(),
            r matches Some(bytes) ==> bytes@ == self@.dec_core[variation as int][core as int],
    {
        if variation < self.dec_core.len() {
            let cores: &Vec<Vec<u8>> = &self.dec_core[variation];
            assert(self@.dec_core[variation as int] == bytes_of(cores@));
            if core < cores.len() {
                return Some(&cores[core]);
            }
        }
        None
    }

    /// The number of characters of the longest prefix.
    pub fn max_prefix(&self) -> (n: usize)
        ensures
            n == self@.max_p,
    {
        self.max_p
    }

    /// The number of characters of the longest suffix.
    pub fn max_suffix(&self) -> (n: usize)
        ensures
            n == self@.max_s,
    {
        self.max_s
    }

    /// Whether characters are folded before they are merged.
    pub fn folds(&self) -> (r: bool)
        ensures
            r == (self@.fold_case || self@.fold_han),
    {
        self.fold_case || self.fold_han
    }

    /// Whether words are cut at their camel humps.
    pub fn splits_camel(&self) -> (r: bool)
        ensures
            r == self@.split_camel,
    {
        self.split_camel
    }

    /// Whether punctuation after a word belongs to the next word.
    pub fn puts_punct_next(&self) -> (r: bool)
        ensures
            r == self@.punct_to_next,
    {
        self.punct_to_next
    }

    /// Whether texts may be scanned a block at a time.
    pub fn simd(&self) -> (r: bool)
        ensures
            r == self.scans_blocks(),
    {
        self.simd
    }

    /// Whether no code point is of two kinds.
    pub fn is_exclusive(&self) -> (r: bool)
        requires
            self.wf(),
        ensures
            r == self@.exclusive(),
    {
        self.exclusive
    }
}

/// What starts a UTF-8 text is a code point.
proof fn lemma_first_scalar_bound(s: Seq<u8>)
    requires
        s.len() > 0,
        valid_first_scalar(s),
    ensures
        decode_first_scalar(s) < CODE_POINTS,
{
    let b0 = s[0];
    let b1 = s[1];
    let b2 = s[2];
    assert((b0 & 0x7F) as u32 <= 0x7F) by (bit_vector);
    assert(((((b0 & 0x1F) as u32) << 6) | ((b1 & 0x3F) as u32)) <= 0x7FF) by (bit_vector);
    assert(((((b0 & 0x0F) as u32) << 12) | (((b1 & 0x3F) as u32) << 6) | ((b2 & 0x3F) as u32))
        <= 0xFFFF) by (bit_vector);
}

} // verus!
