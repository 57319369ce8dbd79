//! What the tables of a tokenizer say, and how they are read.
use crate::tok::{C_NUM, C_WORD, C_WS, F_TRAD, F_UP, OOA};
use vstd::prelude::*;

verus! {

/// The tables of a tokenizer, as mathematical objects.
#[verifier::ext_equal]
pub struct Tables {
    /// The class bits of each code point.
    pub cls: Seq<u8>,
    /// The lower-case letter of each capital beyond ASCII that a capital can be restored from.
    pub fold: Map<u32, u32>,
    /// The simplified form of each traditional Han character.
    pub han_fold: Map<u32, u32>,
    /// The characters that the traditional variation changes.
    pub han_to_trad: Set<u32>,
    /// The core of each character of the core alphabet.
    pub char_id: Map<u32, u32>,
    /// The rank at which two adjacent symbols merge, and the symbol that they merge into.
    pub merges: Map<(u32, u32), (u32, u32)>,
    /// The id of each prefix, by its bytes.
    pub prefixes: Map<Seq<u8>, u32>,
    /// The id of each suffix, by its bytes.
    pub suffixes: Map<Seq<u8>, u32>,
    /// The number of characters of the longest prefix.
    pub max_p: nat,
    /// The number of characters of the longest suffix.
    pub max_s: nat,
    /// Whether capitals are folded into a variation.
    pub fold_case: bool,
    /// Whether traditional Han characters are folded into a variation.
    pub fold_han: bool,
    /// Whether words are cut at their camel humps.
    pub split_camel: bool,
    /// Whether punctuation after a word belongs to the next word.
    pub punct_to_next: bool,
    /// The bytes of each prefix id.
    pub dec_prefix: Seq<Seq<u8>>,
    /// The bytes of each suffix id.
    pub dec_suffix: Seq<Seq<u8>>,
    /// The bytes of each core, for each variation.
    pub dec_core: Seq<Seq<Seq<u8>>>,
}

/// The map that binds `src[i]` to `dst[i]` for each `i` below `n`, the last binding of a key being
/// the one that counts.
pub open spec fn bind_all(src: Seq<u32>, dst: Seq<u32>, n: int) -> Map<u32, u32>
    decreases n,
{
    if n <= 0 {
        Map::empty()
    } else {
        bind_all(src, dst, n - 1).insert(src[n - 1], dst[n - 1])
    }
}

/// The map that binds `src[i]` to `dst[i]` as far as both reach.
pub open spec fn zip_map(src: Seq<u32>, dst: Seq<u32>) -> Map<u32, u32> {
    bind_all(
        src,
        dst,
        if src.len() < dst.len() {
            src.len() as int
        } else {
            dst.len() as int
        },
    )
}

/// The first `n` merges: the last rank given for a pair is the one that counts.
pub open spec fn merge_map(
    a: Seq<u32>,
    b: Seq<u32>,
    rank: Seq<u32>,
    out: Seq<u32>,
    n: int,
) -> Map<(u32, u32), (u32, u32)>
    decreases n,
{
    if n <= 0 {
        Map::empty()
    } else {
        merge_map(a, b, rank, out, n - 1).insert((a[n - 1], b[n - 1]), (rank[n - 1], out[n - 1]))
    }
}

/// The ids of the first `n` affixes of a list: an affix's id is its index. The empty affix is not
/// looked up, so it has none.
pub open spec fn affix_map(list: Seq<Seq<u8>>, n: int) -> Map<Seq<u8>, u32>
    decreases n,
{
    if n <= 0 {
        Map::empty()
    } else if list[n - 1].len() == 0 {
        affix_map(list, n - 1)
    } else {
        affix_map(list, n - 1).insert(list[n - 1], (n - 1) as u32)
    }
}

/// The bytes in a list of byte strings.
pub open spec fn bytes_of(list: Seq<Vec<u8>>) -> Seq<Seq<u8>> {
    list.map_values(|v: Vec<u8>| v@)
}

/// The bytes in a list of lists of byte strings.
pub open spec fn bytes_of_all(list: Seq<Vec<Vec<u8>>>) -> Seq<Seq<Seq<u8>>> {
    list.map_values(|v: Vec<Vec<u8>>| bytes_of(v@))
}

/// Whether a class is of at most one kind among letters, digits and white space.
pub open spec fn one_kind(c: u8) -> bool {
    &&& c & C_WORD != 0 ==> c & C_NUM == 0 && c & C_WS == 0
    &&& c & C_NUM != 0 ==> c & C_WS == 0
}

impl Tables {
    /// Whether no code point is of two kinds.
    pub open spec fn exclusive(self) -> bool {
        forall|cp: int| 0 <= cp < self.cls.len() ==> one_kind(#[trigger] self.cls[cp])
    }

    /// The class bits of a code point.
    pub open spec fn class(self, cp: u32) -> u8 {
        self.cls[cp as int]
    }

    /// The classes of the characters of a text.
    pub open spec fn classes(self, text: Seq<char>) -> Seq<u8> {
        text.map_values(|c: char| self.class(c as u32))
    }

    /// The symbol that a code point starts out as: its core, or the flagged code point. The
    /// largest id of all is no core of an ASCII character.
    pub open spec fn sym(self, cp: u32) -> u32 {
        if self.char_id.contains_key(cp) && !(cp < 128 && self.char_id[cp] == u32::MAX) {
            self.char_id[cp]
        } else {
            OOA | cp
        }
    }

    /// The symbols that code points start out as.
    pub open spec fn syms(self, cps: Seq<u32>) -> Seq<u32> {
        cps.map_values(|cp: u32| self.sym(cp))
    }

    /// The lower-case letter that a capital folds into.
    pub open spec fn lower(self, cp: u32) -> Option<u32> {
        if self.fold_case && 'A' as u32 <= cp <= 'Z' as u32 {
            Some((cp + 32) as u32)
        } else if self.fold_case && cp >= 128 && self.fold.contains_key(cp) {
            Some(self.fold[cp])
        } else {
            None
        }
    }

    /// The simplified character that a traditional Han character folds into.
    pub open spec fn simplified(self, cp: u32) -> Option<u32> {
        if self.fold_han && self.han_fold.contains_key(cp) {
            Some(self.han_fold[cp])
        } else {
            None
        }
    }

    /// A code point's normal form, and the flag that says what was folded.
    pub open spec fn folded(self, cp: u32) -> (u32, u8) {
        match self.lower(cp) {
            Some(lo) => (lo, F_UP),
            None => match self.simplified(cp) {
                Some(s) => (s, F_TRAD),
                None => (cp, 0),
            },
        }
    }

    /// The normal forms of code points.
    pub open spec fn norms(self, cps: Seq<u32>) -> Seq<u32> {
        cps.map_values(|cp: u32| self.folded(cp).0)
    }

    /// The fold flags of code points.
    pub open spec fn flags(self, cps: Seq<u32>) -> Seq<u8> {
        cps.map_values(|cp: u32| self.folded(cp).1)
    }
}

} // verus!
