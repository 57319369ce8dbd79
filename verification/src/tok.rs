//! Tokens, and the constants that the tables and the tokens share.
use vstd::prelude::*;

verus! {

/// Class bit of letters and marks.
pub const C_WORD: u8 = 1;

/// Class bit of digits.
pub const C_NUM: u8 = 2;

/// Class bit of white space.
pub const C_WS: u8 = 4;

/// Class bit of lower-case letters.
pub const C_LL: u8 = 8;

/// Class bit of upper-case letters.
pub const C_LU: u8 = 16;

/// Flag of a symbol that stands for a character outside the core alphabet. The bits below it are
/// the character's code point.
pub const OOA: u32 = 0x8000_0000;

/// Fold flag of a character that was lower-cased.
pub const F_UP: u8 = 1;

/// Fold flag of a traditional Han character that was simplified.
pub const F_TRAD: u8 = 2;

/// The core's spelling as it stands.
pub const V_NONE: u32 = 0;

/// The core's spelling with a capital first letter.
pub const V_CAP: u32 = 1;

/// The core's spelling in capitals.
pub const V_UPPER: u32 = 2;

/// The core's spelling in traditional Han characters.
pub const V_TRAD: u32 = 3;

/// One token: a core, how its spelling is varied, and the affixes that it carries.
#[derive(Clone, Copy, Debug, PartialEq, Eq, Structural)]
pub struct Tok {
    pub variation: u32,
    pub prefix: u32,
    pub core: u32,
    pub suffix: u32,
}

/// The token of a core in some variation, without affixes.
pub open spec fn core_tok(variation: u32, core: u32) -> Tok {
    Tok { variation, prefix: 0, core, suffix: 0 }
}

/// One token for each byte: the first 256 cores stand for single bytes.
pub open spec fn byte_toks(bytes: Seq<u8>) -> Seq<Tok> {
    bytes.map_values(|b: u8| core_tok(V_NONE, b as u32))
}

} // verus!
