//! Decoding tables that hold what variations say: with them every text is restored.
use crate::batch::rows;
use crate::bpe::outside;
use crate::decode::DecodeError;
use crate::tables::{affix_map, Tables};
use crate::utf8::spell;
use vstd::prelude::*;
use vstd::utf8::encode_utf8;

verus! {

/// A character in the form that a table gives for it, or as it is.
pub open spec fn swapped(table: Map<u32, u32>, cp: u32) -> u32 {
    if table.contains_key(cp) {
        table[cp]
    } else {
        cp
    }
}

/// Characters in the forms that a table gives for them.
pub open spec fn all_swapped(table: Map<u32, u32>, cps: Seq<u32>) -> Seq<u32> {
    cps.map_values(|cp: u32| swapped(table, cp))
}

impl Tables {
    /// Whether capitals and traditional characters can be told from what they are folded into:
    /// `upper` has the capital of each letter that one is folded into, `trad` the traditional
    /// character of each one that is simplified.
    pub open spec fn unfolds(self, upper: Map<u32, u32>, trad: Map<u32, u32>) -> bool {
        &&& self.fold_case ==> forall|cp: u32|
            65 <= cp <= 90 ==> upper.contains_key((cp + 32) as u32) && #[trigger] upper[(cp
                + 32) as u32] == cp
        &&& self.fold_case ==> forall|cp: u32|
            cp >= 128 && #[trigger] self.fold.contains_key(cp) ==> upper.contains_key(self.fold[cp])
                && upper[self.fold[cp]] == cp
        &&& self.fold_han ==> forall|cp: u32| #[trigger]
            self.han_fold.contains_key(cp) ==> trad.contains_key(self.han_fold[cp])
                && trad[self.han_fold[cp]] == cp
        &&& self.han_to_trad == trad.dom()
    }

    /// Whether the decoding tables hold, for each core, its characters as they are, with the first
    /// one as a capital, in capitals, and in traditional characters.
    pub open spec fn decodes_literally(
        self,
        spelling: Map<u32, Seq<u32>>,
        upper: Map<u32, u32>,
        trad: Map<u32, u32>,
    ) -> bool {
        &&& self.dec_core.len() == 4
        &&& self.dec_core[0].len() >= 256
        &&& forall|b: u8| #[trigger] self.dec_core[0][b as int] == seq![b]
        &&& forall|id: u32| #[trigger]
            spelling.contains_key(id) ==> {
                let cps = spelling[id];
                &&& cps.len() > 0
                &&& id < self.dec_core[0].len()
                &&& id < self.dec_core[1].len()
                &&& id < self.dec_core[2].len()
                &&& id < self.dec_core[3].len()
                &&& self.dec_core[0][id as int] == spell(cps)
                &&& self.dec_core[1][id as int] == spell(cps.update(0, swapped(upper, cps[0])))
                &&& self.dec_core[2][id as int] == spell(all_swapped(upper, cps))
                &&& self.dec_core[3][id as int] == spell(all_swapped(trad, cps))
            }
    }

    /// Whether each core stands for characters: that of a character for it, a merged one for what
    /// its two parts stand for.
    pub open spec fn cores_spell(self, spelling: Map<u32, Seq<u32>>) -> bool {
        &&& forall|cp: u32| #[trigger]
            self.char_id.contains_key(cp) ==> {
                &&& self.char_id[cp] < 0x8000_0000
                &&& spelling.contains_key(self.char_id[cp])
                &&& spelling[self.char_id[cp]] == seq![cp]
            }
        &&& forall|a: u32, b: u32|
            #![trigger self.merges.contains_key((a, b))]
            self.merges.contains_key((a, b)) && spelling.contains_key(a) && spelling.contains_key(b)
                ==> {
                let m = self.merges[(a, b)].1;
                &&& m < 0x8000_0000
                &&& spelling.contains_key(m)
                &&& spelling[m] == spelling[a] + spelling[b]
            }
    }

    /// Whether affixes are looked up by what they decode to, the first one of each list being
    /// empty.
    pub open spec fn affixes_decode(self) -> bool {
        &&& self.prefixes == affix_map(self.dec_prefix, self.dec_prefix.len() as int)
        &&& self.suffixes == affix_map(self.dec_suffix, self.dec_suffix.len() as int)
        &&& 0 < self.dec_prefix.len() <= 0x8000_0000
        &&& 0 < self.dec_suffix.len() <= 0x8000_0000
        &&& self.dec_prefix[0].len() == 0
        &&& self.dec_suffix[0].len() == 0
    }

    /// Folding and then applying the variation gives the characters back.
    proof fn lemma_variation_restores(
        self,
        upper: Map<u32, u32>,
        trad: Map<u32, u32>,
        cps: Seq<u32>,
        v: u32,
    )
        requires
            self.unfolds(upper, trad),
            cps.len() > 0,
            self.variation(self.norms(cps), self.flags(cps)) == Some(v),
        ensures
            v <= 3,
            v == 0 ==> cps == self.norms(cps),
            v == 1 ==> cps == self.norms(cps).update(0, swapped(upper, self.norms(cps)[0])),
            v == 2 ==> cps == all_swapped(upper, self.norms(cps)),
            v == 3 ==> cps == all_swapped(trad, self.norms(cps)),
    {
        let norm = self.norms(cps);
        let flags = self.flags(cps);
        assert forall|i: int| 0 <= i < cps.len() implies {
            &&& #[trigger] flags[i] <= 2
            &&& flags[i] == 0 ==> norm[i] == cps[i]
            &&& flags[i] == 1 ==> swapped(upper, norm[i]) == cps[i]
            &&& flags[i] == 2 ==> swapped(trad, norm[i]) == cps[i]
        } by {
            let cp = cps[i];
            self.law_fold(cp);
            assert((norm[i], flags[i]) == self.folded(cp));
            if self.fold_case && 65 <= cp <= 90 {
                assert(upper[(cp + 32) as u32] == cp);
            } else if self.fold_case && cp >= 128 && self.fold.contains_key(cp) {
                assert(upper[self.fold[cp]] == cp);
            } else if self.fold_han && self.han_fold.contains_key(cp) {
                assert(trad[self.han_fold[cp]] == cp);
            }
        }
        self.law_variation(norm, flags);
        if v == 0 {
            assert forall|i: int| 0 <= i < cps.len() implies cps[i] == norm[i] by {
                assert(flags[i] == 0);
            }
            assert(cps =~= norm);
        } else if v == 1 {
            let now = norm.update(0, swapped(upper, norm[0]));
            assert forall|i: int| 0 <= i < cps.len() implies cps[i] == now[i] by {
                assert(flags[i] == (if i == 0 {
                    1u8
                } else {
                    0u8
                }));
            }
            assert(cps =~= now);
        } else if v == 2 {
            let now = all_swapped(upper, norm);
            assert forall|i: int| 0 <= i < cps.len() implies cps[i] == now[i] by {
                assert(flags[i] == 1);
            }
            assert(cps =~= now);
        } else {
            let now = all_swapped(trad, norm);
            assert forall|i: int| 0 <= i < cps.len() implies cps[i] == now[i] by {
                assert(flags[i] == 2 || (flags[i] == 0 && !self.han_to_trad.contains(norm[i])));
            }
            assert(cps =~= now);
        }
    }

    /// Decoding undoes encoding, for every text and cores of any length, if folding can be undone
    /// and the decoding tables hold what the variations say: the characters of a core as they are,
    /// with a capital, in capitals, and in traditional characters.
    pub proof fn law_literal_round_trip(
        self,
        spelling: Map<u32, Seq<u32>>,
        upper: Map<u32, u32>,
        trad: Map<u32, u32>,
        text: Seq<char>,
    )
        requires
            self.affixes_decode(),
            self.cores_spell(spelling),
            self.unfolds(upper, trad),
            self.decodes_literally(spelling, upper, trad),
        ensures
            self.faithful(spelling),
            self.decode(rows(self.encode(text))) == Ok::<Seq<u8>, DecodeError>(encode_utf8(text)),
    {
        assert forall|a: u32, b: u32| #[trigger]
            self.mergeable(a, b) && spelling.contains_key(a) && spelling.contains_key(b) implies {
            let m = self.merges[(a, b)].1;
            &&& !outside(m)
            &&& spelling.contains_key(m)
            &&& spelling[m] == spelling[a] + spelling[b]
        } by {
            assert(self.merges.contains_key((a, b)));
        }
        assert forall|id: u32, cps: Seq<u32>|
            #![trigger spelling.contains_key(id), self.norms(cps)]
            spelling.contains_key(id) && !outside(id) && self.norms(cps)
                == spelling[id] implies (match self.variation(self.norms(cps), self.flags(cps)) {
            Some(v) => v < self.dec_core.len() && id < self.dec_core[v as int].len()
                && self.dec_core[v as int][id as int] == spell(cps),
            None => true,
        }) by {
            if let Some(v) = self.variation(self.norms(cps), self.flags(cps)) {
                assert(self.norms(cps).len() == cps.len());
                self.lemma_variation_restores(upper, trad, cps, v);
            }
        }
        self.law_round_trip(spelling, text);
    }
}

} // verus!
