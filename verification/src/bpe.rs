//! Byte-pair encoding: the lowest-ranked pair of adjacent symbols merges, wherever it stands, until
//! no pair is left that merges.
use crate::model::Model;
use crate::tables::Tables;
use crate::tok::OOA;
use vstd::prelude::*;

verus! {

/// Whether a symbol stands for a character outside the core alphabet.
pub open spec fn outside(sym: u32) -> bool {
    sym >= OOA
}

/// The symbols after the pair `(a, b)` has been replaced by `m`, from left to right.
pub open spec fn merge_all(syms: Seq<u32>, a: u32, b: u32, m: u32) -> Seq<u32>
    decreases syms.len(),
{
    if syms.len() < 2 {
        syms
    } else if syms[0] == a && syms[1] == b {
        seq![m] + merge_all(syms.skip(2), a, b, m)
    } else {
        seq![syms[0]] + merge_all(syms.skip(1), a, b, m)
    }
}

/// How many characters each symbol covers after that replacement.
pub open spec fn merge_lens(syms: Seq<u32>, lens: Seq<nat>, a: u32, b: u32) -> Seq<nat>
    decreases syms.len(),
{
    if syms.len() < 2 {
        lens
    } else if syms[0] == a && syms[1] == b {
        seq![lens[0] + lens[1]] + merge_lens(syms.skip(2), lens.skip(2), a, b)
    } else {
        seq![lens[0]] + merge_lens(syms.skip(1), lens.skip(1), a, b)
    }
}

/// The sum of lengths.
pub open spec fn total(lens: Seq<nat>) -> nat
    decreases lens.len(),
{
    if lens.len() == 0 {
        0
    } else {
        lens[0] + total(lens.skip(1))
    }
}

/// Machine integers as numbers.
pub open spec fn nats(v: Seq<usize>) -> Seq<nat> {
    v.map_values(|x: usize| x as nat)
}

impl Tables {
    /// Whether two adjacent symbols merge.
    pub open spec fn mergeable(self, a: u32, b: u32) -> bool {
        &&& !outside(a)
        &&& !outside(b)
        &&& self.merges.contains_key((a, b))
        &&& self.merges[(a, b)].0 < u32::MAX
    }

    /// Whether the symbols at `i` and `i + 1` merge.
    pub open spec fn merges_at(self, syms: Seq<u32>, i: int) -> bool {
        0 <= i < syms.len() - 1 && self.mergeable(syms[i], syms[i + 1])
    }

    /// The rank at which the symbols at `i` and `i + 1` merge.
    pub open spec fn rank_at(self, syms: Seq<u32>, i: int) -> u32 {
        self.merges[(syms[i], syms[i + 1])].0
    }

    /// Whether the pair at `i` has the lowest rank, and is the leftmost one that has it.
    pub open spec fn best_at(self, syms: Seq<u32>, i: int) -> bool {
        &&& self.merges_at(syms, i)
        &&& forall|j: int| #[trigger]
            self.merges_at(syms, j) ==> self.rank_at(syms, i) <= self.rank_at(syms, j) && (j < i
                ==> self.rank_at(syms, i) < self.rank_at(syms, j))
    }

    /// The symbols after the lowest-ranked pair at `i` has merged everywhere.
    pub open spec fn merged_once(self, syms: Seq<u32>, i: int) -> Seq<u32> {
        merge_all(syms, syms[i], syms[i + 1], self.merges[(syms[i], syms[i + 1])].1)
    }

    /// The symbols that are left when nothing merges any more.
    pub open spec fn bpe(self, syms: Seq<u32>) -> Seq<u32>
        decreases syms.len(),
    {
        if exists|i: int| self.best_at(syms, i) {
            let i = choose|i: int| self.best_at(syms, i);
            proof {
                lemma_merge_shrinks(
                    syms,
                    syms[i],
                    syms[i + 1],
                    self.merges[(syms[i], syms[i + 1])].1,
                    i,
                );
            }
            self.bpe(self.merged_once(syms, i))
        } else {
            syms
        }
    }

    /// How many characters each of those symbols covers.
    pub open spec fn bpe_lens(self, syms: Seq<u32>, lens: Seq<nat>) -> Seq<nat>
        decreases syms.len(),
    {
        if exists|i: int| self.best_at(syms, i) {
            let i = choose|i: int| self.best_at(syms, i);
            proof {
                lemma_merge_shrinks(
                    syms,
                    syms[i],
                    syms[i + 1],
                    self.merges[(syms[i], syms[i + 1])].1,
                    i,
                );
            }
            self.bpe_lens(self.merged_once(syms, i), merge_lens(syms, lens, syms[i], syms[i + 1]))
        } else {
            lens
        }
    }

    /// Some pair merges only if some pair merges first.
    pub proof fn lemma_best_exists(self, syms: Seq<u32>, i: int) -> (b: int)
        requires
            self.merges_at(syms, i),
        ensures
            self.best_at(syms, b),
    {
        self.lemma_best_below(syms, syms.len() as int, i)
    }

    proof fn lemma_best_below(self, syms: Seq<u32>, n: int, i: int) -> (b: int)
        requires
            0 <= i < n <= syms.len(),
            self.merges_at(syms, i),
        ensures
            0 <= b < n,
            self.merges_at(syms, b),
            forall|j: int|
                j < n && #[trigger] self.merges_at(syms, j) ==> self.rank_at(syms, b)
                    <= self.rank_at(syms, j) && (j < b ==> self.rank_at(syms, b) < self.rank_at(
                    syms,
                    j,
                )),
        decreases n,
    {
        if exists|k: int| 0 <= k < n - 1 && self.merges_at(syms, k) {
            let k = choose|k: int| 0 <= k < n - 1 && self.merges_at(syms, k);
            let b = self.lemma_best_below(syms, n - 1, k);
            if self.merges_at(syms, n - 1) && self.rank_at(syms, n - 1) < self.rank_at(syms, b) {
                n - 1
            } else {
                b
            }
        } else {
            assert forall|j: int| j < n && #[trigger] self.merges_at(syms, j) implies j == i by {
                if j < n - 1 {
                    assert(0 <= j < n - 1 && self.merges_at(syms, j));
                }
                if i < n - 1 {
                    assert(0 <= i < n - 1 && self.merges_at(syms, i));
                }
            }
            i
        }
    }

    /// The best pair is unique.
    pub proof fn lemma_best_unique(self, syms: Seq<u32>, i: int, j: int)
        requires
            self.best_at(syms, i),
            self.best_at(syms, j),
        ensures
            i == j,
    {
    }

    /// What byte-pair encoding keeps: one length for each symbol, and their sum.
    pub proof fn lemma_bpe_lens(self, syms: Seq<u32>, lens: Seq<nat>)
        requires
            syms.len() == lens.len(),
        ensures
            self.bpe(syms).len() == self.bpe_lens(syms, lens).len(),
            self.bpe(syms).len() <= syms.len(),
            syms.len() > 0 ==> self.bpe(syms).len() > 0,
            total(self.bpe_lens(syms, lens)) == total(lens),
            (forall|k: int| 0 <= k < lens.len() ==> #[trigger] lens[k] > 0) ==> (forall|k: int|
                0 <= k < self.bpe_lens(syms, lens).len() ==> #[trigger] self.bpe_lens(
                    syms,
                    lens,
                )[k] > 0),
        decreases syms.len(),
    {
        if exists|i: int| self.best_at(syms, i) {
            let i = choose|i: int| self.best_at(syms, i);
            let (a, b) = (syms[i], syms[i + 1]);
            let m = self.merges[(a, b)].1;
            lemma_merge_shrinks(syms, a, b, m, i);
            lemma_merge_lens(syms, lens, a, b, m);
            self.lemma_bpe_lens(self.merged_once(syms, i), merge_lens(syms, lens, a, b));
        }
    }
}

/// Replacing a pair that stands somewhere leaves fewer symbols.
pub proof fn lemma_merge_shrinks(syms: Seq<u32>, a: u32, b: u32, m: u32, i: int)
    requires
        0 <= i < syms.len() - 1,
        syms[i] == a,
        syms[i + 1] == b,
    ensures
        merge_all(syms, a, b, m).len() < syms.len(),
        merge_all(syms, a, b, m).len() > 0,
    decreases syms.len(),
{
    if syms[0] == a && syms[1] == b {
        lemma_merge_len(syms.skip(2), a, b, m);
    } else {
        lemma_merge_shrinks(syms.skip(1), a, b, m, i - 1);
    }
}

proof fn lemma_merge_len(syms: Seq<u32>, a: u32, b: u32, m: u32)
    ensures
        merge_all(syms, a, b, m).len() <= syms.len(),
    decreases syms.len(),
{
    if syms.len() >= 2 {
        if syms[0] == a && syms[1] == b {
            lemma_merge_len(syms.skip(2), a, b, m);
        } else {
            lemma_merge_len(syms.skip(1), a, b, m);
        }
    }
}

/// Replacing a pair keeps one length for each symbol, and their sum.
proof fn lemma_merge_lens(syms: Seq<u32>, lens: Seq<nat>, a: u32, b: u32, m: u32)
    requires
        syms.len() == lens.len(),
    ensures
        merge_lens(syms, lens, a, b).len() == merge_all(syms, a, b, m).len(),
        total(merge_lens(syms, lens, a, b)) == total(lens),
        (forall|k: int| 0 <= k < lens.len() ==> #[trigger] lens[k] > 0) ==> (forall|k: int|
            0 <= k < merge_lens(syms, lens, a, b).len() ==> #[trigger] merge_lens(
                syms,
                lens,
                a,
                b,
            )[k] > 0),
    decreases syms.len(),
{
    if syms.len() >= 2 {
        let out = merge_lens(syms, lens, a, b);
        if syms[0] == a && syms[1] == b {
            lemma_merge_lens(syms.skip(2), lens.skip(2), a, b, m);
            assert(lens.skip(1).skip(1) =~= lens.skip(2));
            assert(total(lens.skip(1)) == lens[1] + total(lens.skip(2)));
            assert(out.skip(1) =~= merge_lens(syms.skip(2), lens.skip(2), a, b));
        } else {
            lemma_merge_lens(syms.skip(1), lens.skip(1), a, b, m);
            assert(out.skip(1) =~= merge_lens(syms.skip(1), lens.skip(1), a, b));
        }
    }
}

/// Two adjacent lengths are within the sum.
proof fn lemma_total_pair(lens: Seq<nat>, i: int)
    requires
        0 <= i < lens.len() - 1,
    ensures
        lens[i] + lens[i + 1] <= total(lens),
    decreases lens.len(),
{
    if i == 0 {
        assert(total(lens.skip(1)) == lens[1] + total(lens.skip(1).skip(1)));
    } else {
        lemma_total_pair(lens.skip(1), i - 1);
    }
}

/// The test of a symbol's flag.
pub proof fn lemma_outside(sym: u32)
    ensures
        outside(sym) <==> sym & OOA != 0,
        outside(sym) ==> sym & !OOA == sym - OOA,
        !outside(sym) ==> sym & !OOA == sym,
        outside(OOA | sym),
        !outside(sym) ==> (OOA | sym) == OOA + sym,
{
    assert(sym >= 0x8000_0000 <==> sym & 0x8000_0000 != 0) by (bit_vector);
    assert(sym >= 0x8000_0000 ==> sym & !0x8000_0000u32 == sym - 0x8000_0000) by (bit_vector);
    assert(sym < 0x8000_0000 ==> sym & !0x8000_0000u32 == sym) by (bit_vector);
    assert(0x8000_0000 | sym >= 0x8000_0000) by (bit_vector);
    assert(sym < 0x8000_0000 ==> 0x8000_0000 | sym == 0x8000_0000 + sym) by (bit_vector);
}

impl Model {
    /// The lowest-ranked pair of adjacent symbols, and what it merges into.
    fn best_pair(&self, syms: &Vec<u32>) -> (r: Option<(u32, u32, u32)>)
        ensures
            r matches Some(p) ==> exists|i: int| #[trigger]
                self@.best_at(syms@, i) && p == (
                    syms@[i],
                    syms@[i + 1],
                    self@.merges[(syms@[i], syms@[i + 1])].1,
                ),
            r is None ==> !exists|i: int| self@.best_at(syms@, i),
    {
        let mut best: u32 = u32::MAX;
        let mut pair: (u32, u32, u32) = (0, 0, 0);
        let ghost mut at: int = 0;
        let n: usize = syms.len();
        let mut i: usize = 0;
        while i + 1 < n
            invariant
                n == syms@.len(),
                i == 0 || i < n,
                best == u32::MAX ==> forall|j: int|
                    j < i ==> !#[trigger] self@.merges_at(syms@, j),
                best < u32::MAX ==> {
                    &&& 0 <= at < i
                    &&& self@.merges_at(syms@, at)
                    &&& best == self@.rank_at(syms@, at)
                    &&& pair == (
                        syms@[at],
                        syms@[at + 1],
                        self@.merges[(syms@[at], syms@[at + 1])].1,
                    )
                    &&& forall|j: int|
                        j < i && #[trigger] self@.merges_at(syms@, j) ==> best <= self@.rank_at(
                            syms@,
                            j,
                        ) && (j < at ==> best < self@.rank_at(syms@, j))
                },
            decreases syms@.len() - i,
        {
            let a: u32 = syms[i];
            let b: u32 = syms[i + 1];
            assert((a | b) & 0x8000_0000 != 0 <==> a & 0x8000_0000 != 0 || b & 0x8000_0000 != 0)
                by (bit_vector);
            proof {
                lemma_outside(a);
                lemma_outside(b);
            }
            if (a | b) & OOA == 0 {
                if let Some((r, m)) = self.merge_of(a, b) {
                    if r < best {
                        best = r;
                        pair = (a, b, m);
                        proof {
                            at = i as int;
                        }
                    }
                }
            }
            i = i + 1;
        }
        if best == u32::MAX {
            None
        } else {
            assert(self@.best_at(syms@, at));
            Some(pair)
        }
    }

    /// Merges the symbols as far as they merge, and keeps count of the characters that each one
    /// covers.
    pub fn bpe_lens(&self, syms: &mut Vec<u32>, lens: &mut Vec<usize>)
        requires
            old(syms)@.len() == old(lens)@.len(),
            total(nats(old(lens)@)) <= usize::MAX,
        ensures
            final(syms)@ == self@.bpe(old(syms)@),
            nats(final(lens)@) == self@.bpe_lens(old(syms)@, nats(old(lens)@)),
            final(lens)@.len() == final(syms)@.len(),
    {
        loop
            invariant
                syms@.len() == lens@.len(),
                total(nats(lens@)) <= usize::MAX,
                self@.bpe(old(syms)@) == self@.bpe(syms@),
                self@.bpe_lens(old(syms)@, nats(old(lens)@)) == self@.bpe_lens(
                    syms@,
                    nats(lens@),
                ),
            decreases syms@.len(),
        {
            match self.best_pair(syms) {
                None => {
                    return;
                },
                Some((a, b, m)) => {
                    let ghost at = choose|i: int| #[trigger]
                        self@.best_at(syms@, i) && (a, b, m) == (
                            syms@[i],
                            syms@[i + 1],
                            self@.merges[(syms@[i], syms@[i + 1])].1,
                        );
                    proof {
                        let i = choose|i: int| self@.best_at(syms@, i);
                        self@.lemma_best_unique(syms@, i, at);
                        lemma_merge_shrinks(syms@, a, b, m, at);
                        lemma_merge_lens(syms@, nats(lens@), a, b, m);
                    }
                    merge_pass(syms, lens, a, b, m);
                },
            }
        }
    }

    /// Merges the symbols as far as they merge.
    pub fn bpe(&self, syms: &mut Vec<u32>)
        ensures
            final(syms)@ == self@.bpe(old(syms)@),
    {
        let mut lens: Vec<usize> = Vec::new();
        let mut i: usize = 0;
        while i < syms.len()
            invariant
                i <= syms@.len(),
                lens@.len() == i,
                forall|k: int| 0 <= k < i ==> #[trigger] lens@[k] == 0,
                syms@ == old(syms)@,
            decreases syms@.len() - i,
        {
            lens.push(0);
            i = i + 1;
        }
        proof {
            lemma_total_zero(nats(lens@));
        }
        self.bpe_lens(syms, &mut lens);
    }
}

proof fn lemma_total_zero(lens: Seq<nat>)
    requires
        forall|k: int| 0 <= k < lens.len() ==> #[trigger] lens[k] == 0,
    ensures
        total(lens) == 0,
    decreases lens.len(),
{
    if lens.len() > 0 {
        lemma_total_zero(lens.skip(1));
    }
}

/// One pass from left to right that replaces the pair `(a, b)` by `m`, in place.
fn merge_pass(syms: &mut Vec<u32>, lens: &mut Vec<usize>, a: u32, b: u32, m: u32)
    requires
        old(syms)@.len() == old(lens)@.len(),
        total(nats(old(lens)@)) <= usize::MAX,
    ensures
        final(syms)@ == merge_all(old(syms)@, a, b, m),
        nats(final(lens)@) == merge_lens(old(syms)@, nats(old(lens)@), a, b),
        final(lens)@.len() == final(syms)@.len(),
{
    let n: usize = syms.len();
    let mut i: usize = 0;
    let mut o: usize = 0;
    let ghost syms0 = syms@;
    let ghost lens0 = nats(lens@);
    proof {
        assert(syms0.skip(0) =~= syms0);
        assert(lens0.skip(0) =~= lens0);
        assert(syms@.take(0) + merge_all(syms0, a, b, m) =~= merge_all(syms0, a, b, m));
        assert(nats(lens@.take(0)) + merge_lens(syms0, lens0, a, b) =~= merge_lens(
            syms0,
            lens0,
            a,
            b,
        ));
    }
    while i < n
        invariant
            o <= i <= n,
            n == syms0.len() == lens0.len(),
            syms@.len() == n,
            lens@.len() == n,
            total(lens0) <= usize::MAX,
            forall|k: int| i <= k < n ==> #[trigger] syms@[k] == syms0[k],
            forall|k: int| i <= k < n ==> #[trigger] lens@[k] == lens0[k],
            merge_all(syms0, a, b, m) == syms@.take(o as int) + merge_all(
                syms0.skip(i as int),
                a,
                b,
                m,
            ),
            merge_lens(syms0, lens0, a, b) == nats(lens@.take(o as int)) + merge_lens(
                syms0.skip(i as int),
                lens0.skip(i as int),
                a,
                b,
            ),
        decreases n - i,
    {
        let ghost syms1 = syms@;
        let ghost lens1 = lens@;
        let ghost rest = syms0.skip(i as int);
        let ghost lrest = lens0.skip(i as int);
        assert(rest[0] == syms1[i as int]);
        if i + 1 < n && syms[i] == a && syms[i + 1] == b {
            proof {
                lemma_total_pair(lens0, i as int);
                assert(rest[1] == syms1[i + 1]);
                assert(rest.skip(2) =~= syms0.skip(i + 2));
                assert(lrest.skip(2) =~= lens0.skip(i + 2));
            }
            let l: usize = lens[i] + lens[i + 1];
            syms[o] = m;
            lens[o] = l;
            proof {
                assert(merge_all(rest, a, b, m) == seq![m] + merge_all(rest.skip(2), a, b, m));
                assert(syms@.take(o + 1) =~= syms1.take(o as int) + seq![m]);
                assert(nats(lens@.take(o + 1)) =~= nats(lens1.take(o as int)) + seq![l as nat]);
                assert(syms1.take(o as int) + (seq![m] + merge_all(rest.skip(2), a, b, m))
                    =~= syms@.take(o + 1) + merge_all(rest.skip(2), a, b, m));
                assert(nats(lens1.take(o as int)) + (seq![l as nat] + merge_lens(
                    rest.skip(2),
                    lrest.skip(2),
                    a,
                    b,
                )) =~= nats(lens@.take(o + 1)) + merge_lens(rest.skip(2), lrest.skip(2), a, b));
            }
            i = i + 2;
        } else {
            let x: u32 = syms[i];
            let l: usize = lens[i];
            syms[o] = x;
            lens[o] = l;
            proof {
                assert(rest.skip(1) =~= syms0.skip(i + 1));
                assert(lrest.skip(1) =~= lens0.skip(i + 1));
                assert(syms@.take(o + 1) =~= syms1.take(o as int) + seq![x]);
                assert(nats(lens@.take(o + 1)) =~= nats(lens1.take(o as int)) + seq![l as nat]);
                if rest.len() >= 2 {
                    assert(rest[1] == syms1[i + 1]);
                } else {
                    assert(rest.skip(1) =~= seq![]);
                    assert(lrest.skip(1) =~= seq![]);
                    assert(rest =~= seq![x]);
                    assert(lrest =~= seq![l as nat]);
                }
                assert(merge_all(rest, a, b, m) =~= seq![x] + merge_all(rest.skip(1), a, b, m));
                assert(merge_lens(rest, lrest, a, b) =~= seq![l as nat] + merge_lens(
                    rest.skip(1),
                    lrest.skip(1),
                    a,
                    b,
                ));
                assert(syms1.take(o as int) + (seq![x] + merge_all(rest.skip(1), a, b, m))
                    =~= syms@.take(o + 1) + merge_all(rest.skip(1), a, b, m));
                assert(nats(lens1.take(o as int)) + (seq![l as nat] + merge_lens(
                    rest.skip(1),
                    lrest.skip(1),
                    a,
                    b,
                )) =~= nats(lens@.take(o + 1)) + merge_lens(rest.skip(1), lrest.skip(1), a, b));
            }
            i = i + 1;
        }
        o = o + 1;
    }
    proof {
        assert(syms0.skip(n as int) =~= seq![]);
        assert(lens0.skip(n as int) =~= seq![]);
        lemma_merge_lens(syms0, lens0, a, b, m);
    }
    syms.truncate(o);
    lens.truncate(o);
    proof {
        assert(syms@ =~= merge_all(syms0, a, b, m));
        assert(nats(lens@) =~= merge_lens(syms0, lens0, a, b));
    }
}

} // verus!
