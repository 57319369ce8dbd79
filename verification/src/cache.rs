//! The unit cache: the tokens of units that have been encoded before, by the unit's bytes.
//!
//! The table is open-addressed with linear probing. The common case, a key of at most 16 bytes
//! whose unit is one token with 16-bit ids, lives entirely in its slot; longer keys and other
//! tokens spill into arenas.
use crate::hash::{
    hash_head, hash_key, key_hash, key_hi, key_lo, lemma_key_hash, lemma_short_keys, load16,
};
use crate::tok::Tok;
use vstd::arithmetic::power2::{lemma2_to64, lemma_pow2_unfold, pow2};
use vstd::prelude::*;
use vstd::slice::slice_subrange;

verus! {

/// Mark of a token count whose tokens are in the arena.
pub const ARENA: u16 = 0x8000;

/// The number of slots of a new table.
pub const FIRST_SLOTS: usize = 4096;

/// The longest key that lives in its slot.
pub const SHORT_KEY: usize = 16;

/// What a cache holds, and what decides whether it takes more.
#[verifier::ext_equal]
pub struct CacheState {
    /// The tokens of each unit, by the unit's bytes.
    pub entries: Map<Seq<u8>, Seq<Tok>>,
    /// How many units have been stored.
    pub size: nat,
    /// How many units are stored at most.
    pub limit: nat,
    /// How many slots the table has.
    pub slots: nat,
    /// How many bytes of long keys have been stored.
    pub key_bytes: nat,
    /// How many tokens have been stored outside the slots.
    pub spilled: nat,
}

/// Whether tokens live in a slot: a single one, with 16-bit ids.
pub open spec fn fits_slot(toks: Seq<Tok>) -> bool {
    &&& toks.len() == 1
    &&& toks[0].variation <= u16::MAX
    &&& toks[0].prefix <= u16::MAX
    &&& toks[0].core <= u16::MAX
    &&& toks[0].suffix <= u16::MAX
}

impl CacheState {
    /// A cache that holds nothing.
    pub open spec fn empty(limit: nat) -> CacheState {
        CacheState {
            entries: Map::empty(),
            size: 0,
            limit,
            slots: FIRST_SLOTS as nat,
            key_bytes: 0,
            spilled: 0,
        }
    }

    /// Whether the numbers go together as they do in every cache: no more units than the limit, and
    /// a power of two of slots, at least as many as those of a new table and at least twice as many
    /// as the units.
    pub open spec fn in_shape(self) -> bool {
        &&& self.size <= self.limit
        &&& 2 * self.size <= self.slots
        &&& self.slots >= FIRST_SLOTS
        &&& exists|k: nat| self.slots == #[trigger] pow2(k)
    }

    /// Storing a unit keeps the shape.
    pub proof fn lemma_store_shape(self, key: Seq<u8>, toks: Seq<Tok>)
        requires
            self.in_shape(),
        ensures
            self.store(key, toks).in_shape(),
    {
        let k = choose|k: nat| self.slots == #[trigger] pow2(k);
        lemma_pow2_unfold(k + 1);
        assert(pow2(k + 1) == 2 * self.slots);
    }

    /// A new cache has the shape.
    pub proof fn lemma_empty_shape(limit: nat)
        ensures
            CacheState::empty(limit).in_shape(),
    {
        lemma2_to64();
        assert(CacheState::empty(limit).slots == pow2(12));
    }

    /// Whether the table has to double to take one more unit.
    pub open spec fn is_full(self) -> bool {
        (self.size + 1) * 2 > self.slots
    }

    /// Whether a unit is stored: below the limit, if key and tokens have lengths that a slot can
    /// count, offsets into the arenas that it can hold, and the table can grow if it has to.
    pub open spec fn accepts(self, key: Seq<u8>, toks: Seq<Tok>) -> bool {
        &&& self.size < self.limit
        &&& key.len() <= u16::MAX
        &&& toks.len() < ARENA
        &&& key.len() > SHORT_KEY ==> self.key_bytes <= u32::MAX
        &&& !fits_slot(toks) ==> self.spilled <= u32::MAX
        &&& self.is_full() ==> self.slots * 2 <= usize::MAX
    }

    /// The cache after a unit's tokens have been offered to it.
    pub open spec fn store(self, key: Seq<u8>, toks: Seq<Tok>) -> CacheState {
        if self.accepts(key, toks) {
            CacheState {
                entries: self.entries.insert(key, toks),
                size: self.size + 1,
                limit: self.limit,
                slots: if self.is_full() {
                    self.slots * 2
                } else {
                    self.slots
                },
                key_bytes: if key.len() > SHORT_KEY {
                    self.key_bytes + key.len()
                } else {
                    self.key_bytes
                },
                spilled: if fits_slot(toks) {
                    self.spilled
                } else {
                    self.spilled + toks.len()
                },
            }
        } else {
            self
        }
    }
}

/// A slot of the table. A tag of 0 marks an empty one; other tags are the high bits of the key's
/// hash. `lo` and `hi` are the bytes of a short key; of a long one `lo` is the offset in the key
/// arena. The numbers of the one token are in the slot, unless the count is marked: then the
/// first two are the offset in the token arena.
#[derive(Clone, Copy)]
struct Slot {
    tag: u32,
    klen: u16,
    ntok: u16,
    lo: u64,
    hi: u64,
    tok0: u16,
    tok1: u16,
    tok2: u16,
    tok3: u16,
}

spec fn tag_of(h: u64) -> u32 {
    ((h >> 32) as u32) | 1
}

/// The tag of a hash.
fn make_tag(h: u64) -> (tag: u32)
    ensures
        tag == tag_of(h),
        tag != 0,
{
    let x: u32 = (h >> 32) as u32;
    assert(x | 1 != 0) by (bit_vector);
    x | 1
}

/// Whether a slot holds a key.
spec fn holds_key(sl: Slot, keys: Seq<u8>, key: Seq<u8>) -> bool {
    &&& sl.klen == key.len()
    &&& if key.len() <= SHORT_KEY {
        sl.lo == key_lo(key) && sl.hi == key_hi(key)
    } else {
        sl.lo + key.len() <= keys.len() && keys.subrange(sl.lo as int, sl.lo + key.len()) == key
    }
}

/// The offset in the token arena.
spec fn offset(sl: Slot) -> u32 {
    (sl.tok0 as u32) | ((sl.tok1 as u32) << 16)
}

/// Whether a slot holds tokens.
spec fn holds_toks(sl: Slot, arena: Seq<Tok>, toks: Seq<Tok>) -> bool {
    if sl.ntok & ARENA == 0 {
        toks == seq![
            Tok {
                variation: sl.tok0 as u32,
                prefix: sl.tok1 as u32,
                core: sl.tok2 as u32,
                suffix: sl.tok3 as u32,
            },
        ]
    } else {
        &&& (sl.ntok & !ARENA) == toks.len()
        &&& offset(sl) + toks.len() <= arena.len()
        &&& arena.subrange(offset(sl) as int, offset(sl) + toks.len()) == toks
    }
}

/// Whether a number is one less than a power of two.
spec fn is_mask(mask: usize) -> bool {
    mask < usize::MAX && mask & ((mask + 1) as usize) == 0
}

proof fn lemma_mask(mask: usize, i: usize)
    requires
        is_mask(mask),
    ensures
        i & mask <= mask,
        i < mask ==> ((i + 1) as usize) & mask == i + 1,
        i == mask ==> ((i + 1) as usize) & mask == 0,
{
    assert(i & mask <= mask) by (bit_vector);
    assert(mask & ((mask + 1) as usize) == 0 && i < mask ==> ((i + 1) as usize) & mask == i + 1)
        by (bit_vector);
    assert(mask & ((mask + 1) as usize) == 0 && i == mask ==> ((i + 1) as usize) & mask == 0)
        by (bit_vector);
}

proof fn lemma_mask_double(mask: usize)
    requires
        is_mask(mask),
        2 * mask + 2 <= usize::MAX,
    ensures
        is_mask((2 * mask + 1) as usize),
{
    let m2: usize = (2 * mask + 1) as usize;
    let half: usize = (mask + 1) as usize;
    assert(mask & ((mask + 1) as usize) == 0 && m2 == 2 * mask + 1 ==> m2 & ((m2 + 1) as usize)
        == 0) by (bit_vector);
}

/// How many steps a probe that starts at `home` takes to slot `i` of `n`.
spec fn dist(home: int, i: int, n: int) -> int {
    if i >= home {
        i - home
    } else {
        i + n - home
    }
}

/// The slot that a probe for a key starts at.
spec fn home_of(key: Seq<u8>, mask: usize) -> int {
    ((key_hash(key) as usize) & mask) as int
}

/// How many slots are taken.
spec fn taken(slots: Seq<Slot>) -> nat
    decreases slots.len(),
{
    if slots.len() == 0 {
        0
    } else {
        taken(slots.drop_last()) + (if slots.last().tag != 0 {
            1nat
        } else {
            0nat
        })
    }
}

proof fn lemma_taken_bound(slots: Seq<Slot>)
    ensures
        taken(slots) <= slots.len(),
    decreases slots.len(),
{
    if slots.len() > 0 {
        lemma_taken_bound(slots.drop_last());
    }
}

/// Where fewer slots are taken than there are, one is empty.
proof fn lemma_has_empty(slots: Seq<Slot>) -> (e: int)
    requires
        taken(slots) < slots.len(),
    ensures
        0 <= e < slots.len(),
        slots[e].tag == 0,
    decreases slots.len(),
{
    let last = slots.len() - 1;
    if slots[last].tag == 0 {
        last
    } else {
        lemma_has_empty(slots.drop_last())
    }
}

/// Taking an empty slot takes one more.
proof fn lemma_taken_update(slots: Seq<Slot>, i: int, sl: Slot)
    requires
        0 <= i < slots.len(),
        slots[i].tag == 0,
        sl.tag != 0,
    ensures
        taken(slots.update(i, sl)) == taken(slots) + 1,
    decreases slots.len(),
{
    let last = slots.len() - 1;
    let now = slots.update(i, sl);
    if i == last {
        assert(now.drop_last() =~= slots.drop_last());
    } else {
        lemma_taken_update(slots.drop_last(), i, sl);
        assert(now.drop_last() =~= slots.drop_last().update(i, sl));
    }
}

proof fn lemma_taken_none(slots: Seq<Slot>)
    requires
        forall|i: int| 0 <= i < slots.len() ==> (#[trigger] slots[i]).tag == 0,
    ensures
        taken(slots) == 0,
    decreases slots.len(),
{
    if slots.len() > 0 {
        lemma_taken_none(slots.drop_last());
    }
}

/// Whether the slots are where probes find them: each taken slot has an owner, the key that it was
/// taken for, and a probe for that key meets no empty slot before it.
spec fn probes_ok(slots: Seq<Slot>, mask: usize, owners: Seq<Seq<u8>>) -> bool {
    &&& is_mask(mask)
    &&& slots.len() == mask + 1
    &&& owners.len() == slots.len()
    &&& forall|i: int|
        #![trigger slots[i]]
        0 <= i < slots.len() && slots[i].tag != 0 ==> slots[i].tag == tag_of(key_hash(owners[i]))
    &&& forall|i: int, q: int|
        #![trigger slots[i], slots[q]]
        0 <= i < slots.len() && 0 <= q < slots.len() && slots[i].tag != 0 && dist(
            home_of(owners[i], mask),
            q,
            slots.len() as int,
        ) < dist(home_of(owners[i], mask), i, slots.len() as int) ==> slots[q].tag != 0
}

/// Whether the taken slots hold what the cache holds.
spec fn slots_ok(
    slots: Seq<Slot>,
    owners: Seq<Seq<u8>>,
    keys: Seq<u8>,
    toks: Seq<Tok>,
    entries: Map<Seq<u8>, Seq<Tok>>,
) -> bool {
    forall|i: int|
        #![trigger slots[i]]
        0 <= i < slots.len() && slots[i].tag != 0 ==> {
            &&& entries.contains_key(owners[i])
            &&& holds_key(slots[i], keys, owners[i])
            &&& holds_toks(slots[i], toks, entries[owners[i]])
        }
}

/// Whether some taken slot is a key's.
spec fn has_slot(slots: Seq<Slot>, owners: Seq<Seq<u8>>, key: Seq<u8>) -> bool {
    exists|i: int| 0 <= i < slots.len() && #[trigger] slots[i].tag != 0 && owners[i] == key
}

/// A cache of units.
pub struct Cache {
    slots: Vec<Slot>,
    mask: usize,
    len: usize,
    limit: usize,
    keys: Vec<u8>,
    toks: Vec<Tok>,
    entries: Ghost<Map<Seq<u8>, Seq<Tok>>>,
    owners: Ghost<Seq<Seq<u8>>>,
}

impl View for Cache {
    type V = CacheState;

    closed spec fn view(&self) -> CacheState {
        CacheState {
            entries: self.entries@,
            size: self.len as nat,
            limit: self.limit as nat,
            slots: self.slots@.len(),
            key_bytes: self.keys@.len(),
            spilled: self.toks@.len(),
        }
    }
}

/// What a key puts into the key arena.
spec fn spilled_key(key: Seq<u8>) -> Seq<u8> {
    if key.len() > SHORT_KEY {
        key
    } else {
        seq![]
    }
}

/// What tokens put into the token arena.
spec fn spilled_toks(toks: Seq<Tok>) -> Seq<Tok> {
    if fits_slot(toks) {
        seq![]
    } else {
        toks
    }
}

/// Slots that are all empty.
fn empty_slots(n: usize) -> (slots: Vec<Slot>)
    ensures
        slots@.len() == n,
        forall|i: int| 0 <= i < n ==> (#[trigger] slots@[i]).tag == 0,
{
    let empty = Slot {
        tag: 0,
        klen: 0,
        ntok: 0,
        lo: 0,
        hi: 0,
        tok0: 0,
        tok1: 0,
        tok2: 0,
        tok3: 0,
    };
    vec![empty; n]
}

/// Puts a slot into the first empty one that a probe from `h` meets.
fn place(
    slots: &mut Vec<Slot>,
    mask: usize,
    sl: Slot,
    h: u64,
    owners: &mut Ghost<Seq<Seq<u8>>>,
    key: Ghost<Seq<u8>>,
) -> (at: Ghost<int>)
    requires
        probes_ok(old(slots)@, mask, old(owners)@),
        taken(old(slots)@) < old(slots)@.len(),
        h == key_hash(key@),
        sl.tag == tag_of(h),
        sl.tag != 0,
    ensures
        0 <= at@ < old(slots)@.len(),
        old(slots)@[at@].tag == 0,
        final(slots)@ == old(slots)@.update(at@, sl),
        final(owners)@ == old(owners)@.update(at@, key@),
        probes_ok(final(slots)@, mask, final(owners)@),
        taken(final(slots)@) == taken(old(slots)@) + 1,
{
    let mut i: usize = (h as usize) & mask;
    let ghost home = home_of(key@, mask);
    let ghost n = slots@.len() as int;
    let ghost e = lemma_has_empty(slots@);
    proof {
        lemma_mask(mask, h as usize);
    }
    while slots[i].tag != 0
        invariant
            slots@ == old(slots)@,
            probes_ok(slots@, mask, owners@),
            owners@ == old(owners)@,
            n == slots@.len(),
            0 <= i < n,
            0 <= home < n,
            home == home_of(key@, mask),
            0 <= e < n,
            slots@[e].tag == 0,
            dist(home, i as int, n) <= dist(home, e, n),
            forall|q: int|
                0 <= q < n && dist(home, q, n) < dist(home, i as int, n) ==> (
                #[trigger] slots@[q]).tag != 0,
        decreases dist(home, e, n) - dist(home, i as int, n),
    {
        let ghost i0 = i as int;
        proof {
            lemma_mask(mask, i);
        }
        i = (i + 1) & mask;
        assert(dist(home, i as int, n) == dist(home, i0, n) + 1);
    }
    slots[i] = sl;
    proof {
        lemma_taken_update(old(slots)@, i as int, sl);
        owners@ = owners@.update(i as int, key@);
    }
    Ghost(i as int)
}

/// Whether two byte strings are equal.
fn same_bytes(a: &[u8], b: &[u8]) -> (r: bool)
    ensures
        r == (a@ == b@),
{
    if a.len() != b.len() {
        return false;
    }
    let mut i: usize = 0;
    while i < a.len()
        invariant
            i <= a@.len() == b@.len(),
            forall|k: int| 0 <= k < i ==> a@[k] == b@[k],
        decreases a@.len() - i,
    {
        if a[i] != b[i] {
            return false;
        }
        i = i + 1;
    }
    assert(a@ =~= b@);
    true
}

/// What a slot holds stays there when the arenas grow.
proof fn lemma_arenas_grow(
    slots: Seq<Slot>,
    owners: Seq<Seq<u8>>,
    keys: Seq<u8>,
    toks: Seq<Tok>,
    entries: Map<Seq<u8>, Seq<Tok>>,
    more_keys: Seq<u8>,
    more_toks: Seq<Tok>,
)
    requires
        slots_ok(slots, owners, keys, toks, entries),
    ensures
        slots_ok(slots, owners, keys + more_keys, toks + more_toks, entries),
{
    assert forall|i: int|
        #![trigger slots[i]]
        0 <= i < slots.len() && slots[i].tag != 0 implies {
        &&& entries.contains_key(owners[i])
        &&& holds_key(slots[i], keys + more_keys, owners[i])
        &&& holds_toks(slots[i], toks + more_toks, entries[owners[i]])
    } by {
        let sl = slots[i];
        let key = owners[i];
        let ts = entries[key];
        if key.len() > SHORT_KEY {
            assert((keys + more_keys).subrange(sl.lo as int, sl.lo + key.len()) =~= keys.subrange(
                sl.lo as int,
                sl.lo + key.len(),
            ));
        }
        if sl.ntok & ARENA != 0 {
            assert((toks + more_toks).subrange(offset(sl) as int, offset(sl) + ts.len())
                =~= toks.subrange(offset(sl) as int, offset(sl) + ts.len()));
        }
    }
}

impl Cache {
    /// What every operation keeps true of a cache.
    pub closed spec fn wf(&self) -> bool {
        &&& probes_ok(self.slots@, self.mask, self.owners@)
        &&& slots_ok(self.slots@, self.owners@, self.keys@, self.toks@, self.entries@)
        &&& forall|key: Seq<u8>| #[trigger]
            self.entries@.contains_key(key) ==> has_slot(self.slots@, self.owners@, key)
        &&& taken(self.slots@) == self.len
        &&& self@.in_shape()
    }

    /// What the start of a probe is cut down with.
    pub closed spec fn probe_mask(&self) -> int {
        self.mask as int
    }

    /// How many slots are taken.
    pub closed spec fn taken_slots(&self) -> nat {
        taken(self.slots@)
    }

    /// The shape that a cache has in every state: it holds no more units than its limit, its slots
    /// are a power of two, at least as many as those of a new table and at least twice as many as
    /// the units, so that a probe meets an empty one. One slot is taken for each unit, and the mask
    /// covers exactly the indices of the slots.
    pub proof fn law_shape(&self)
        requires
            self.wf(),
        ensures
            self@.size <= self@.limit,
            2 * self@.size <= self@.slots,
            self@.slots >= FIRST_SLOTS,
            exists|k: nat| self@.slots == #[trigger] pow2(k),
            self.taken_slots() == self@.size,
            self.probe_mask() == self@.slots - 1,
    {
    }

    /// A cache that holds nothing yet, and at most `limit` units.
    pub fn new(limit: usize) -> (c: Cache)
        ensures
            c.wf(),
            c@ == CacheState::empty(limit as nat),
    {
        let slots: Vec<Slot> = empty_slots(FIRST_SLOTS);
        proof {
            lemma_taken_none(slots@);
            assert(4095usize & 4096usize == 0) by (bit_vector);
            CacheState::lemma_empty_shape(limit as nat);
        }
        Cache {
            slots,
            mask: 4095,
            len: 0,
            limit,
            keys: Vec::new(),
            toks: Vec::new(),
            entries: Ghost(Map::empty()),
            owners: Ghost(Seq::new(FIRST_SLOTS as nat, |i: int| seq![])),
        }
    }

    /// Forgets everything.
    pub fn clear(&mut self)
        ensures
            final(self).wf(),
            final(self)@ == CacheState::empty(old(self)@.limit),
    {
        *self = Cache::new(self.limit);
    }

    /// How many units have been stored.
    pub fn size(&self) -> (n: usize)
        ensures
            n == self@.size,
    {
        self.len
    }

    /// Appends the tokens of a unit if they are known, and says whether they are. `lo` and `hi`
    /// are the first sixteen bytes of the key, and `h` is its hash.
    pub fn get_emit(&self, key: &[u8], lo: u64, hi: u64, h: u64, out: &mut Vec<Tok>) -> (hit: bool)
        requires
            self.wf(),
            lo == key_lo(key@),
            hi == key_hi(key@),
            h == key_hash(key@),
        ensures
            hit == self@.entries.contains_key(key@),
            hit ==> final(out)@ == old(out)@ + self@.entries[key@],
            !hit ==> final(out)@ == old(out)@,
    {
        let tag: u32 = make_tag(h);
        let mut i: usize = (h as usize) & self.mask;
        let ghost home = home_of(key@, self.mask);
        let ghost n = self.slots@.len() as int;
        let ghost e = lemma_has_empty(self.slots@);
        proof {
            lemma_mask(self.mask, h as usize);
        }
        loop
            invariant
                self.wf(),
                out@ == old(out)@,
                lo == key_lo(key@),
                hi == key_hi(key@),
                h == key_hash(key@),
                tag == tag_of(h),
                tag != 0,
                n == self.slots@.len(),
                0 <= i < n,
                0 <= home < n,
                home == home_of(key@, self.mask),
                0 <= e < n,
                self.slots@[e].tag == 0,
                dist(home, i as int, n) <= dist(home, e, n),
                forall|q: int|
                    0 <= q < n && dist(home, q, n) < dist(home, i as int, n) ==> (
                    #[trigger] self.slots@[q]).tag != 0 && self.owners@[q] != key@,
            decreases dist(home, e, n) - dist(home, i as int, n),
        {
            let sl: Slot = self.slots[i];
            if sl.tag == 0 {
                proof {
                    if self.entries@.contains_key(key@) {
                        assert(has_slot(self.slots@, self.owners@, key@));
                        let j = choose|j: int|
                            0 <= j < self.slots@.len() && #[trigger] self.slots@[j].tag != 0
                                && self.owners@[j] == key@;
                        assert(self.slots@[i as int].tag == 0);
                        if dist(home, i as int, n) < dist(home, j, n) {
                            assert(self.slots@[i as int].tag != 0);
                        }
                        assert(false);
                    }
                }
                return false;
            }
            let ghost owner = self.owners@[i as int];
            assert(holds_key(sl, self.keys@, owner));
            if sl.tag == tag && sl.klen as usize == key.len() {
                let eq: bool = if key.len() <= SHORT_KEY {
                    sl.lo == lo && sl.hi == hi
                } else {
                    let stored: usize = self.keys.len();
                    let off: usize = sl.lo as usize;
                    assert(off + key@.len() <= stored);
                    same_bytes(slice_subrange(self.keys.as_slice(), off, off + key.len()), key)
                };
                if eq {
                    proof {
                        if key@.len() <= SHORT_KEY {
                            lemma_short_keys(owner, key@);
                        }
                        assert(owner == key@);
                    }
                    let ghost ts = self.entries@[key@];
                    assert(holds_toks(sl, self.toks@, ts));
                    if sl.ntok & ARENA == 0 {
                        out.push(
                            Tok {
                                variation: sl.tok0 as u32,
                                prefix: sl.tok1 as u32,
                                core: sl.tok2 as u32,
                                suffix: sl.tok3 as u32,
                            },
                        );
                    } else {
                        let off: usize = ((sl.tok0 as u32) | ((sl.tok1 as u32) << 16)) as usize;
                        let count: usize = (sl.ntok & !ARENA) as usize;
                        let held: usize = self.toks.len();
                        assert(off + count <= held);
                        out.extend_from_slice(
                            slice_subrange(self.toks.as_slice(), off, off + count),
                        );
                    }
                    assert(out@ =~= old(out)@ + ts);
                    return true;
                }
            }
            assert(owner != key@);
            let ghost i0 = i as int;
            proof {
                lemma_mask(self.mask, i);
            }
            i = (i + 1) & self.mask;
            assert(dist(home, i as int, n) == dist(home, i0, n) + 1);
            assert forall|q: int| 0 <= q < n && dist(home, q, n) < dist(home, i as int, n) implies (
            #[trigger] self.slots@[q]).tag != 0 && self.owners@[q] != key@ by {
                if dist(home, q, n) == dist(home, i0, n) {
                    assert(q == i0);
                    assert(self.slots@[q].tag != 0);
                    assert(self.owners@[q] == owner);
                } else {
                    assert(dist(home, q, n) < dist(home, i0, n));
                    assert(self.slots@[q].tag != 0);
                    assert(self.owners@[q] != key@);
                }
            }
        }
    }

    /// The hash of the key that a slot holds.
    fn slot_hash(&self, sl: &Slot, key: Ghost<Seq<u8>>) -> (h: u64)
        requires
            holds_key(*sl, self.keys@, key@),
        ensures
            h == key_hash(key@),
    {
        proof {
            lemma_key_hash(key@);
        }
        let k: usize = sl.klen as usize;
        let stored: usize = self.keys.len();
        if k <= SHORT_KEY {
            hash_head(k, sl.lo, sl.hi)
        } else {
            let off: usize = sl.lo as usize;
            assert(off + k <= stored);
            let bytes: &[u8] = slice_subrange(self.keys.as_slice(), off, off + k);
            let (lo, hi) = load16(bytes);
            hash_key(bytes, lo, hi)
        }
    }

    /// Doubles the table.
    fn grow(&mut self)
        requires
            old(self).wf(),
            old(self)@.slots * 2 <= usize::MAX,
        ensures
            final(self).wf(),
            final(self)@ == (CacheState { slots: old(self)@.slots * 2, ..old(self)@ }),
    {
        let n: usize = self.slots.len();
        let mut slots: Vec<Slot> = empty_slots(n * 2);
        let mask: usize = n * 2 - 1;
        let mut owners: Ghost<Seq<Seq<u8>>> = Ghost(Seq::new((n * 2) as nat, |i: int| seq![]));
        let mut i: usize = 0;
        proof {
            lemma_taken_none(slots@);
            lemma_mask_double(self.mask);
            assert(self.slots@.take(0) =~= seq![]);
        }
        while i < n
            invariant
                *self == *old(self),
                self.wf(),
                n == self.slots@.len(),
                i <= n,
                slots@.len() == 2 * n,
                probes_ok(slots@, mask, owners@),
                slots_ok(slots@, owners@, self.keys@, self.toks@, self.entries@),
                taken(slots@) == taken(self.slots@.take(i as int)),
                forall|j: int|
                    0 <= j < i && (#[trigger] self.slots@[j]).tag != 0 ==> has_slot(
                        slots@,
                        owners@,
                        self.owners@[j],
                    ),
            decreases n - i,
        {
            let sl: Slot = self.slots[i];
            let ghost slots0 = slots@;
            let ghost owners0 = owners@;
            proof {
                lemma_taken_bound(self.slots@.take(i as int));
                assert(self.slots@.take(i + 1).drop_last() =~= self.slots@.take(i as int));
            }
            if sl.tag != 0 {
                let ghost key = self.owners@[i as int];
                let h: u64 = self.slot_hash(&sl, Ghost(key));
                let at: Ghost<int> = place(&mut slots, mask, sl, h, &mut owners, Ghost(key));
                proof {
                    assert(slots@[at@].tag != 0 && owners@[at@] == key);
                    assert forall|j: int|
                        0 <= j < i + 1 && (#[trigger] self.slots@[j]).tag != 0 implies has_slot(
                        slots@,
                        owners@,
                        self.owners@[j],
                    ) by {
                        if j < i {
                            let q = choose|q: int|
                                0 <= q < slots0.len() && #[trigger] slots0[q].tag != 0
                                    && owners0[q] == self.owners@[j];
                            assert(slots@[q].tag != 0 && owners@[q] == self.owners@[j]);
                        }
                    }
                }
            }
            i = i + 1;
        }
        proof {
            assert(self.slots@.take(n as int) =~= self.slots@);
            assert forall|key: Seq<u8>| #[trigger]
                self.entries@.contains_key(key) implies has_slot(slots@, owners@, key) by {
                let j = choose|j: int|
                    0 <= j < self.slots@.len() && #[trigger] self.slots@[j].tag != 0
                        && self.owners@[j] == key;
                assert(self.slots@[j].tag != 0);
            }
        }
        proof {
            let k = choose|k: nat| self@.slots == #[trigger] pow2(k);
            lemma_pow2_unfold(k + 1);
            assert(slots@.len() == pow2(k + 1));
        }
        self.slots = slots;
        self.mask = mask;
        self.owners = owners;
    }

    /// Makes the slot of a unit. What does not fit into it goes into the arenas.
    fn make_slot(
        &mut self,
        key: &[u8],
        lo: u64,
        hi: u64,
        h: u64,
        toks: &[Tok],
        inline: bool,
    ) -> (sl: Slot)
        requires
            lo == key_lo(key@),
            hi == key_hi(key@),
            key@.len() <= u16::MAX,
            toks@.len() < ARENA,
            inline == fits_slot(toks@),
            key@.len() > SHORT_KEY ==> old(self).keys@.len() <= u32::MAX,
            !inline ==> old(self).toks@.len() <= u32::MAX,
        ensures
            sl.tag == tag_of(h),
            sl.tag != 0,
            holds_key(sl, final(self).keys@, key@),
            holds_toks(sl, final(self).toks@, toks@),
            final(self).keys@ == old(self).keys@ + spilled_key(key@),
            final(self).toks@ == old(self).toks@ + spilled_toks(toks@),
            final(self).slots == old(self).slots,
            final(self).mask == old(self).mask,
            final(self).len == old(self).len,
            final(self).limit == old(self).limit,
            final(self).entries == old(self).entries,
            final(self).owners == old(self).owners,
    {
        let ghost keys0 = self.keys@;
        let ghost toks0 = self.toks@;
        let mut sl = Slot {
            tag: make_tag(h),
            klen: key.len() as u16,
            ntok: 1,
            lo,
            hi,
            tok0: 0,
            tok1: 0,
            tok2: 0,
            tok3: 0,
        };
        if key.len() > SHORT_KEY {
            sl.lo = self.keys.len() as u64;
            sl.hi = 0;
            self.keys.extend_from_slice(key);
            assert(self.keys@ =~= keys0 + key@);
            assert(self.keys@.subrange(sl.lo as int, sl.lo + key@.len()) =~= key@);
        }
        if inline {
            let t: Tok = toks[0];
            sl.tok0 = t.variation as u16;
            sl.tok1 = t.prefix as u16;
            sl.tok2 = t.core as u16;
            sl.tok3 = t.suffix as u16;
            assert(1u16 & 0x8000 == 0) by (bit_vector);
            assert(toks@ =~= seq![t]);
        } else {
            let off: u32 = self.toks.len() as u32;
            let count: u16 = toks.len() as u16;
            self.toks.extend_from_slice(toks);
            sl.ntok = count | ARENA;
            sl.tok0 = off as u16;
            sl.tok1 = (off >> 16) as u16;
            assert((count | 0x8000) & 0x8000 != 0) by (bit_vector);
            assert(count < 0x8000 ==> (count | 0x8000) & !0x8000u16 == count) by (bit_vector);
            assert((off as u16) as u32 | (((off >> 16) as u16) as u32) << 16 == off)
                by (bit_vector);
            assert(self.toks@ =~= toks0 + toks@);
            assert(self.toks@.subrange(off as int, off + toks@.len()) =~= toks@);
        }
        assert(self.keys@ =~= keys0 + spilled_key(key@));
        assert(self.toks@ =~= toks0 + spilled_toks(toks@));
        sl
    }

    /// Offers the tokens of a unit. They are stored unless the cache is full or they are too large
    /// for it. A key that is stored already may only be offered with the same tokens.
    pub fn insert(&mut self, key: &[u8], lo: u64, hi: u64, h: u64, toks: &[Tok])
        requires
            old(self).wf(),
            lo == key_lo(key@),
            hi == key_hi(key@),
            h == key_hash(key@),
            old(self)@.entries.contains_key(key@) ==> old(self)@.entries[key@] == toks@,
        ensures
            final(self).wf(),
            final(self)@ == old(self)@.store(key@, toks@),
    {
        let inline: bool = toks.len() == 1 && toks[0].variation <= 0xFFFF && toks[0].prefix
            <= 0xFFFF && toks[0].core <= 0xFFFF && toks[0].suffix <= 0xFFFF;
        assert(inline == fits_slot(toks@));
        if self.len >= self.limit || key.len() > 0xFFFF || toks.len() >= ARENA as usize {
            return;
        }
        if key.len() > SHORT_KEY && self.keys.len() as u64 > 0xFFFF_FFFF {
            return;
        }
        if !inline && self.toks.len() as u64 > 0xFFFF_FFFF {
            return;
        }
        let n: usize = self.slots.len();
        if self.len + 1 > n - self.len - 1 {
            if n > usize::MAX / 2 {
                return;
            }
            self.grow();
        }
        let ghost state1 = *self;
        let sl: Slot = self.make_slot(key, lo, hi, h, toks, inline);
        proof {
            lemma_arenas_grow(
                state1.slots@,
                state1.owners@,
                state1.keys@,
                state1.toks@,
                state1.entries@,
                spilled_key(key@),
                spilled_toks(toks@),
            );
        }
        let ghost entries = state1.entries@.insert(key@, toks@);
        let at: Ghost<int> = place(
            &mut self.slots,
            self.mask,
            sl,
            h,
            &mut self.owners,
            Ghost(key@),
        );
        self.len = self.len + 1;
        self.entries = Ghost(entries);
        proof {
            assert(slots_ok(self.slots@, self.owners@, self.keys@, self.toks@, entries));
            assert forall|k: Seq<u8>| #[trigger] entries.contains_key(k) implies has_slot(
                self.slots@,
                self.owners@,
                k,
            ) by {
                if k == key@ {
                    assert(self.slots@[at@].tag != 0 && self.owners@[at@] == k);
                } else {
                    assert(state1.entries@.contains_key(k));
                    let q = choose|q: int|
                        0 <= q < state1.slots@.len() && #[trigger] state1.slots@[q].tag != 0
                            && state1.owners@[q] == k;
                    assert(self.slots@[q].tag != 0 && self.owners@[q] == k);
                }
            }
        }
    }
}

} // verus!
