//! The hash tables of a tokenizer, on `rustc_hash`.
//!
//! `FxHashMap` and `FxHashSet` are the standard hash tables with `FxBuildHasher`, whose hashers all
//! start from the same state: equal keys hash alike, in every table.
use rustc_hash::{FxBuildHasher, FxHashMap, FxHashSet};
use std::hash::Hash;
use vstd::prelude::*;
use vstd::std_specs::hash::obeys_key_model;

verus! {

/// Declares `rustc_hash::FxBuildHasher`, the hasher builder of `FxHashMap` and `FxHashSet`.
#[verifier::external_type_specification]
#[verifier::external_body]
pub struct ExFxBuildHasher(FxBuildHasher);

/// Calls `FxHashMap::insert`. Afterwards the key is bound to the value, whatever it was bound to
/// before, and nothing else has changed.
#[verifier::external_body]
pub(crate) fn map_insert<K: Eq + Hash, V>(m: &mut FxHashMap<K, V>, k: K, v: V)
    requires
        obeys_key_model::<K>(),
    ensures
        final(m)@ == old(m)@.insert(k, v),
{
    m.insert(k, v);
}

/// Calls `FxHashMap::get`: the value that the key is bound to, if it is bound.
#[verifier::external_body]
pub(crate) fn map_get<K: Eq + Hash, V: Copy>(m: &FxHashMap<K, V>, k: &K) -> (r: Option<V>)
    requires
        obeys_key_model::<K>(),
    ensures
        r == (if m@.contains_key(*k) {
            Some(m@[*k])
        } else {
            None
        }),
{
    m.get(k).copied()
}

/// Calls `FxHashSet::insert`. Afterwards the set holds the key, and what it held before.
#[verifier::external_body]
pub(crate) fn set_insert<K: Eq + Hash>(s: &mut FxHashSet<K>, k: K)
    requires
        obeys_key_model::<K>(),
    ensures
        final(s)@ == old(s)@.insert(k),
{
    s.insert(k);
}

/// Calls `FxHashSet::contains`: whether the set holds the key.
#[verifier::external_body]
pub(crate) fn set_contains<K: Eq + Hash>(s: &FxHashSet<K>, k: &K) -> (r: bool)
    requires
        obeys_key_model::<K>(),
    ensures
        r == s@.contains(*k),
{
    s.contains(k)
}

/// What a table of affixes holds: the id of each affix, by the affix's bytes.
pub uninterp spec fn affix_ids(m: FxHashMap<Vec<u8>, u32>) -> Map<Seq<u8>, u32>;

/// Calls `FxHashMap::default`: a table of affixes that holds none.
#[verifier::external_body]
pub(crate) fn affix_new() -> (m: FxHashMap<Vec<u8>, u32>)
    ensures
        (affix_ids(m) == Map::<Seq<u8>, u32>::empty()),
{
    FxHashMap::default()
}

/// Calls `FxHashMap::insert` on a table of affixes. Afterwards the affix has the id, whatever it
/// had before, and nothing else has changed.
#[verifier::external_body]
pub(crate) fn affix_insert(m: &mut FxHashMap<Vec<u8>, u32>, affix: Vec<u8>, id: u32)
    ensures
        affix_ids(*final(m)) == affix_ids(*old(m)).insert(affix@, id),
{
    m.insert(affix, id);
}

/// Calls `FxHashMap::get` on a table of affixes: the id of the affix with these bytes, if it has
/// one.
#[verifier::external_body]
pub(crate) fn affix_get(m: &FxHashMap<Vec<u8>, u32>, affix: &[u8]) -> (r: Option<u32>)
    ensures
        r == (if affix_ids(*m).contains_key(affix@) {
            Some(affix_ids(*m)[affix@])
        } else {
            None
        }),
{
    m.get(affix).copied()
}

} // verus!
