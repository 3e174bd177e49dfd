//! The parts of `dashmap` that the storage layer relies on, with the
//! contracts it assumes of them. Nothing in this file is proved.
use vstd::prelude::*;
use dashmap::DashMap;
use dashmap::DashSet;
use nohash_hasher::{BuildNoHashHasher, NoHashHasher};
use std::hash::BuildHasherDefault;

verus! {

#[verifier::external_type_specification]
#[verifier::external_body]
#[verifier::reject_recursive_types(K)]
#[verifier::reject_recursive_types(V)]
#[verifier::reject_recursive_types(S)]
pub struct ExDashMap<K, V, S>(DashMap<K, V, S>);

#[verifier::external_type_specification]
#[verifier::external_body]
#[verifier::reject_recursive_types(K)]
#[verifier::reject_recursive_types(S)]
pub struct ExDashSet<K, S>(DashSet<K, S>);

#[verifier::external_type_specification]
#[verifier::external_body]
#[verifier::reject_recursive_types(T)]
pub struct ExNoHashHasher<T>(NoHashHasher<T>);

#[verifier::external_type_specification]
#[verifier::external_body]
#[verifier::reject_recursive_types(H)]
pub struct ExBuildHasherDefault<H>(BuildHasherDefault<H>);

/// A concurrent map from ids to slots. The ids are their own hashes.
pub type IndexMap = DashMap<usize, usize, BuildNoHashHasher<usize>>;

/// The key-value pairs that an index map holds.
pub uninterp spec fn index_entries(m: IndexMap) -> Map<usize, usize>;

/// `DashMap::with_hasher`, with the default `BuildNoHashHasher`: the new
/// map holds nothing.
#[verifier::external_body]
pub(crate) fn index_new() -> (created: IndexMap)
    ensures
        forall|key: usize| !index_entries(created).contains_key(key),
{
    DashMap::with_hasher(BuildNoHashHasher::default())
}

/// `DashMap::get`, with the value copied out of the returned reference:
/// the value stored under `key`, if there is one.
#[verifier::external_body]
pub(crate) fn index_get(m: &IndexMap, key: usize) -> (r: Option<usize>)
    ensures
        r == (if index_entries(*m).contains_key(key) {
            Some(index_entries(*m)[key])
        } else {
            None
        }),
{
    m.get(&key).map(|entry| *entry.value())
}

/// `DashMap::insert`: afterwards `key` maps to `value` and every other key
/// is as before; the result is the value that `key` had.
#[verifier::external_body]
pub(crate) fn index_insert(m: &mut IndexMap, key: usize, value: usize) -> (r: Option<usize>)
    ensures
        index_entries(*final(m)) == index_entries(*old(m)).insert(key, value),
        r == (if index_entries(*old(m)).contains_key(key) {
            Some(index_entries(*old(m))[key])
        } else {
            None
        }),
{
    m.insert(key, value)
}

/// `DashMap::remove`: afterwards `key` is absent and every other key is as
/// before; the result is the value that `key` had.
#[verifier::external_body]
pub(crate) fn index_remove(m: &mut IndexMap, key: usize) -> (r: Option<usize>)
    ensures
        index_entries(*final(m)) == index_entries(*old(m)).remove(key),
        r == (if index_entries(*old(m)).contains_key(key) {
            Some(index_entries(*old(m))[key])
        } else {
            None
        }),
{
    m.remove(&key).map(|entry| entry.1)
}

/// `DashMap::contains_key`.
#[verifier::external_body]
pub(crate) fn index_contains(m: &IndexMap, key: usize) -> (r: bool)
    ensures
        r == index_entries(*m).contains_key(key),
{
    m.contains_key(&key)
}

/// The ids that an id set holds.
pub uninterp spec fn queued_ids(s: DashSet<usize>) -> Set<usize>;

/// `DashSet::new`: the new set holds nothing.
#[verifier::external_body]
pub(crate) fn ids_new() -> (created: DashSet<usize>)
    ensures
        forall|id: usize| !queued_ids(created).contains(id),
{
    DashSet::new()
}

/// `DashSet::insert`: afterwards the set holds `id` besides what it held;
/// the result says whether `id` is new to it.
#[verifier::external_body]
pub(crate) fn ids_insert(s: &mut DashSet<usize>, id: usize) -> (fresh: bool)
    ensures
        queued_ids(*final(s)) == queued_ids(*old(s)).insert(id),
        fresh == !queued_ids(*old(s)).contains(id),
{
    s.insert(id)
}

/// `DashSet::iter`, with each id copied out of the reference that the
/// iterator yields: every id of the set once, in an order that is not
/// determined.
#[verifier::external_body]
pub(crate) fn ids_items(s: &DashSet<usize>) -> (items: Vec<usize>)
    ensures
        items@.no_duplicates(),
        items@.to_set() == queued_ids(*s),
{
    s.iter().map(|entry| *entry.key()).collect()
}

/// `DashSet::clear`: afterwards the set holds nothing.
#[verifier::external_body]
pub(crate) fn ids_clear(s: &mut DashSet<usize>)
    ensures
        forall|id: usize| !queued_ids(*final(s)).contains(id),
{
    s.clear()
}

} // verus!
