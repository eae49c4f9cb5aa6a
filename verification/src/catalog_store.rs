//! The concurrent maps that hold the product catalog and the indices of the
//! registration ledger, and what is assumed of them.
//!
//! Nothing in this file is proved: each item states what the `dashmap` crate
//! does, and the verified code of the catalog and of the ledger rests on
//! these statements.

use dashmap::DashMap;
use std::collections::HashSet;
use vstd::prelude::*;

verus! {

/// `dashmap::DashMap`, a concurrent hash map. Its inside is not visible to
/// the verifier; what a map holds is given by `bundle_contents`,
/// `duration_contents` and `index_contents`.
#[verifier::external_type_specification]
#[verifier::external_body]
#[verifier::reject_recursive_types(K)]
#[verifier::reject_recursive_types(V)]
#[verifier::reject_recursive_types(S)]
pub struct ExDashMap<K, V, S>(DashMap<K, V, S>);

/// What a bundle map holds: for each SKU in it, the set of SKUs recorded
/// under that SKU.
pub uninterp spec fn bundle_contents(m: DashMap<String, HashSet<String>>) -> Map<
    Seq<char>,
    Set<Seq<char>>,
>;

/// What a duration map holds: for each SKU in it, the number of seconds
/// recorded under that SKU.
pub uninterp spec fn duration_contents(m: DashMap<String, u64>) -> Map<Seq<char>, u64>;

/// `DashMap::new`: a map that holds nothing.
#[verifier::external_body]
pub(crate) fn bundle_map_new() -> (fresh: DashMap<String, HashSet<String>>)
    ensures
        bundle_contents(fresh).dom() == Set::<Seq<char>>::empty(),
{
    DashMap::new()
}

/// `DashMap::contains_key`: whether the map has an entry for `sku`.
#[verifier::external_body]
pub(crate) fn bundle_map_contains(m: &DashMap<String, HashSet<String>>, sku: &str) -> (b: bool)
    ensures
        b == bundle_contents(*m).dom().contains(sku@),
{
    m.contains_key(sku)
}

/// `DashMap::get`: the SKUs recorded under `sku`, each once and in no
/// particular order, or `None` where the map has no entry for `sku`.
#[verifier::external_body]
pub(crate) fn bundle_map_get(m: &DashMap<String, HashSet<String>>, sku: &str) -> (r: Option<
    Vec<String>,
>)
    ensures
        r is Some <==> bundle_contents(*m).dom().contains(sku@),
        r matches Some(v) ==> {
            &&& sku_views(v@).no_duplicates()
            &&& sku_views(v@).to_set() == bundle_contents(*m)[sku@]
        },
{
    m.get(sku).map(|entry| entry.value().iter().cloned().collect())
}

/// `DashMap::insert`: afterwards the map holds the set of `bundled` under
/// `sku`, in place of what it held under `sku` before, and its other
/// entries as before.
#[verifier::external_body]
pub(crate) fn bundle_map_insert(
    m: &mut DashMap<String, HashSet<String>>,
    sku: String,
    bundled: Vec<String>,
)
    ensures
        bundle_contents(*final(m)) == bundle_contents(*old(m)).insert(
            sku@,
            sku_views(bundled@).to_set(),
        ),
{
    m.insert(sku, bundled.into_iter().collect());
}

/// `DashMap::new`: a map that holds nothing.
#[verifier::external_body]
pub(crate) fn duration_map_new() -> (fresh: DashMap<String, u64>)
    ensures
        duration_contents(fresh).dom() == Set::<Seq<char>>::empty(),
{
    DashMap::new()
}

/// `DashMap::get`: the seconds recorded under `sku`, or `None` where the map
/// has no entry for `sku`.
#[verifier::external_body]
pub(crate) fn duration_map_get(m: &DashMap<String, u64>, sku: &str) -> (r: Option<u64>)
    ensures
        r == (if duration_contents(*m).dom().contains(sku@) {
            Some(duration_contents(*m)[sku@])
        } else {
            None
        }),
{
    m.get(sku).map(|entry| *entry.value())
}

/// `DashMap::insert`: afterwards the map holds `seconds` under `sku`, and
/// its other entries as before.
#[verifier::external_body]
pub(crate) fn duration_map_insert(m: &mut DashMap<String, u64>, sku: String, seconds: u64)
    ensures
        duration_contents(*final(m)) == duration_contents(*old(m)).insert(sku@, seconds),
{
    m.insert(sku, seconds);
}

/// `DashMap::remove`: afterwards the map has no entry for `sku`, and its
/// other entries as before.
#[verifier::external_body]
pub(crate) fn duration_map_remove(m: &mut DashMap<String, u64>, sku: &str)
    ensures
        duration_contents(*final(m)) == duration_contents(*old(m)).remove(sku@),
{
    m.remove(sku);
}

/// What an index holds: for each key in it, the ids recorded under that
/// key, in their order.
pub uninterp spec fn index_contents(m: DashMap<u64, Vec<u64>>) -> Map<u64, Seq<u64>>;

/// `DashMap::new`: a map that holds nothing.
#[verifier::external_body]
pub(crate) fn index_map_new() -> (fresh: DashMap<u64, Vec<u64>>)
    ensures
        index_contents(fresh).dom() == Set::<u64>::empty(),
{
    DashMap::new()
}

/// `DashMap::get`: a copy of the ids recorded under `key`, in their order,
/// or `None` where the map has no entry for `key`.
#[verifier::external_body]
pub(crate) fn index_map_get(m: &DashMap<u64, Vec<u64>>, key: u64) -> (r: Option<Vec<u64>>)
    ensures
        r is Some <==> index_contents(*m).dom().contains(key),
        r matches Some(ids) ==> ids@ == index_contents(*m)[key],
{
    m.get(&key).map(|entry| entry.value().clone())
}

/// `DashMap::insert`: afterwards the map holds `ids` under `key`, in place
/// of what it held under `key` before, and its other entries as before.
#[verifier::external_body]
pub(crate) fn index_map_insert(m: &mut DashMap<u64, Vec<u64>>, key: u64, ids: Vec<u64>)
    ensures
        index_contents(*final(m)) == index_contents(*old(m)).insert(key, ids@),
{
    m.insert(key, ids);
}

/// The SKUs of a sequence of strings, as character sequences.
pub open spec fn sku_views(v: Seq<String>) -> Seq<Seq<char>> {
    v.map_values(|s: String| s@)
}

} // verus!
