//! The concurrent map from a location to the last transaction that writes it.

use crate::location::LocationKey;
use dashmap::DashMap;
use vstd::prelude::*;

verus! {

/// A concurrent hash map from location keys to transaction ids.
pub type WriterMap = DashMap<LocationKey, usize>;

/// `dashmap::DashMap`, taken as an opaque type: what it holds is known
/// through `writer_entries` only.
#[verifier::external_type_specification]
#[verifier::external_body]
#[verifier::reject_recursive_types(K)]
#[verifier::reject_recursive_types(V)]
#[verifier::reject_recursive_types(S)]
pub struct ExDashMap<K, V, S>(DashMap<K, V, S>);

/// The entries of a writer map: for each location key that it holds, a
/// transaction id. The functions below say, without proof, what the methods
/// of `DashMap` do to the entries.
pub uninterp spec fn writer_entries(m: WriterMap) -> Map<LocationKey, usize>;

/// `DashMap::new`: the new map has no entries.
#[verifier::external_body]
pub(crate) fn writers_new() -> (m: WriterMap)
    ensures
        writer_entries(m).dom() == Set::<LocationKey>::empty(),
{
    DashMap::new()
}

/// `DashMap::insert`: afterwards the key maps to the given value, and every
/// other entry is as it was. The map is borrowed mutably, so no reference
/// into it is alive that the call could wait for.
#[verifier::external_body]
pub(crate) fn writers_insert(m: &mut WriterMap, key: LocationKey, tx: usize)
    ensures
        writer_entries(*final(m)) == writer_entries(*old(m)).insert(key, tx),
{
    m.insert(key, tx);
}

/// `DashMap::get`: the value held under the key, if the map has the key.
/// The value is copied out and the reference into the map is dropped.
#[verifier::external_body]
pub(crate) fn writers_get(m: &WriterMap, key: &LocationKey) -> (tx: Option<usize>)
    ensures
        tx == (if writer_entries(*m).contains_key(*key) {
            Some(writer_entries(*m)[*key])
        } else {
            None
        }),
{
    m.get(key).map(|entry| *entry.value())
}

} // verus!
