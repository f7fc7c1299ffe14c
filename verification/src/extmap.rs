//! The insertion-ordered map that owns every non-root span record, provided
//! by the `linked_hash_map` crate.  Verified code sees it only through the
//! abstract contents `span_map_of` and the small trusted wrappers below;
//! nothing here relies on the iteration order the crate additionally keeps.

use vstd::prelude::*;

use linked_hash_map::LinkedHashMap;

use crate::entry::SpanEntry;

verus! {

#[verifier::external_type_specification]
#[verifier::external_body]
#[verifier::reject_recursive_types(K)]
#[verifier::reject_recursive_types(V)]
#[verifier::reject_recursive_types(S)]
pub struct ExLinkedHashMap<K, V, S>(LinkedHashMap<K, V, S>);

/// The contents of the span store, as a map from persistent id to record.
pub uninterp spec fn span_map_of(m: LinkedHashMap<u64, SpanEntry>) -> Map<u64, SpanEntry>;

/// Relies on `LinkedHashMap::new`: a freshly created map is empty.
#[verifier::external_body]
pub fn store_new() -> (r: LinkedHashMap<u64, SpanEntry>)
    ensures
        span_map_of(r) =~= Map::empty(),
{
    LinkedHashMap::new()
}

/// Relies on `LinkedHashMap::insert`: afterwards the key maps to the given
/// value, and no other key changes.
#[verifier::external_body]
pub fn store_insert(m: &mut LinkedHashMap<u64, SpanEntry>, k: u64, v: SpanEntry)
    ensures
        span_map_of(*final(m)) == span_map_of(*old(m)).insert(k, v),
{
    m.insert(k, v);
}

/// Relies on `LinkedHashMap::contains_key`.
#[verifier::external_body]
pub fn store_contains(m: &LinkedHashMap<u64, SpanEntry>, k: u64) -> (r: bool)
    ensures
        r == span_map_of(*m).contains_key(k),
{
    m.contains_key(&k)
}

/// Relies on `LinkedHashMap::get`: the value stored under the key, if any.
#[verifier::external_body]
pub fn store_get<'a>(m: &'a LinkedHashMap<u64, SpanEntry>, k: u64) -> (r: Option<&'a SpanEntry>)
    ensures
        match r {
            Option::Some(v) => span_map_of(*m).contains_key(k) && *v == span_map_of(*m)[k],
            Option::None => !span_map_of(*m).contains_key(k),
        },
{
    m.get(&k)
}

/// Relies on `LinkedHashMap::get_mut`: a mutable borrow of the value stored
/// under a present key; whatever the borrow leaves behind is what the map
/// then holds there.
#[verifier::external_body]
pub fn store_get_mut<'a>(m: &'a mut LinkedHashMap<u64, SpanEntry>, k: u64) -> (r: &'a mut SpanEntry)
    requires
        span_map_of(*old(m)).contains_key(k),
    ensures
        *r == span_map_of(*old(m))[k],
        span_map_of(*final(m)) == span_map_of(*old(m)).insert(k, *final(r)),
{
    m.get_mut(&k).unwrap()
}

/// Relies on `LinkedHashMap::remove`: afterwards the key is absent, and no
/// other key changes.
#[verifier::external_body]
pub fn store_remove(m: &mut LinkedHashMap<u64, SpanEntry>, k: u64)
    ensures
        span_map_of(*final(m)) == span_map_of(*old(m)).remove(k),
{
    m.remove(&k);
}

/// Relies on `LinkedHashMap::keys`: every key exactly once (in insertion
/// order, which nothing here depends on).
#[verifier::external_body]
pub fn store_keys(m: &LinkedHashMap<u64, SpanEntry>) -> (r: Vec<u64>)
    ensures
        r@.no_duplicates(),
        r@.to_set() == span_map_of(*m).dom(),
{
    m.keys().cloned().collect()
}

} // verus!
