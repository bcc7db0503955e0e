//! Trusted boundary around the keyed stores of the `vec_map` crate.
//!
//! The comic store and the navigation cache both live in a
//! `vec_map::VecMap`, a map keyed by small non-negative integers.  The type
//! is opaque here; each map's contents are named by an uninterpreted view,
//! and the few methods the library calls are wrapped with contracts stated
//! over that view.

use vstd::prelude::*;

use crate::comic::Comic;

verus! {

#[verifier::external_type_specification]
#[verifier::external_body]
#[verifier::reject_recursive_types(V)]
pub struct ExVecMap<V>(vec_map::VecMap<V>);

/// The comics a store holds: directory and record, keyed by identifier.
pub uninterp spec fn comic_map_of(m: vec_map::VecMap<(String, Comic)>) -> Map<
    int,
    (String, Comic),
>;

/// The matrices a navigation cache holds, keyed by comic identifier.
pub uninterp spec fn nav_map_of(m: vec_map::VecMap<Vec<Vec<Option<String>>>>) -> Map<
    int,
    Vec<Vec<Option<String>>>,
>;

/// The empty store.
pub open spec fn empty_comic_store() -> Map<int, (String, Comic)> {
    Map::empty()
}

/// The empty cache.
pub open spec fn empty_nav_cache() -> Map<int, Vec<Vec<Option<String>>>> {
    Map::empty()
}

/// Relies on VecMap::new: the fresh map contains nothing.
#[verifier::external_body]
pub(crate) fn comic_store_new() -> (r: vec_map::VecMap<(String, Comic)>)
    ensures
        comic_map_of(r) == empty_comic_store(),
{
    vec_map::VecMap::new()
}

/// Relies on VecMap::insert: the value is stored under the key and every
/// other key keeps its value.  Keys right below the index type's limit are
/// ruled out because the map grows its backing storage to key + 1 slots.
#[verifier::external_body]
pub(crate) fn comic_store_insert(
    m: &mut vec_map::VecMap<(String, Comic)>,
    key: usize,
    value: (String, Comic),
)
    requires
        key < usize::MAX,
    ensures
        comic_map_of(*final(m)) == comic_map_of(*old(m)).insert(key as int, value),
{
    m.insert(key, value);
}

/// Relies on VecMap::get: the value stored under the key is returned, and
/// nothing is returned exactly when the key is absent.
#[verifier::external_body]
pub(crate) fn comic_store_get(m: &vec_map::VecMap<(String, Comic)>, key: usize) -> (r: Option<
    &(String, Comic),
>)
    ensures
        match r {
            Some(v) => comic_map_of(*m).contains_key(key as int) && *v == comic_map_of(*m)[key as int],
            None => !comic_map_of(*m).contains_key(key as int),
        },
{
    m.get(key)
}

/// Relies on VecMap::new: the fresh cache contains nothing.
#[verifier::external_body]
pub(crate) fn nav_cache_new() -> (r: vec_map::VecMap<Vec<Vec<Option<String>>>>)
    ensures
        nav_map_of(r) == empty_nav_cache(),
{
    vec_map::VecMap::new()
}

/// Relies on VecMap::insert: a copy of the matrix is stored under the key
/// and every other key keeps its value.
#[verifier::external_body]
pub(crate) fn nav_cache_insert(
    m: &mut vec_map::VecMap<Vec<Vec<Option<String>>>>,
    key: usize,
    value: &Vec<Vec<Option<String>>>,
)
    requires
        key < usize::MAX,
    ensures
        nav_map_of(*final(m)) == nav_map_of(*old(m)).insert(key as int, *value),
{
    m.insert(key, value.clone());
}

/// Relies on VecMap::get: a copy of the value stored under the key is
/// returned, and nothing is returned exactly when the key is absent.
#[verifier::external_body]
pub(crate) fn nav_cache_get(m: &vec_map::VecMap<Vec<Vec<Option<String>>>>, key: usize) -> (r:
    Option<Vec<Vec<Option<String>>>>)
    ensures
        match r {
            Some(v) => nav_map_of(*m).contains_key(key as int) && v == nav_map_of(*m)[key as int],
            None => !nav_map_of(*m).contains_key(key as int),
        },
{
    m.get(key).cloned()
}

} // verus!
