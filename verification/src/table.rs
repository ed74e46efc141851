//! The in-memory table from keys to numbers, kept in a hash map of `ahash`.

use vstd::prelude::*;

verus! {

#[verifier::external_type_specification]
#[verifier::external_body]
pub struct ExRandomState(ahash::RandomState);

#[verifier::external_type_specification]
#[verifier::external_body]
#[verifier::reject_recursive_types(K)]
#[verifier::reject_recursive_types(V)]
#[verifier::reject_recursive_types(S)]
pub struct ExAHashMap<K, V, S>(ahash::AHashMap<K, V, S>);

/// What the table holds: the number stored under each key, keys taken as
/// byte sequences.
pub uninterp spec fn table_entries(table: ahash::AHashMap<Vec<u8>, usize>) -> Map<Seq<u8>, usize>;

/// Calls `AHashMap::default`: a hash map that holds nothing.
#[verifier::external_body]
pub(crate) fn table_new() -> (fresh: ahash::AHashMap<Vec<u8>, usize>)
    ensures
        forall|key: Seq<u8>| !table_entries(fresh).contains_key(key),
{
    ahash::AHashMap::default()
}

/// Calls `AHashMap::get`: the number stored under the key, if there is one.
/// Keys are equal when their bytes are.
#[verifier::external_body]
pub(crate) fn table_get(table: &ahash::AHashMap<Vec<u8>, usize>, key: &[u8]) -> (found: Option<
    usize,
>)
    ensures
        found == if table_entries(*table).contains_key(key@) {
            Some(table_entries(*table)[key@])
        } else {
            None
        },
{
    table.get(key).copied()
}

/// Calls `AHashMap::insert`: afterwards the key holds the given number and
/// every other key holds what it held.
#[verifier::external_body]
pub(crate) fn table_insert(
    table: &mut ahash::AHashMap<Vec<u8>, usize>,
    key: Vec<u8>,
    value: usize,
)
    ensures
        table_entries(*final(table)) == table_entries(*old(table)).insert(key@, value),
{
    table.insert(key, value);
}

/// Calls `HashMap::len` through the map that `AHashMap` wraps: the number of
/// keys held.
#[verifier::external_body]
pub(crate) fn table_len(table: &ahash::AHashMap<Vec<u8>, usize>) -> (len: usize)
    ensures
        len == table_entries(*table).dom().len(),
{
    table.len()
}

} // verus!
