//! The disk-backed table from keys to byte values, kept in a temporary
//! database of `sled`.

use sled::Error as StoreFailure;
use vstd::prelude::*;

verus! {

#[verifier::external_type_specification]
#[verifier::external_body]
pub struct ExDb(sled::Db);

#[verifier::external_type_specification]
#[verifier::external_body]
pub struct ExStoreFailure(StoreFailure);

/// What the database holds: the value stored under each key.
pub uninterp spec fn store_entries(db: sled::Db) -> Map<Seq<u8>, Seq<u8>>;

/// Calls `sled::Config::open` on a configuration marked temporary and
/// exclusive: it opens its file only if there was none, so where it
/// succeeds the database is a new one and holds nothing.
#[verifier::external_body]
pub(crate) fn store_open() -> (opened: Result<sled::Db, StoreFailure>)
    ensures
        opened matches Ok(db) ==> forall|key: Seq<u8>| !store_entries(db).contains_key(key),
{
    sled::Config::new().temporary(true).create_new(true).open()
}

/// Calls `Tree::get` on the database: where it succeeds, the value stored
/// under the key, if there is one.
#[verifier::external_body]
pub(crate) fn store_get(db: &sled::Db, key: &[u8]) -> (found: Result<Option<Vec<u8>>, StoreFailure>)
    ensures
        found matches Ok(Some(value)) ==> store_entries(*db).contains_key(key@) && store_entries(
            *db,
        )[key@] == value@,
        found matches Ok(None) ==> !store_entries(*db).contains_key(key@),
{
    db.get(key).map(|held| held.map(|value| value.to_vec()))
}

/// Calls `Tree::insert` on the database: where it succeeds, the key holds the
/// given value afterwards and every other key holds what it held.
#[verifier::external_body]
pub(crate) fn store_put(db: &mut sled::Db, key: &[u8], value: &[u8]) -> (done: Result<
    (),
    StoreFailure,
>)
    ensures
        done is Ok ==> store_entries(*final(db)) == store_entries(*old(db)).insert(key@, value@),
{
    db.insert(key, value).map(|_| ())
}

/// Formats a `sled::Error` with its `Display` impl. Nothing is claimed of the
/// text.
#[verifier::external_body]
pub(crate) fn store_error_text(error: &StoreFailure) -> (text: String) {
    format!("{}", error)
}

} // verus!
