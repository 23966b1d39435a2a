//! The name-to-identifier table of a register: an `ahash::AHashMap` keyed by
//! the names.
//!
//! The map is opaque to the verifier. What it holds is given a name,
//! [`entries`], and the three operations that the register needs are stated
//! over that name. These statements are taken from the map's documentation
//! and are not proved here.

use ahash::{AHashMap, RandomState};
use vstd::prelude::*;

verus! {

/// `ahash::AHashMap`, carried as an opaque value.
#[verifier::external_type_specification]
#[verifier::external_body]
#[verifier::reject_recursive_types(K)]
#[verifier::reject_recursive_types(V)]
#[verifier::reject_recursive_types(S)]
pub struct ExAHashMap<K, V, S>(AHashMap<K, V, S>);

/// `ahash::RandomState`, the hasher factory of an `AHashMap`, carried as an
/// opaque value.
#[verifier::external_type_specification]
#[verifier::external_body]
pub struct ExRandomState(RandomState);

/// The entries of a table, as a map from the text of each key to its value.
/// Two `String`s are the same key exactly when their texts are equal.
pub uninterp spec fn entries(table: AHashMap<String, usize>) -> Map<Seq<char>, usize>;

/// `AHashMap::default`: a table without entries.
///
/// The first map of a process draws its hasher's keys from the operating
/// system's random source, and the call panics if that source fails.
#[verifier::external_body]
pub(crate) fn empty_table() -> (table: AHashMap<String, usize>)
    ensures
        forall|name: Seq<char>| !entries(table).contains_key(name),
{
    AHashMap::default()
}

/// `AHashMap::get`: the value stored under the key whose text is that of
/// `name`, or `None` where the table has no such key. The table is unchanged.
#[verifier::external_body]
pub(crate) fn table_get<'a>(table: &'a AHashMap<String, usize>, name: &str) -> (found: Option<
    &'a usize,
>)
    ensures
        found == if entries(*table).contains_key(name@) {
            Some(&entries(*table)[name@])
        } else {
            None
        },
{
    table.get(name)
}

/// `AHashMap::insert`: afterwards the table maps the text of `name` to `id`
/// and every other key to what it held before. Returns the value that the
/// key held before, if it was present.
#[verifier::external_body]
pub(crate) fn table_insert(table: &mut AHashMap<String, usize>, name: String, id: usize) -> (previous:
    Option<usize>)
    ensures
        entries(*final(table)) == entries(*old(table)).insert(name@, id),
        previous == if entries(*old(table)).contains_key(name@) {
            Some(entries(*old(table))[name@])
        } else {
            None
        },
{
    table.insert(name, id)
}

} // verus!
