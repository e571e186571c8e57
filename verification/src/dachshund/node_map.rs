//! The map from identifiers to nodes. It hashes with `fxhash`, for whose
//! hasher no specification is at hand, so each operation on the map is taken
//! on trust, with its contract stated over the map's view.

use vstd::prelude::*;
use fxhash::FxHashMap;
use fxhash::FxHasher;
use std::hash::BuildHasherDefault;

verus! {

/// Declares `fxhash::FxHasher`, the hasher of the maps that hold the nodes.
/// Nothing is claimed of it: a value of the type is carried, never read.
#[verifier::external_type_specification]
#[verifier::external_body]
pub struct ExFxHasher(FxHasher);

/// Declares `std::hash::BuildHasherDefault`, which makes a map's hashers
/// from the hasher's default value. Nothing is claimed of it: a value of the
/// type is carried, never read.
#[verifier::external_type_specification]
#[verifier::external_body]
#[verifier::reject_recursive_types(H)]
pub struct ExBuildHasherDefault<H>(BuildHasherDefault<H>);

/// Calls `HashMap::insert` on a map that hashes with `fxhash::FxHasher`.
/// Not proved: that afterwards the map holds `v` under `k` and is otherwise
/// unchanged, and that the value `k` had before, if any, is returned. The
/// hasher starts from a fixed state and is a function of the bytes written to
/// it, so equal keys always hash alike, which is what the map relies on.
#[verifier::external_body]
pub(crate) fn map_insert<V>(m: &mut FxHashMap<i64, V>, k: i64, v: V) -> (r: Option<V>)
    ensures
        final(m)@ == old(m)@.insert(k, v),
        r == (if old(m)@.contains_key(k) { Some(old(m)@[k]) } else { None }),
{
    m.insert(k, v)
}

/// Calls `HashMap::remove` on a map that hashes with `fxhash::FxHasher`.
/// Not proved: that afterwards the map has no entry under `k` and is
/// otherwise unchanged, and that the value `k` had before, if any, is
/// returned.
#[verifier::external_body]
pub(crate) fn map_remove<V>(m: &mut FxHashMap<i64, V>, k: i64) -> (r: Option<V>)
    ensures
        final(m)@ == old(m)@.remove(k),
        r == (if old(m)@.contains_key(k) { Some(old(m)@[k]) } else { None }),
{
    m.remove(&k)
}

/// Calls `HashMap::get` on a map that hashes with `fxhash::FxHasher`.
/// Not proved: that the value stored under `k` is returned, and `None` when
/// there is none.
#[verifier::external_body]
pub(crate) fn map_get<V>(m: &FxHashMap<i64, V>, k: i64) -> (r: Option<&V>)
    ensures
        r == (if m@.contains_key(k) { Some(&m@[k]) } else { None }),
{
    m.get(&k)
}

/// Calls `HashMap::contains_key` on a map that hashes with
/// `fxhash::FxHasher`. Not proved: that the answer says whether the map has an
/// entry under `k`.
#[verifier::external_body]
pub(crate) fn map_contains_key<V>(m: &FxHashMap<i64, V>, k: i64) -> (r: bool)
    ensures
        r == m@.contains_key(k),
{
    m.contains_key(&k)
}

/// Calls `HashMap::len` on a map that hashes with `fxhash::FxHasher`. Not
/// proved: that the number of entries is returned.
#[verifier::external_body]
pub(crate) fn map_len<V>(m: &FxHashMap<i64, V>) -> (r: usize)
    ensures
        r == m@.len(),
{
    m.len()
}

} // verus!
