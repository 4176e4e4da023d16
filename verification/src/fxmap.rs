//! The hash maps of the field: `std`'s `HashMap` with rustc-hash's `FxBuildHasher`.

use rustc_hash::FxBuildHasher;
use std::collections::HashMap;
use std::hash::Hash;
use vstd::prelude::*;
use vstd::std_specs::hash::obeys_key_model;

verus! {

/// rustc-hash's `FxBuildHasher`, the hasher of the field's maps; Verus sees nothing
/// inside it.
#[verifier::external_type_specification]
#[verifier::external_body]
pub struct ExFxBuildHasher(FxBuildHasher);

/// A map filed with rustc-hash's hasher.
pub type FxMap<K, V> = HashMap<K, V, FxBuildHasher>;

/// `HashMap::get` on a map with rustc-hash's hasher: for a key type whose equality is
/// the model's equality, claimed to return the value filed under `k`, or `None` if
/// there is none.
#[verifier::external_body]
pub(crate) fn fx_get<'a, K: Eq + Hash, V>(m: &'a FxMap<K, V>, k: &K) -> (r: Option<&'a V>)
    requires
        obeys_key_model::<K>(),
    ensures
        match r {
            Some(v) => m@.contains_key(*k) && *v == m@[*k],
            None => !m@.contains_key(*k),
        },
{
    m.get(k)
}

/// `HashMap::insert` on a map with rustc-hash's hasher: for a key type whose equality
/// is the model's equality, claimed to file `v` under `k`, replacing and returning the
/// value filed there before.
#[verifier::external_body]
pub(crate) fn fx_insert<K: Eq + Hash, V>(m: &mut FxMap<K, V>, k: K, v: V) -> (r: Option<V>)
    requires
        obeys_key_model::<K>(),
    ensures
        final(m)@ == old(m)@.insert(k, v),
        match r {
            Some(w) => old(m)@.contains_key(k) && w == old(m)@[k],
            None => !old(m)@.contains_key(k),
        },
{
    m.insert(k, v)
}

/// `HashMap::remove` on a map with rustc-hash's hasher: for a key type whose equality
/// is the model's equality, claimed to take out and return the value filed under `k`.
#[verifier::external_body]
pub(crate) fn fx_remove<K: Eq + Hash, V>(m: &mut FxMap<K, V>, k: &K) -> (r: Option<V>)
    requires
        obeys_key_model::<K>(),
    ensures
        final(m)@ == old(m)@.remove(*k),
        match r {
            Some(w) => old(m)@.contains_key(*k) && w == old(m)@[*k],
            None => !old(m)@.contains_key(*k),
        },
{
    m.remove(k)
}

} // verus!
