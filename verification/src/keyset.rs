//! Sets of file identities, kept in `dashmap::DashSet`.

use dashmap::DashSet;
use vstd::prelude::*;

verus! {

/// The concurrent set of the `dashmap` crate. Its inside is opaque; what it holds
/// is `held_keys`.
#[verifier::external_type_specification]
#[verifier::external_body]
#[verifier::reject_recursive_types(K)]
#[verifier::reject_recursive_types(S)]
pub struct ExDashSet<K, S>(DashSet<K, S>);

/// The keys that a set holds.
pub uninterp spec fn held_keys(set: DashSet<(u64, u64)>) -> Set<(u64, u64)>;

/// `dashmap::DashSet::new`: the new set holds no key.
#[verifier::external_body]
pub(crate) fn new_key_set() -> (set: DashSet<(u64, u64)>)
    ensures
        held_keys(set) == Set::<(u64, u64)>::empty(),
{
    DashSet::new()
}

/// `dashmap::DashSet::insert`: afterwards the set holds `key` besides what it held
/// before, and the result tells whether `key` was missing. The set is borrowed
/// exclusively for the call, so no other reference into it can be alive.
#[verifier::external_body]
pub(crate) fn insert_key(set: &mut DashSet<(u64, u64)>, key: (u64, u64)) -> (fresh: bool)
    ensures
        held_keys(*final(set)) == held_keys(*old(set)).insert(key),
        fresh == !held_keys(*old(set)).contains(key),
{
    set.insert(key)
}

} // verus!
