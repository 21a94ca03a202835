//! The set in which an iteration keeps the methods that it changed.
use dashmap::DashSet;
use vstd::prelude::*;

verus! {

/// The concurrent set of the `dashmap` crate.
#[verifier::external_type_specification]
#[verifier::external_body]
#[verifier::reject_recursive_types(K)]
#[verifier::reject_recursive_types(S)]
pub struct ExDashSet<K, S>(DashSet<K, S>);

/// What the set holds.
pub uninterp spec fn members(set: DashSet<usize>) -> Set<usize>;

/// Calls `DashSet::new`: the set that it makes holds nothing.
#[verifier::external_body]
pub(crate) fn no_marks() -> (r: DashSet<usize>)
    ensures
        members(r) == Set::<usize>::empty(),
{
    DashSet::new()
}

/// Calls `DashSet::insert`: the set then also holds `m`, and everything from before. The call
/// returns whether `m` is new.
#[verifier::external_body]
pub(crate) fn mark(set: &mut DashSet<usize>, m: usize) -> (r: bool)
    ensures
        members(*final(set)) == members(*old(set)).insert(m),
        r == !members(*old(set)).contains(m),
{
    set.insert(m)
}

/// Calls `DashSet::contains`: it tells whether the set holds `m`.
#[verifier::external_body]
pub(crate) fn is_marked(set: &DashSet<usize>, m: usize) -> (r: bool)
    ensures
        r == members(*set).contains(m),
{
    set.contains(&m)
}

} // verus!
