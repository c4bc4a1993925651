//! The set of peers a node wants to stay connected to, kept in an FNV-hashed
//! set of peer ids.
use core::hash::BuildHasherDefault;

use fnv::{FnvHashSet, FnvHasher};
use vstd::prelude::*;

verus! {

#[verifier::external_type_specification]
#[verifier::external_body]
pub struct ExFnvHasher(FnvHasher);

#[verifier::external_type_specification]
#[verifier::external_body]
#[verifier::reject_recursive_types(H)]
pub struct ExBuildHasherDefault<H>(BuildHasherDefault<H>);

/// The peer ids a set holds: those for which `HashSet::contains` answers true.
pub uninterp spec fn peer_set_members(set: FnvHashSet<Vec<u8>>) -> Set<Seq<u8>>;

/// `FnvHashSet::default`: an empty set.
#[verifier::external_body]
pub(crate) fn peer_set_new() -> (r: FnvHashSet<Vec<u8>>)
    ensures
        peer_set_members(r) == Set::<Seq<u8>>::empty(),
{
    FnvHashSet::default()
}

/// `HashSet::insert`: afterwards the set holds the peer id as well; the
/// answer is whether it was not held before.
#[verifier::external_body]
pub(crate) fn peer_set_insert(set: &mut FnvHashSet<Vec<u8>>, peer_id: Vec<u8>) -> (r: bool)
    ensures
        peer_set_members(*final(set)) == peer_set_members(*old(set)).insert(peer_id@),
        r == !peer_set_members(*old(set)).contains(peer_id@),
{
    set.insert(peer_id)
}

/// `HashSet::contains`: whether the set holds the peer id.
#[verifier::external_body]
pub(crate) fn peer_set_contains(set: &FnvHashSet<Vec<u8>>, peer_id: &Vec<u8>) -> (r: bool)
    ensures
        r == peer_set_members(*set).contains(peer_id@),
{
    set.contains(peer_id)
}

/// `HashSet::remove`: afterwards the set no longer holds the peer id; the
/// answer is whether it held it before.
#[verifier::external_body]
pub(crate) fn peer_set_remove(set: &mut FnvHashSet<Vec<u8>>, peer_id: &Vec<u8>) -> (r: bool)
    ensures
        peer_set_members(*final(set)) == peer_set_members(*old(set)).remove(peer_id@),
        r == peer_set_members(*old(set)).contains(peer_id@),
{
    set.remove(peer_id)
}

} // verus!
