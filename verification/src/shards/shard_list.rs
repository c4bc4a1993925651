//! A list of shards kept inline (in a `SmallVec`) up to 1024 entries, as held
//! for our own joins and for each connected peer.
use smallvec::SmallVec;
use vstd::prelude::*;

use crate::shards::shard::Shard;

verus! {

/// A list of shards, in the order they were added.
#[verifier::external_body]
pub struct ShardList {
    items: SmallVec<[Shard; 1024]>,
}

/// The names of the shards a list holds, in order.
pub uninterp spec fn shard_list_names(list: ShardList) -> Seq<Seq<char>>;

impl View for ShardList {
    type V = Seq<Seq<char>>;

    open spec fn view(&self) -> Seq<Seq<char>> {
        shard_list_names(*self)
    }
}

/// `SmallVec::new`: an empty list.
#[verifier::external_body]
pub(crate) fn shard_list_new() -> (r: ShardList)
    ensures
        shard_list_names(r) == Seq::<Seq<char>>::empty(),
{
    ShardList { items: SmallVec::new() }
}

/// `SmallVec::len`: how many shards the list holds.
#[verifier::external_body]
pub(crate) fn shard_list_len(list: &ShardList) -> (r: usize)
    ensures
        r == shard_list_names(*list).len(),
{
    list.items.len()
}

/// Indexing a `SmallVec`: the shard at position `i`.
#[verifier::external_body]
pub(crate) fn shard_list_get(list: &ShardList, i: usize) -> (r: &Shard)
    requires
        i < shard_list_names(*list).len(),
    ensures
        r@ == shard_list_names(*list)[i as int],
{
    &list.items[i]
}

/// `SmallVec::push`: the shard is appended.
#[verifier::external_body]
pub(crate) fn shard_list_push(list: &mut ShardList, shard: Shard)
    ensures
        shard_list_names(*final(list)) == shard_list_names(*old(list)).push(shard@),
{
    list.items.push(shard)
}

/// `SmallVec::remove`: the shard at position `i` is taken out, those after it
/// move down by one, and it is returned.
#[verifier::external_body]
pub(crate) fn shard_list_remove(list: &mut ShardList, i: usize) -> (r: Shard)
    requires
        i < shard_list_names(*old(list)).len(),
    ensures
        shard_list_names(*final(list)) == shard_list_names(*old(list)).remove(i as int),
        r@ == shard_list_names(*old(list))[i as int],
{
    list.items.remove(i)
}

/// The position of the first entry named like `x`, if any.
pub(crate) fn shard_list_position(list: &ShardList, x: &Shard) -> (r: Option<usize>)
    ensures
        match r {
            Some(i) => i < list@.len() && list@[i as int] == x@
                && forall|j: int| 0 <= j < i ==> list@[j] != x@,
            None => !list@.contains(x@),
        },
{
    let n = shard_list_len(list);
    let mut i: usize = 0;
    while i < n
        invariant
            n == list@.len(),
            i <= n,
            forall|j: int| 0 <= j < i ==> list@[j] != x@,
        decreases n - i,
    {
        if shard_list_get(list, i).same_as(x) {
            return Some(i);
        }
        i = i + 1;
    }
    None
}

} // verus!
