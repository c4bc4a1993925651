//! The cache of recently seen message hashes, kept in an LRU cache of
//! bounded size.
use lru::LruCache;
use vstd::prelude::*;

use crate::assoc::distinct;

verus! {

#[verifier::external_type_specification]
#[verifier::external_body]
#[verifier::reject_recursive_types(K)]
#[verifier::reject_recursive_types(V)]
#[verifier::reject_recursive_types(S)]
pub struct ExLruCache<K, V, S>(LruCache<K, V, S>);

#[verifier::external_type_specification]
#[verifier::external_body]
pub struct ExLruHasher(lru::DefaultHasher);

/// The keys an LRU cache of hashes holds, most recently used first.
pub uninterp spec fn lru_keys(cache: LruCache<Vec<u8>, ()>) -> Seq<Seq<u8>>;

/// The number of keys the cache was made to hold.
pub uninterp spec fn lru_capacity(cache: LruCache<Vec<u8>, ()>) -> nat;

/// Holds of the keys other than `k`.
pub open spec fn other_than(k: Seq<u8>) -> spec_fn(Seq<u8>) -> bool {
    |x: Seq<u8>| x != k
}

/// What `put` leaves in a cache: the key in front, the other keys after it in
/// their order, the least recently used dropped when a new key overflows it.
pub open spec fn keys_after_put(keys: Seq<Seq<u8>>, cap: nat, k: Seq<u8>) -> Seq<Seq<u8>> {
    if keys.contains(k) {
        seq![k] + keys.filter(other_than(k))
    } else if cap == 0 {
        keys
    } else if keys.len() == cap {
        seq![k] + keys.drop_last()
    } else {
        seq![k] + keys
    }
}

/// `LruCache::new(cap)`: an empty cache that holds at most `cap` keys.
#[verifier::external_body]
pub(crate) fn lru_new(cap: usize) -> (r: LruCache<Vec<u8>, ()>)
    ensures
        lru_keys(r) == Seq::<Seq<u8>>::empty(),
        lru_capacity(r) == cap,
{
    LruCache::new(cap)
}

/// `LruCache::put(k, ())`: returns `Some(())` when the key was present, in
/// which case it moves to the front; otherwise, unless the capacity is zero,
/// the key is added in front, the least recently used key being dropped when
/// the cache is full. The cache never holds a key twice nor more keys than
/// its capacity.
#[verifier::external_body]
pub(crate) fn lru_put(cache: &mut LruCache<Vec<u8>, ()>, k: Vec<u8>) -> (r: Option<()>)
    ensures
        r is Some <==> lru_keys(*old(cache)).contains(k@),
        distinct(lru_keys(*final(cache))),
        lru_keys(*final(cache)).len() <= lru_capacity(*final(cache)),
        lru_capacity(*final(cache)) == lru_capacity(*old(cache)),
        lru_keys(*final(cache)) == keys_after_put(lru_keys(*old(cache)), lru_capacity(*old(cache)), k@),
{
    cache.put(k, ())
}

/// `LruCache::contains(k)`: whether the key is in the cache; the order of
/// the keys is left as it is.
#[verifier::external_body]
pub(crate) fn lru_contains(cache: &LruCache<Vec<u8>, ()>, k: &Vec<u8>) -> (r: bool)
    ensures
        r == lru_keys(*cache).contains(k@),
{
    cache.contains(k)
}

} // verus!
