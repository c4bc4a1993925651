//! Lists keyed by peer id, and the facts about them that the peer tables
//! rely on.
use vstd::prelude::*;

verus! {

/// No element occurs twice.
pub open spec fn distinct<A>(s: Seq<A>) -> bool {
    forall|i: int, j: int| 0 <= i < s.len() && 0 <= j < s.len() && i != j ==> s[i] != s[j]
}

/// The keys of a keyed list, in order.
pub open spec fn keys<V>(s: Seq<(Seq<u8>, V)>) -> Seq<Seq<u8>> {
    s.map_values(|e: (Seq<u8>, V)| e.0)
}

/// Whether some entry has key `k`.
pub open spec fn has_key<V>(s: Seq<(Seq<u8>, V)>, k: Seq<u8>) -> bool {
    exists|i: int| 0 <= i < s.len() && s[i].0 == k
}

/// The list with the value under `k` replaced by `v`, or with `(k, v)`
/// appended when no entry has key `k`.
pub open spec fn assoc_set<V>(s: Seq<(Seq<u8>, V)>, k: Seq<u8>, v: V) -> Seq<(Seq<u8>, V)> {
    if has_key(s, k) {
        s.map_values(|e: (Seq<u8>, V)| if e.0 == k { (k, v) } else { e })
    } else {
        s.push((k, v))
    }
}

/// The list without the entries that have key `k`.
pub open spec fn assoc_remove<V>(s: Seq<(Seq<u8>, V)>, k: Seq<u8>) -> Seq<(Seq<u8>, V)> {
    s.filter(key_differs(k))
}

/// Holds of the entries whose key is not `k`.
pub open spec fn key_differs<V>(k: Seq<u8>) -> spec_fn((Seq<u8>, V)) -> bool {
    |e: (Seq<u8>, V)| e.0 != k
}

/// The sequence without the occurrences of `x`.
pub open spec fn remove_value<A>(s: Seq<A>, x: A) -> Seq<A> {
    s.filter(|y: A| y != x)
}

/// Filtering with a predicate that holds everywhere keeps the sequence.
pub proof fn lemma_filter_keeps_all<A>(s: Seq<A>, pred: spec_fn(A) -> bool)
    requires
        forall|j: int| 0 <= j < s.len() ==> #[trigger] pred(s[j]),
    ensures
        s.filter(pred) == s,
    decreases s.len(),
{
    reveal(Seq::filter);
    if s.len() > 0 {
        assert forall|j: int| 0 <= j < s.drop_last().len() implies #[trigger] pred(s.drop_last()[j]) by {
            assert(s.drop_last()[j] == s[j]);
        }
        lemma_filter_keeps_all(s.drop_last(), pred);
        assert(pred(s[s.len() - 1]));
        assert(s.drop_last().push(s.last()) =~= s);
    }
}

/// Filtering with a predicate that fails at one index only removes that index.
pub proof fn lemma_filter_drops_one<A>(s: Seq<A>, pred: spec_fn(A) -> bool, i: int)
    requires
        0 <= i < s.len(),
        !pred(s[i]),
        forall|j: int| 0 <= j < s.len() && j != i ==> #[trigger] pred(s[j]),
    ensures
        s.filter(pred) == s.remove(i),
    decreases s.len(),
{
    reveal(Seq::filter);
    let d = s.drop_last();
    if i == s.len() - 1 {
        assert forall|j: int| 0 <= j < d.len() implies #[trigger] pred(d[j]) by {
            assert(d[j] == s[j]);
        }
        lemma_filter_keeps_all(d, pred);
        assert(s.remove(i) =~= d);
    } else {
        assert forall|j: int| 0 <= j < d.len() && j != i implies #[trigger] pred(d[j]) by {
            assert(d[j] == s[j]);
        }
        assert(d[i] == s[i]);
        lemma_filter_drops_one(d, pred, i);
        assert(pred(s[s.len() - 1]));
        assert(d.remove(i).push(s.last()) =~= s.remove(i));
    }
}

/// Keyed-list removal when exactly one entry, at `i`, has the key.
pub proof fn lemma_assoc_remove_at<V>(s: Seq<(Seq<u8>, V)>, k: Seq<u8>, i: int)
    requires
        0 <= i < s.len(),
        s[i].0 == k,
        distinct(keys(s)),
    ensures
        assoc_remove(s, k) == s.remove(i),
{
    let pred = key_differs::<V>(k);
    assert forall|j: int| 0 <= j < s.len() && j != i implies #[trigger] pred(s[j]) by {
        assert(keys(s)[j] == s[j].0);
        assert(keys(s)[i] == s[i].0);
    }
    lemma_filter_drops_one(s, pred, i);
}

/// Keyed-list removal when no entry has the key.
pub proof fn lemma_assoc_remove_absent<V>(s: Seq<(Seq<u8>, V)>, k: Seq<u8>)
    requires
        !has_key(s, k),
    ensures
        assoc_remove(s, k) == s,
{
    let pred = key_differs::<V>(k);
    assert forall|j: int| 0 <= j < s.len() implies #[trigger] pred(s[j]) by {
        if s[j].0 == k {
            assert(has_key(s, k));
        }
    }
    lemma_filter_keeps_all(s, pred);
}

/// Removing a value that occurs once, at `i`.
pub proof fn lemma_remove_value_at<A>(s: Seq<A>, x: A, i: int)
    requires
        0 <= i < s.len(),
        s[i] == x,
        distinct(s),
    ensures
        remove_value(s, x) == s.remove(i),
{
    let pred = |y: A| y != x;
    lemma_filter_drops_one(s, pred, i);
}

/// Removing a value that does not occur.
pub proof fn lemma_remove_value_absent<A>(s: Seq<A>, x: A)
    requires
        !s.contains(x),
    ensures
        remove_value(s, x) == s,
{
    let pred = |y: A| y != x;
    assert forall|j: int| 0 <= j < s.len() implies #[trigger] pred(s[j]) by {
        if s[j] == x {
            assert(s.contains(x));
        }
    }
    lemma_filter_keeps_all(s, pred);
}

/// Appending an element that does not occur keeps a sequence without repeats.
pub proof fn lemma_distinct_push<A>(s: Seq<A>, x: A)
    requires
        distinct(s),
        !s.contains(x),
    ensures
        distinct(s.push(x)),
{
    assert forall|i: int, j: int| 0 <= i < s.len() + 1 && 0 <= j < s.len() + 1 && i != j implies s.push(x)[i] != s.push(x)[j] by {
        if i == s.len() as int {
            assert(s[j] == s.push(x)[j]);
        } else if j == s.len() as int {
            assert(s[i] == s.push(x)[i]);
        }
    }
}

/// Removing an element from a sequence without repeats leaves none.
pub proof fn lemma_distinct_remove<A>(s: Seq<A>, i: int)
    requires
        0 <= i < s.len(),
        distinct(s),
    ensures
        distinct(s.remove(i)),
{
    let r = s.remove(i);
    assert forall|a: int, b: int| 0 <= a < r.len() && 0 <= b < r.len() && a != b implies r[a] != r[b] by {
        let sa = if a < i { a } else { a + 1 };
        let sb = if b < i { b } else { b + 1 };
        assert(r[a] == s[sa]);
        assert(r[b] == s[sb]);
    }
}

} // verus!
