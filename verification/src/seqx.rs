//! Shared sequence reasoning for the association lists that back the claim
//! table, the crypto map and the traffic counters: filtering by a predicate,
//! key distinctness, and key-based search, plus saturating addition.

use vstd::prelude::*;

verus! {

/// `a + b`, capped at the largest representable value.
pub open spec fn sat_add_u64(a: u64, b: u64) -> u64 {
    if a + b > u64::MAX {
        u64::MAX
    } else {
        (a + b) as u64
    }
}

pub fn sat_add(a: u64, b: u64) -> (r: u64)
    ensures
        r == sat_add_u64(a, b),
{
    if a > u64::MAX - b {
        u64::MAX
    } else {
        a + b
    }
}

/// The keys drawn from the elements are pairwise distinct.
pub open spec fn distinct_keys<A, K>(s: Seq<A>, key: spec_fn(A) -> K) -> bool {
    forall|i: int, j: int|
        0 <= i < j < s.len() ==> #[trigger] key(s[i]) != #[trigger] key(s[j])
}

/// The last element binding `k`, if any. Later entries shadow earlier ones,
/// though every association list in this crate keeps its keys distinct.
pub open spec fn find_map<K, V>(s: Seq<(K, V)>, k: K) -> Option<V>
    decreases s.len(),
{
    if s.len() == 0 {
        None
    } else if s.last().0 == k {
        Some(s.last().1)
    } else {
        find_map(s.drop_last(), k)
    }
}

/// Dropping the just-pushed element gives back the original sequence.
pub proof fn lemma_push_drop_last<A>(s: Seq<A>, x: A)
    ensures
        s.push(x).drop_last() == s,
{
    assert(s.push(x).drop_last() =~= s);
}

/// Filtering commutes with push.
pub proof fn lemma_filter_push<A>(s: Seq<A>, x: A, pred: spec_fn(A) -> bool)
    ensures
        s.push(x).filter(pred) == if pred(x) {
            s.filter(pred).push(x)
        } else {
            s.filter(pred)
        },
{
    reveal(Seq::filter);
    lemma_push_drop_last(s, x);
    assert(s.push(x).last() == x);
}

/// A sequence every element of which satisfies the predicate filters to
/// itself.
pub proof fn lemma_filter_all<A>(s: Seq<A>, pred: spec_fn(A) -> bool)
    requires
        forall|i: int| 0 <= i < s.len() ==> pred(#[trigger] s[i]),
    ensures
        s.filter(pred) == s,
    decreases s.len(),
{
    reveal(Seq::filter);
    if s.len() == 0 {
        assert(s.filter(pred) =~= s);
    } else {
        lemma_filter_all(s.drop_last(), pred);
        assert(s.filter(pred) =~= s);
    }
}

/// Filtering twice by one predicate filters once.
pub proof fn lemma_filter_idem<A>(s: Seq<A>, pred: spec_fn(A) -> bool)
    ensures
        s.filter(pred).filter(pred) == s.filter(pred),
{
    broadcast use Seq::lemma_filter_pred;

    lemma_filter_all(s.filter(pred), pred);
}

/// Every element of the filtered sequence occurs in the original.
pub proof fn lemma_filter_contained<A>(s: Seq<A>, pred: spec_fn(A) -> bool)
    ensures
        forall|i: int|
            0 <= i < s.filter(pred).len() ==> #[trigger] s.contains(s.filter(pred)[i]),
    decreases s.len(),
{
    reveal(Seq::filter);
    if s.len() == 0 {
    } else {
        let sd = s.drop_last();
        let fd = sd.filter(pred);
        lemma_filter_contained(sd, pred);
        assert forall|i: int| 0 <= i < s.filter(pred).len() implies #[trigger] s.contains(
            s.filter(pred)[i],
        ) by {
            if i < fd.len() {
                assert(sd.contains(fd[i]));
                let j = choose|j: int| 0 <= j < sd.len() && sd[j] == fd[i];
                assert(s[j] == s.filter(pred)[i]);
            } else {
                assert(s.filter(pred)[i] == s.last());
                assert(s[s.len() - 1] == s.last());
            }
        }
    }
}

/// Filtering keeps keys pairwise distinct.
pub proof fn lemma_filter_distinct_keys<A, K>(
    s: Seq<A>,
    pred: spec_fn(A) -> bool,
    key: spec_fn(A) -> K,
)
    requires
        distinct_keys(s, key),
    ensures
        distinct_keys(s.filter(pred), key),
    decreases s.len(),
{
    reveal(Seq::filter);
    if s.len() == 0 {
    } else {
        let sd = s.drop_last();
        let fd = sd.filter(pred);
        assert(distinct_keys(sd, key));
        lemma_filter_distinct_keys(sd, pred, key);
        if pred(s.last()) {
            lemma_filter_contained(sd, pred);
            assert forall|i: int| 0 <= i < fd.len() implies key(fd[i]) != key(s.last()) by {
                assert(sd.contains(fd[i]));
                let j = choose|j: int| 0 <= j < sd.len() && sd[j] == fd[i];
                assert(key(s[j]) != key(s[s.len() - 1]));
            }
            assert(s.filter(pred) == fd.push(s.last()));
            assert forall|i: int, j: int|
                0 <= i < j < s.filter(pred).len() implies #[trigger] key(
                s.filter(pred)[i],
            ) != #[trigger] key(s.filter(pred)[j]) by {
                if j < fd.len() {
                    assert(key(fd[i]) != key(fd[j]));
                } else {
                    assert(s.filter(pred)[j] == s.last());
                    assert(key(fd[i]) != key(s.last()));
                }
            }
        }
    }
}

/// Removing the only element that fails the predicate is the same as
/// filtering by it.
pub proof fn lemma_remove_is_filter<A>(s: Seq<A>, pred: spec_fn(A) -> bool, idx: int)
    requires
        0 <= idx < s.len(),
        !pred(s[idx]),
        forall|j: int| 0 <= j < s.len() && j != idx ==> pred(#[trigger] s[j]),
    ensures
        s.remove(idx) == s.filter(pred),
    decreases s.len(),
{
    reveal(Seq::filter);
    let sd = s.drop_last();
    if idx == s.len() - 1 {
        assert(s.remove(idx) =~= sd);
        lemma_filter_all(sd, pred);
        assert(s.filter(pred) =~= sd);
    } else {
        lemma_remove_is_filter(sd, pred, idx);
        assert(pred(s.last())) by {
            assert(s.last() == s[s.len() - 1]);
        }
        assert(s.filter(pred) == sd.filter(pred).push(s.last()));
        assert(s.remove(idx) =~= sd.remove(idx).push(s.last()));
    }
}

/// Looking up a key just pushed finds its value.
pub proof fn lemma_find_map_push_same<K, V>(s: Seq<(K, V)>, k: K, v: V)
    ensures
        find_map(s.push((k, v)), k) == Some(v),
{
    assert(s.push((k, v)).last() == (k, v));
}

/// Pushing a binding for one key leaves every other key's lookup unchanged.
pub proof fn lemma_find_map_push_other<K, V>(s: Seq<(K, V)>, k: K, v: V, q: K)
    requires
        q != k,
    ensures
        find_map(s.push((k, v)), q) == find_map(s, q),
{
    lemma_push_drop_last(s, (k, v));
}

/// In a list with no binding for the key, lookup finds nothing.
pub proof fn lemma_find_map_absent<K, V>(s: Seq<(K, V)>, k: K)
    requires
        forall|i: int| 0 <= i < s.len() ==> (#[trigger] s[i]).0 != k,
    ensures
        find_map(s, k) == None::<V>,
    decreases s.len(),
{
    if s.len() > 0 {
        assert(s.last() == s[s.len() - 1]);
        lemma_find_map_absent(s.drop_last(), k);
    }
}

/// With distinct keys, lookup of a bound key finds exactly its value.
pub proof fn lemma_find_map_present<K, V>(s: Seq<(K, V)>, k: K, i: int)
    requires
        distinct_keys(s, |e: (K, V)| e.0),
        0 <= i < s.len(),
        s[i].0 == k,
    ensures
        find_map(s, k) == Some(s[i].1),
    decreases s.len(),
{
    let key = |e: (K, V)| e.0;
    assert(s.last() == s[s.len() - 1]);
    if i == s.len() - 1 {
    } else {
        assert(key(s[i]) != key(s[s.len() - 1]));
        assert(distinct_keys(s.drop_last(), key));
        lemma_find_map_present(s.drop_last(), k, i);
    }
}

/// A filter that keeps every binding of a key leaves that key's lookup
/// unchanged.
pub proof fn lemma_find_map_filter_other<K, V>(
    s: Seq<(K, V)>,
    pred: spec_fn((K, V)) -> bool,
    q: K,
)
    requires
        forall|e: (K, V)| e.0 == q ==> #[trigger] pred(e),
    ensures
        find_map(s.filter(pred), q) == find_map(s, q),
    decreases s.len(),
{
    reveal(Seq::filter);
    if s.len() == 0 {
    } else {
        let sd = s.drop_last();
        lemma_find_map_filter_other(sd, pred, q);
        assert(s.last() == s[s.len() - 1]);
        if pred(s.last()) {
            assert(s.filter(pred) == sd.filter(pred).push(s.last()));
            lemma_push_drop_last(sd.filter(pred), s.last());
        }
    }
}

/// A filter that drops every binding of a key makes that key's lookup find
/// nothing.
pub proof fn lemma_find_map_filter_same<K, V>(s: Seq<(K, V)>, pred: spec_fn((K, V)) -> bool, k: K)
    requires
        forall|e: (K, V)| #[trigger] pred(e) ==> e.0 != k,
    ensures
        find_map(s.filter(pred), k) == None::<V>,
{
    broadcast use Seq::lemma_filter_pred;

    lemma_find_map_absent(s.filter(pred), k);
}

/// A lookup succeeds exactly when some element binds the key.
pub proof fn lemma_find_map_some_iff<K, V>(s: Seq<(K, V)>, k: K)
    ensures
        find_map(s, k) is Some <==> exists|i: int| 0 <= i < s.len() && (#[trigger] s[i]).0 == k,
    decreases s.len(),
{
    if s.len() > 0 {
        assert(s.last() == s[s.len() - 1]);
        lemma_find_map_some_iff(s.drop_last(), k);
        if find_map(s, k) is Some && s.last().0 != k {
            let i = choose|i: int| 0 <= i < s.drop_last().len() && (#[trigger] s.drop_last()[i]).0
                == k;
            assert(s[i] == s.drop_last()[i]);
        }
        if s.last().0 != k && exists|i: int| 0 <= i < s.len() && (#[trigger] s[i]).0 == k {
            let i = choose|i: int| 0 <= i < s.len() && (#[trigger] s[i]).0 == k;
            assert(s.drop_last()[i] == s[i]);
        }
    }
}

} // verus!
