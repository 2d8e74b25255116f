//! Stable sorting by an integer key, as a function on sequences.

use vstd::prelude::*;

verus! {

/// Where a value with the key `k` goes into `sorted`: behind every value
/// whose key is not above `k`.
pub open spec fn insertion_point<T>(sorted: Seq<T>, key: spec_fn(T) -> int, k: int) -> int
    decreases sorted.len(),
{
    if sorted.len() == 0 || key(sorted.last()) <= k {
        sorted.len() as int
    } else {
        insertion_point(sorted.drop_last(), key, k)
    }
}

/// `sorted` with `x` put in at its insertion point.
pub open spec fn insert_by_key<T>(sorted: Seq<T>, key: spec_fn(T) -> int, x: T) -> Seq<T> {
    sorted.insert(insertion_point(sorted, key, key(x)), x)
}

/// The values of `s` in ascending order of their keys; values with one key
/// keep the order that they have in `s`.
pub open spec fn sort_by_key<T>(s: Seq<T>, key: spec_fn(T) -> int) -> Seq<T>
    decreases s.len(),
{
    if s.len() == 0 {
        s
    } else {
        insert_by_key(sort_by_key(s.drop_last(), key), key, s.last())
    }
}

/// Whether the keys of `s` never descend.
pub open spec fn ascending_by_key<T>(s: Seq<T>, key: spec_fn(T) -> int) -> bool {
    forall|i: int, j: int| 0 <= i < j < s.len() ==> key(s[i]) <= key(s[j])
}

/// The insertion point lies in the sequence or at its end, has only keys
/// above `k` from it on, and a key not above `k` just before it.
pub proof fn lemma_insertion_point<T>(sorted: Seq<T>, key: spec_fn(T) -> int, k: int)
    ensures
        0 <= insertion_point(sorted, key, k) <= sorted.len(),
        forall|j: int|
            insertion_point(sorted, key, k) <= j < sorted.len() ==> key(#[trigger] sorted[j]) > k,
        insertion_point(sorted, key, k) > 0 ==> key(
            sorted[insertion_point(sorted, key, k) - 1],
        ) <= k,
    decreases sorted.len(),
{
    if sorted.len() == 0 || key(sorted.last()) <= k {
    } else {
        let shorter = sorted.drop_last();
        lemma_insertion_point(shorter, key, k);
        let p = insertion_point(sorted, key, k);
        assert forall|j: int| p <= j < sorted.len() implies key(#[trigger] sorted[j]) > k by {
            if j < shorter.len() {
                assert(sorted[j] == shorter[j]);
            }
        }
        if p > 0 {
            assert(sorted[p - 1] == shorter[p - 1]);
        }
    }
}

/// The insertion point is the one index with a key not above `k` just before
/// it, or nothing, and only keys above `k` from it on.
pub proof fn lemma_insertion_point_unique<T>(
    sorted: Seq<T>,
    key: spec_fn(T) -> int,
    k: int,
    i: int,
)
    requires
        0 <= i <= sorted.len(),
        forall|j: int| i <= j < sorted.len() ==> key(#[trigger] sorted[j]) > k,
        i > 0 ==> key(sorted[i - 1]) <= k,
    ensures
        insertion_point(sorted, key, k) == i,
    decreases sorted.len(),
{
    if sorted.len() == 0 || key(sorted.last()) <= k {
        if i < sorted.len() {
            assert(key(sorted[sorted.len() - 1]) > k);
        }
    } else {
        let shorter = sorted.drop_last();
        assert forall|j: int| i <= j < shorter.len() implies key(#[trigger] shorter[j]) > k by {
            assert(sorted[j] == shorter[j]);
        }
        if i == sorted.len() {
            assert(key(sorted[i - 1]) <= k);
        }
        if i > 0 {
            assert(sorted[i - 1] == shorter[i - 1]);
        }
        lemma_insertion_point_unique(shorter, key, k, i);
    }
}

/// Putting a value in at its insertion point keeps an ascending sequence
/// ascending.
pub proof fn lemma_insert_keeps_ascending<T>(sorted: Seq<T>, key: spec_fn(T) -> int, x: T)
    requires
        ascending_by_key(sorted, key),
    ensures
        ascending_by_key(insert_by_key(sorted, key, x), key),
{
    let p = insertion_point(sorted, key, key(x));
    lemma_insertion_point(sorted, key, key(x));
    let r = insert_by_key(sorted, key, x);
    assert forall|i: int, j: int| 0 <= i < j < r.len() implies key(r[i]) <= key(r[j]) by {
        if j < p {
        } else if i > p {
            assert(r[i] == sorted[i - 1]);
            assert(r[j] == sorted[j - 1]);
        } else if i == p {
            assert(r[j] == sorted[j - 1]);
        } else if j == p {
            if p > 0 {
                assert(key(sorted[p - 1]) <= key(x));
                assert(key(sorted[i]) <= key(sorted[p - 1]));
            }
        } else {
            assert(r[j] == sorted[j - 1]);
        }
    }
}

/// A sorted sequence is ascending and holds the values of the unsorted one,
/// each as often.
pub proof fn lemma_sort_by_key<T>(s: Seq<T>, key: spec_fn(T) -> int)
    ensures
        ascending_by_key(sort_by_key(s, key), key),
        sort_by_key(s, key).len() == s.len(),
        sort_by_key(s, key).to_multiset() == s.to_multiset(),
    decreases s.len(),
{
    broadcast use vstd::seq_lib::group_to_multiset_ensures;

    if s.len() == 0 {
    } else {
        let before = sort_by_key(s.drop_last(), key);
        lemma_sort_by_key(s.drop_last(), key);
        lemma_insert_keeps_ascending(before, key, s.last());
        lemma_insertion_point(before, key, key(s.last()));
        let p = insertion_point(before, key, key(s.last()));
        assert(s == s.drop_last().push(s.last()));
        before.to_multiset_ensures();
        s.drop_last().to_multiset_ensures();
        assert(before.insert(p, s.last()).to_multiset() == before.to_multiset().insert(s.last()));
    }
}

} // verus!
