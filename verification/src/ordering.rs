//! Stable sorting by an integer key.

use vstd::prelude::*;

verus! {

/// A sorted sequence with one more item, behind every item of at most its key.
pub open spec fn inserted<T>(s: Seq<T>, x: T, key: spec_fn(T) -> int) -> Seq<T>
    decreases s.len(),
{
    if s.len() == 0 || key(s.last()) <= key(x) {
        s.push(x)
    } else {
        inserted(s.drop_last(), x, key).push(s.last())
    }
}

/// The items in ascending order of their keys; items of one key keep their
/// order.
pub open spec fn stably_sorted<T>(s: Seq<T>, key: spec_fn(T) -> int) -> Seq<T>
    decreases s.len(),
{
    if s.len() == 0 {
        Seq::empty()
    } else {
        inserted(stably_sorted(s.drop_last(), key), s.last(), key)
    }
}

/// Keys never fall.
pub open spec fn ascends<T>(s: Seq<T>, key: spec_fn(T) -> int) -> bool {
    forall|i: int, j: int| 0 <= i < j < s.len() ==> key(#[trigger] s[i]) <= key(#[trigger] s[j])
}

/// Inserting happens at the one place that keeps the order.
pub proof fn lemma_inserted_at<T>(s: Seq<T>, x: T, key: spec_fn(T) -> int, pos: int)
    requires
        0 <= pos <= s.len(),
        pos > 0 ==> key(s[pos - 1]) <= key(x),
        forall|i: int| pos <= i < s.len() ==> key(#[trigger] s[i]) > key(x),
    ensures
        inserted(s, x, key) == s.insert(pos, x),
    decreases s.len(),
{
    if pos == s.len() {
        assert(s.insert(pos, x) == s.push(x));
    } else {
        assert(key(s[s.len() - 1]) > key(x));
        lemma_inserted_at(s.drop_last(), x, key, pos);
        assert(s.insert(pos, x) == s.drop_last().insert(pos, x).push(s.last()));
    }
}

proof fn lemma_inserted_keeps_order<T>(s: Seq<T>, x: T, key: spec_fn(T) -> int)
    requires
        ascends(s, key),
    ensures
        ascends(inserted(s, x, key), key),
        inserted(s, x, key).len() == s.len() + 1,
        inserted(s, x, key).to_multiset() == s.to_multiset().insert(x),
        forall|y: T| #[trigger] inserted(s, x, key).contains(y) ==> y == x || s.contains(y),
    decreases s.len(),
{
    broadcast use vstd::seq_lib::group_to_multiset_ensures;

    let out = inserted(s, x, key);
    if s.len() == 0 || key(s.last()) <= key(x) {
        assert forall|i: int, j: int| 0 <= i < j < out.len() implies key(#[trigger] out[i]) <= key(
            #[trigger] out[j],
        ) by {
            if j == s.len() && i < s.len() - 1 {
                assert(key(s[i]) <= key(s[s.len() - 1]));
            }
        }
        assert forall|y: T| #[trigger] out.contains(y) implies y == x || s.contains(y) by {
            let k = choose|k: int| 0 <= k < out.len() && out[k] == y;
            if k < s.len() {
                assert(s[k] == y);
            }
        }
    } else {
        let front = s.drop_last();
        let inner = inserted(front, x, key);
        lemma_inserted_keeps_order(front, x, key);
        assert forall|i: int, j: int| 0 <= i < j < out.len() implies key(#[trigger] out[i]) <= key(
            #[trigger] out[j],
        ) by {
            if j == inner.len() {
                assert(inner.contains(inner[i]));
                if inner[i] != x {
                    let k = choose|k: int| 0 <= k < front.len() && front[k] == inner[i];
                    assert(key(s[k]) <= key(s[s.len() - 1]));
                }
            } else {
                assert(key(inner[i]) <= key(inner[j]));
            }
        }
        assert forall|y: T| #[trigger] out.contains(y) implies y == x || s.contains(y) by {
            let k = choose|k: int| 0 <= k < out.len() && out[k] == y;
            if k < inner.len() {
                assert(inner[k] == y);
                assert(inner.contains(y));
                if y != x {
                    let m = choose|m: int| 0 <= m < front.len() && front[m] == y;
                    assert(s[m] == y);
                }
            } else {
                assert(s[s.len() - 1] == y);
            }
        }
        assert(s == front.push(s.last()));
        assert(front.push(s.last()).to_multiset() == front.to_multiset().insert(s.last()));
        assert(out.to_multiset() == inner.to_multiset().insert(s.last()));
        assert(front.to_multiset().insert(x).insert(s.last()) =~= front.to_multiset().insert(
            s.last(),
        ).insert(x));
    }
}

/// Sorting keeps every item exactly as often as it came, in ascending order.
pub proof fn law_sorting_permutes_into_order<T>(s: Seq<T>, key: spec_fn(T) -> int)
    ensures
        ascends(stably_sorted(s, key), key),
        stably_sorted(s, key).to_multiset() == s.to_multiset(),
        stably_sorted(s, key).len() == s.len(),
    decreases s.len(),
{
    broadcast use vstd::seq_lib::group_to_multiset_ensures;

    if s.len() > 0 {
        law_sorting_permutes_into_order(s.drop_last(), key);
        lemma_inserted_keeps_order(stably_sorted(s.drop_last(), key), s.last(), key);
        assert(s == s.drop_last().push(s.last()));
    } else {
        assert(s =~= Seq::empty());
    }
}

/// Sorting leaves alone what is in order.
pub proof fn law_sorting_keeps_what_is_sorted<T>(s: Seq<T>, key: spec_fn(T) -> int)
    requires
        ascends(s, key),
    ensures
        stably_sorted(s, key) == s,
    decreases s.len(),
{
    if s.len() > 0 {
        law_sorting_keeps_what_is_sorted(s.drop_last(), key);
        if s.len() > 1 {
            assert(key(s[s.len() - 2]) <= key(s[s.len() - 1]));
        }
        assert(s.drop_last().push(s.last()) == s);
    }
}

} // verus!
