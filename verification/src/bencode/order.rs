//! The order of byte strings, and what holds of the sorted order of keys.

use vstd::prelude::*;
use crate::bencode::canonical::{
    insertion_point, lemma_insertion_point_range, lex_lt, sorted_order,
};

verus! {

/// Whether the keys stand in strictly ascending order.
pub open spec fn ascending(keys: Seq<Seq<u8>>) -> bool {
    forall|i: int, j: int|
        0 <= i < j < keys.len() ==> lex_lt(#[trigger] keys[i], #[trigger] keys[j])
}

/// Whether the keys, taken in the order of the indices in `order`, never
/// descend.
pub open spec fn never_descends(keys: Seq<Seq<u8>>, order: Seq<int>) -> bool {
    forall|i: int, j: int|
        0 <= i < j < order.len() ==> !lex_lt(keys[#[trigger] order[j]], keys[#[trigger] order[i]])
}

/// Whether `order` holds each index below `n` once.
pub open spec fn is_permutation(order: Seq<int>, n: nat) -> bool {
    &&& order.len() == n
    &&& forall|j: int| 0 <= j < n ==> 0 <= #[trigger] order[j] < n
    &&& forall|i: int, j: int| 0 <= i < j < n ==> #[trigger] order[i] != #[trigger] order[j]
}

/// No byte string comes before itself, and of two, not each before the other.
pub proof fn lemma_lex_asymmetric(a: Seq<u8>, b: Seq<u8>)
    ensures
        lex_lt(a, b) ==> !lex_lt(b, a),
        !lex_lt(a, a),
    decreases a.len(),
{
    if a.len() > 0 && b.len() > 0 && a[0] == b[0] {
        lemma_lex_asymmetric(a.drop_first(), b.drop_first());
    }
    if a.len() > 0 {
        lemma_lex_asymmetric(a.drop_first(), a.drop_first());
    }
}

/// Of two byte strings that differ, one comes before the other.
pub proof fn lemma_lex_total(a: Seq<u8>, b: Seq<u8>)
    ensures
        a == b || lex_lt(a, b) || lex_lt(b, a),
    decreases a.len(),
{
    if a.len() == 0 || b.len() == 0 {
    } else if a[0] == b[0] {
        lemma_lex_total(a.drop_first(), b.drop_first());
        if a.drop_first() == b.drop_first() {
            assert(a =~= seq![a[0]] + a.drop_first());
        }
    }
}

/// A byte string comes before another where, at the first index at which
/// they differ, it has the smaller byte.
pub proof fn lemma_lex_first_difference(a: Seq<u8>, b: Seq<u8>, k: int)
    requires
        0 <= k < a.len(),
        k < b.len(),
        forall|j: int| 0 <= j < k ==> a[j] == b[j],
        a[k] < b[k],
    ensures
        lex_lt(a, b),
    decreases k,
{
    if k > 0 {
        lemma_lex_first_difference(a.drop_first(), b.drop_first(), k - 1);
    }
}

/// What comes before a byte string comes before all that it comes before.
pub proof fn lemma_lex_transitive(a: Seq<u8>, b: Seq<u8>, c: Seq<u8>)
    requires
        lex_lt(a, b),
        lex_lt(b, c),
    ensures
        lex_lt(a, c),
    decreases a.len(),
{
    if a.len() > 0 && b.len() > 0 && c.len() > 0 && a[0] == b[0] && b[0] == c[0] {
        lemma_lex_transitive(a.drop_first(), b.drop_first(), c.drop_first());
    }
}

/// Where `b` does not come before `a` nor `c` before `b`, `c` does not come
/// before `a`.
pub proof fn lemma_lex_not_before(a: Seq<u8>, b: Seq<u8>, c: Seq<u8>)
    requires
        !lex_lt(b, a),
        !lex_lt(c, b),
    ensures
        !lex_lt(c, a),
{
    lemma_lex_total(a, b);
    if lex_lt(c, a) && lex_lt(a, b) {
        lemma_lex_transitive(c, a, b);
    }
}

/// An insertion point parts the order: the keys before it are not greater
/// than `key`, the keys from it on are greater.
pub proof fn lemma_insertion_point(keys: Seq<Seq<u8>>, order: Seq<int>, key: Seq<u8>)
    requires
        never_descends(keys, order),
    ensures
        0 <= insertion_point(keys, order, key) <= order.len(),
        forall|j: int|
            0 <= j < insertion_point(keys, order, key) ==> !lex_lt(key, keys[#[trigger] order[j]]),
        forall|j: int|
            insertion_point(keys, order, key) <= j < order.len() ==> lex_lt(
                key,
                keys[#[trigger] order[j]],
            ),
    decreases order.len(),
{
    if order.len() == 0 {
    } else if lex_lt(key, keys[order.last()]) {
        let front = order.drop_last();
        lemma_insertion_point(keys, front, key);
        let p = insertion_point(keys, front, key);
        assert forall|j: int| 0 <= j < p implies !lex_lt(key, keys[#[trigger] order[j]]) by {
            assert(order[j] == front[j]);
        }
        assert forall|j: int| p <= j < order.len() implies lex_lt(
            key,
            keys[#[trigger] order[j]],
        ) by {
            if j < front.len() {
                assert(order[j] == front[j]);
            }
        }
    } else {
        let last = order.len() - 1;
        assert forall|j: int| 0 <= j < order.len() implies !lex_lt(
            key,
            keys[#[trigger] order[j]],
        ) by {
            if j < last {
                lemma_lex_not_before(keys[order[j]], keys[order[last]], key);
            }
        }
    }
}

/// The sorted order of `n` keys holds each index below `n` once, and the keys
/// never descend along it.
pub proof fn lemma_sorted_order(keys: Seq<Seq<u8>>)
    ensures
        is_permutation(sorted_order(keys), keys.len()),
        never_descends(keys, sorted_order(keys)),
    decreases keys.len(),
{
    if keys.len() > 0 {
        let front = keys.drop_last();
        let before = sorted_order(front);
        lemma_sorted_order(front);
        lemma_insertion_point(keys, before, keys.last());
        let p = insertion_point(keys, before, keys.last());
        let order = sorted_order(keys);
        assert forall|i: int, j: int| 0 <= i < j < order.len() implies #[trigger] order[i]
            != #[trigger] order[j] && !lex_lt(keys[order[j]], keys[order[i]]) by {
            let b = if j < p {
                j
            } else {
                j - 1
            };
            if i == p {
                lemma_lex_asymmetric(keys.last(), keys[before[b]]);
            }
        }
    }
}

/// Each index has its place in the sorted order.
pub proof fn lemma_sorted_order_place(keys: Seq<Seq<u8>>, i: int) -> (j: int)
    requires
        0 <= i < keys.len(),
    ensures
        0 <= j < keys.len(),
        sorted_order(keys).len() == keys.len(),
        sorted_order(keys)[j] == i,
    decreases keys.len(),
{
    let front = keys.drop_last();
    let before = sorted_order(front);
    let last = keys.len() - 1;
    lemma_sorted_order(front);
    lemma_insertion_point_range(keys, before, keys.last());
    let p = insertion_point(keys, before, keys.last());
    if i == last {
        p
    } else {
        let b = lemma_sorted_order_place(front, i);
        if b < p {
            b
        } else {
            b + 1
        }
    }
}

/// Keys that stand in ascending order are their own sorted order.
pub proof fn lemma_sorted_order_of_ascending(keys: Seq<Seq<u8>>)
    requires
        ascending(keys),
    ensures
        sorted_order(keys) == Seq::new(keys.len(), |i: int| i),
    decreases keys.len(),
{
    if keys.len() > 0 {
        let front = keys.drop_last();
        let before = sorted_order(front);
        lemma_sorted_order_of_ascending(front);
        if before.len() > 0 {
            let prev = keys.len() - 2;
            lemma_lex_asymmetric(keys[prev], keys.last());
        }
    }
}

/// Keys that never descend and do not repeat ascend.
pub proof fn lemma_distinct_ascend(keys: Seq<Seq<u8>>)
    requires
        forall|i: int, j: int|
            0 <= i < j < keys.len() ==> !lex_lt(#[trigger] keys[j], #[trigger] keys[i]),
        forall|i: int, j: int|
            0 <= i < j < keys.len() ==> #[trigger] keys[i] != #[trigger] keys[j],
    ensures
        ascending(keys),
{
    assert forall|i: int, j: int| 0 <= i < j < keys.len() implies lex_lt(
        #[trigger] keys[i],
        #[trigger] keys[j],
    ) by {
        lemma_lex_total(keys[i], keys[j]);
    }
}

} // verus!
