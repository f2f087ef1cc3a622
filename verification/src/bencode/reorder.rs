//! Values that differ only in the order of the entries of their
//! dictionaries, and the canonical form that they share.

use vstd::prelude::*;
use crate::bencode::canonical::{
    canonical, canonical_entries, canonical_items, encoding, lemma_canonical_entries,
    lemma_canonical_items, lex_lt, sort_entries, sorted_order,
};
use crate::bencode::order::{
    ascending, lemma_distinct_ascend, lemma_lex_asymmetric, lemma_sorted_order,
    lemma_sorted_order_of_ascending, lemma_sorted_order_place,
};
use crate::bencode::value::{
    keys, keys_unique, lemma_first_index, lemma_no_index, lookup, Bencode,
};

verus! {

/// Whether a value is in canonical form: the keys of every dictionary in it
/// stand in strictly ascending order.
pub open spec fn is_canonical(value: Bencode) -> bool
    decreases value,
{
    match value {
        Bencode::Integer(_) => true,
        Bencode::ByteString(_) => true,
        Bencode::List(items) => forall|i: int|
            0 <= i < items.len() ==> is_canonical(#[trigger] items[i]),
        Bencode::Dictionary(entries) => {
            &&& ascending(keys(entries))
            &&& forall|i: int| 0 <= i < entries.len() ==> is_canonical((#[trigger] entries[i]).1)
        },
    }
}

/// Whether `b` is `a` but for the order of the entries of dictionaries: the
/// same integers and strings, lists of the same length whose items are so
/// related one by one, dictionaries with the same keys whose values are so
/// related key by key.
pub open spec fn reordering(a: Bencode, b: Bencode) -> bool
    decreases a,
{
    match a {
        Bencode::Integer(_) => a == b,
        Bencode::ByteString(_) => a == b,
        Bencode::List(items) => {
            &&& b matches Bencode::List(others)
            &&& items.len() == others.len()
            &&& forall|i: int| 0 <= i < items.len() ==> reordering(#[trigger] items[i], others[i])
        },
        Bencode::Dictionary(entries) => {
            &&& b matches Bencode::Dictionary(others)
            &&& forall|i: int|
                0 <= i < entries.len() ==> (lookup(others, (#[trigger] entries[i]).0) matches Some(
                    other,
                ) && reordering(entries[i].1, other))
            &&& forall|j: int|
                0 <= j < others.len() ==> lookup(entries, (#[trigger] others[j]).0) is Some
        },
    }
}

/// Entry `i` is what entries without a repeated key give to its key.
pub proof fn lemma_lookup_entry(entries: Seq<(Seq<u8>, Bencode)>, i: int)
    requires
        keys_unique(entries),
        0 <= i < entries.len(),
    ensures
        lookup(entries, entries[i].0) == Some(entries[i].1),
{
    let key = entries[i].0;
    keys(entries).index_of_first_ensures(key);
    assert(keys(entries)[i] == key);
}

/// What entries give to a key is the value of one of them with this key; they
/// give nothing to a key that none of them has.
pub proof fn lemma_lookup_index(entries: Seq<(Seq<u8>, Bencode)>, key: Seq<u8>) -> (i: int)
    ensures
        match lookup(entries, key) {
            Some(value) => 0 <= i < entries.len() && entries[i] == (key, value),
            None => forall|j: int| 0 <= j < entries.len() ==> (#[trigger] entries[j]).0 != key,
        },
{
    keys(entries).index_of_first_ensures(key);
    match keys(entries).index_of_first(key) {
        Some(found) => found,
        None => {
            assert forall|j: int| 0 <= j < entries.len() implies (#[trigger] entries[j]).0
                != key by {
                assert(keys(entries)[j] == entries[j].0);
            }
            0
        },
    }
}

/// Keys that ascend do not repeat.
pub proof fn lemma_ascending_unique(entries: Seq<(Seq<u8>, Bencode)>)
    requires
        ascending(keys(entries)),
    ensures
        keys_unique(entries),
{
    assert forall|i: int, j: int| 0 <= i < j < entries.len() implies (#[trigger] entries[i]).0 != (
    #[trigger] entries[j]).0 by {
        assert(keys(entries)[i] == entries[i].0 && keys(entries)[j] == entries[j].0);
        lemma_lex_asymmetric(entries[i].0, entries[i].0);
    }
}

/// Sorted entries without a repeated key: their keys ascend, and they give
/// to each key what the entries gave to it.
pub proof fn lemma_sort_entries(entries: Seq<(Seq<u8>, Bencode)>)
    requires
        keys_unique(entries),
    ensures
        sort_entries(entries).len() == entries.len(),
        ascending(keys(sort_entries(entries))),
        keys_unique(sort_entries(entries)),
        forall|j: int|
            0 <= j < entries.len() ==> 0 <= sorted_order(keys(entries))[j] < entries.len() && (
            #[trigger] sort_entries(entries)[j]) == entries[sorted_order(keys(entries))[j]],
        forall|key: Seq<u8>| #[trigger] lookup(sort_entries(entries), key) == lookup(entries, key),
{
    let order = sorted_order(keys(entries));
    let sorted = sort_entries(entries);
    let sorted_keys = keys(sorted);
    lemma_sorted_order(keys(entries));
    lemma_distinct_ascend(sorted_keys);
    assert forall|key: Seq<u8>| #[trigger] lookup(sorted, key) == lookup(entries, key) by {
        let i = lemma_lookup_index(entries, key);
        match lookup(entries, key) {
            Some(value) => {
                let j = lemma_sorted_order_place(keys(entries), i);
                lemma_lookup_entry(sorted, j);
            },
            None => {
                lemma_no_index(keys(sorted), key);
            },
        }
    }
}

/// The canonical form of a value without a repeated key has no repeated key,
/// is canonical, and is the value but for the order of entries.
pub proof fn lemma_canonical(value: Bencode)
    requires
        value.wf(),
    ensures
        canonical(value).wf(),
        is_canonical(canonical(value)),
        reordering(value, canonical(value)),
    decreases value,
{
    match value {
        Bencode::Integer(_) => {},
        Bencode::ByteString(_) => {},
        Bencode::List(items) => {
            lemma_canonical_items(items);
            let others = canonical_items(items);
            assert forall|i: int| 0 <= i < items.len() implies (#[trigger] others[i]).wf()
                && is_canonical(others[i]) && reordering(#[trigger] items[i], others[i]) by {
                lemma_canonical(items[i]);
            }
        },
        Bencode::Dictionary(entries) => {
            lemma_canonical_entries(entries);
            let made = canonical_entries(entries);
            let sorted = sort_entries(made);
            assert forall|i: int| 0 <= i < entries.len() implies (#[trigger] made[i]).1.wf()
                && is_canonical(made[i].1) && reordering(entries[i].1, made[i].1) by {
                lemma_canonical(entries[i].1);
            }
            lemma_sort_entries(made);
            assert forall|i: int| 0 <= i < entries.len() implies (lookup(
                sorted,
                (#[trigger] entries[i]).0,
            ) matches Some(other) && reordering(entries[i].1, other)) by {
                lemma_lookup_entry(made, i);
            }
        },
    }
}

/// A canonical value is its own canonical form, and has no repeated key.
pub proof fn lemma_canonical_of_canonical(value: Bencode)
    requires
        is_canonical(value),
    ensures
        canonical(value) == value,
        value.wf(),
    decreases value,
{
    match value {
        Bencode::Integer(_) => {},
        Bencode::ByteString(_) => {},
        Bencode::List(items) => {
            lemma_canonical_items(items);
            assert forall|i: int| 0 <= i < items.len() implies canonical_items(items)[i]
                == items[i] && (#[trigger] items[i]).wf() by {
                lemma_canonical_of_canonical(items[i]);
            }
            assert(canonical_items(items) =~= items);
        },
        Bencode::Dictionary(entries) => {
            lemma_canonical_entries(entries);
            let made = canonical_entries(entries);
            assert forall|i: int| 0 <= i < entries.len() implies made[i] == entries[i] && (
            #[trigger] entries[i]).1.wf() by {
                lemma_canonical_of_canonical(entries[i].1);
            }
            assert(made =~= entries);
            lemma_sorted_order_of_ascending(keys(entries));
            assert(sort_entries(entries) =~= entries);
            lemma_ascending_unique(entries);
        },
    }
}

/// What entries give to a key other than their first key, the entries after
/// the first give to it.
pub proof fn lemma_lookup_drop_first(entries: Seq<(Seq<u8>, Bencode)>, key: Seq<u8>)
    requires
        entries.len() > 0,
        entries[0].0 != key,
    ensures
        lookup(entries.drop_first(), key) == lookup(entries, key),
{
    let tail = entries.drop_first();
    lemma_lookup_index(entries, key);
    keys(entries).index_of_first_ensures(key);
    match keys(entries).index_of_first(key) {
        Some(first) => {
            assert forall|j: int| 0 <= j < first - 1 implies keys(tail)[j] != key by {
                assert(keys(tail)[j] == keys(entries)[j + 1]);
            }
            lemma_first_index(keys(tail), key, first - 1);
        },
        None => {
            lemma_no_index(keys(tail), key);
        },
    }
}

/// Entries with ascending keys that give the same to every key are the same
/// entries.
pub proof fn lemma_ascending_entries_equal(
    x: Seq<(Seq<u8>, Bencode)>,
    y: Seq<(Seq<u8>, Bencode)>,
)
    requires
        ascending(keys(x)),
        ascending(keys(y)),
        forall|key: Seq<u8>| #[trigger] lookup(x, key) == lookup(y, key),
    ensures
        x == y,
    decreases x.len(),
{
    lemma_ascending_unique(x);
    lemma_ascending_unique(y);
    if x.len() == 0 {
        if y.len() > 0 {
            lemma_lookup_entry(y, 0);
            lemma_lookup_index(x, y[0].0);
        }
    } else {
        lemma_lookup_entry(x, 0);
        let j = lemma_lookup_index(y, x[0].0);
        lemma_lookup_entry(y, 0);
        let i = lemma_lookup_index(x, y[0].0);
        if j > 0 {
            assert(keys(y)[0] == y[0].0 && keys(y)[j] == y[j].0);
            assert(keys(x)[0] == x[0].0 && keys(x)[i] == x[i].0);
            lemma_lex_asymmetric(x[0].0, x[i].0);
        }
        let xs = x.drop_first();
        let ys = y.drop_first();
        assert forall|a: int, b: int| 0 <= a < b < xs.len() implies lex_lt(
            #[trigger] keys(xs)[a],
            #[trigger] keys(xs)[b],
        ) by {
            assert(keys(xs)[a] == keys(x)[a + 1] && keys(xs)[b] == keys(x)[b + 1]);
        }
        assert forall|a: int, b: int| 0 <= a < b < ys.len() implies lex_lt(
            #[trigger] keys(ys)[a],
            #[trigger] keys(ys)[b],
        ) by {
            assert(keys(ys)[a] == keys(y)[a + 1] && keys(ys)[b] == keys(y)[b + 1]);
        }
        assert forall|key: Seq<u8>| #[trigger] lookup(xs, key) == lookup(ys, key) by {
            if key == x[0].0 {
                lemma_no_index(keys(xs), key);
                lemma_no_index(keys(ys), key);
            } else {
                lemma_lookup_drop_first(x, key);
                lemma_lookup_drop_first(y, key);
            }
        }
        lemma_ascending_entries_equal(xs, ys);
        assert(x =~= seq![x[0]] + xs);
    }
}

/// Values without a repeated key that differ only in the order of entries
/// have the same canonical form, and so the same encoding.
pub proof fn lemma_reordering_encodes_alike(a: Bencode, b: Bencode)
    requires
        a.wf(),
        b.wf(),
        reordering(a, b),
    ensures
        canonical(a) == canonical(b),
        encoding(a) == encoding(b),
    decreases a,
{
    match a {
        Bencode::Integer(_) => {},
        Bencode::ByteString(_) => {},
        Bencode::List(items) => {
            let others = b->List_0;
            lemma_canonical_items(items);
            lemma_canonical_items(others);
            assert forall|i: int| 0 <= i < items.len() implies canonical_items(items)[i]
                == canonical_items(others)[i] by {
                lemma_reordering_encodes_alike(items[i], others[i]);
            }
            assert(canonical_items(items) =~= canonical_items(others));
        },
        Bencode::Dictionary(entries) => {
            let others = b->Dictionary_0;
            let made = canonical_entries(entries);
            let other_made = canonical_entries(others);
            lemma_canonical_entries(entries);
            lemma_canonical_entries(others);
            lemma_sort_entries(made);
            lemma_sort_entries(other_made);
            assert forall|key: Seq<u8>| #[trigger] lookup(made, key) == lookup(
                other_made,
                key,
            ) by {
                let i = lemma_lookup_index(made, key);
                lemma_lookup_index(other_made, key);
                if lookup(made, key) is Some {
                    let k = lemma_lookup_index(others, key);
                    lemma_reordering_encodes_alike(entries[i].1, others[k].1);
                } else if lookup(other_made, key) is Some {
                }
            }
            lemma_ascending_entries_equal(sort_entries(made), sort_entries(other_made));
        },
    }
}

/// What a dictionary gives to a key, a reordering of it gives to the key
/// but for the order of entries; and nothing where it gives nothing.
pub proof fn lemma_field_of_reordering(a: Bencode, b: Bencode, key: Seq<u8>)
    requires
        reordering(a, b),
    ensures
        match a.field(key) {
            Some(value) => b.field(key) matches Some(other) && reordering(value, other),
            None => b.field(key) is None,
        },
{
    if let Bencode::Dictionary(entries) = a {
        lemma_lookup_index(entries, key);
        lemma_lookup_index(b->Dictionary_0, key);
    }
}

} // verus!
