//! The canonical form of a value and its serialisation: dictionaries with
//! their keys in ascending order of their bytes, integers in the fewest digits.

use vstd::prelude::*;
use crate::bencode::grammar::{COLON, DICTIONARY_START, END, INTEGER_START, LIST_START, MINUS};
use crate::bencode::value::{keys, Bencode};
use crate::decimal::decimal;

verus! {

/// Whether `a` comes before `b` in the order of byte strings: at the first
/// index where they differ `a` has the smaller byte, or `a` ends there and `b`
/// goes on.
pub open spec fn lex_lt(a: Seq<u8>, b: Seq<u8>) -> bool
    decreases a.len(),
{
    if b.len() == 0 {
        false
    } else if a.len() == 0 {
        true
    } else if a[0] != b[0] {
        a[0] < b[0]
    } else {
        lex_lt(a.drop_first(), b.drop_first())
    }
}

/// The place in `order` at which the index of `key` goes to keep the keys
/// ascending: behind every index whose key is not greater than `key`.
pub open spec fn insertion_point(keys: Seq<Seq<u8>>, order: Seq<int>, key: Seq<u8>) -> int
    decreases order.len(),
{
    if order.len() == 0 {
        0
    } else if lex_lt(key, keys[order.last()]) {
        insertion_point(keys, order.drop_last(), key)
    } else {
        order.len() as int
    }
}

/// The indices of `keys` in ascending order of the keys they stand for; equal
/// keys stay in the order they have.
pub open spec fn sorted_order(keys: Seq<Seq<u8>>) -> Seq<int>
    decreases keys.len(),
{
    if keys.len() == 0 {
        Seq::empty()
    } else {
        let order = sorted_order(keys.drop_last());
        order.insert(insertion_point(keys, order, keys.last()), keys.len() - 1)
    }
}

/// The entries in ascending order of their keys.
pub open spec fn sort_entries(entries: Seq<(Seq<u8>, Bencode)>) -> Seq<(Seq<u8>, Bencode)> {
    Seq::new(entries.len(), |j: int| entries[sorted_order(keys(entries))[j]])
}

/// The canonical form of a value: the same value with the entries of every
/// dictionary in ascending order of their keys.
pub open spec fn canonical(value: Bencode) -> Bencode
    decreases value,
{
    match value {
        Bencode::Integer(_) => value,
        Bencode::ByteString(_) => value,
        Bencode::List(items) => Bencode::List(canonical_items(items)),
        Bencode::Dictionary(entries) => Bencode::Dictionary(
            sort_entries(canonical_entries(entries)),
        ),
    }
}

/// The canonical forms of the items.
pub open spec fn canonical_items(items: Seq<Bencode>) -> Seq<Bencode>
    decreases items,
{
    if items.len() == 0 {
        Seq::empty()
    } else {
        canonical_items(items.drop_last()).push(canonical(items.last()))
    }
}

/// The entries with each value in its canonical form, in the order they have.
pub open spec fn canonical_entries(entries: Seq<(Seq<u8>, Bencode)>) -> Seq<(Seq<u8>, Bencode)>
    decreases entries,
{
    if entries.len() == 0 {
        Seq::empty()
    } else {
        canonical_entries(entries.drop_last()).push(
            (entries.last().0, canonical(entries.last().1)),
        )
    }
}

/// A string on the wire: its length in decimal, a colon, its bytes.
pub open spec fn serialize_string(bytes: Seq<u8>) -> Seq<u8> {
    decimal(bytes.len()) + seq![COLON] + bytes
}

/// An integer on the wire: `i`, its shortest decimal numeral, `e`.
pub open spec fn serialize_integer(n: i64) -> Seq<u8> {
    if n < 0 {
        seq![INTEGER_START, MINUS] + decimal((-n) as nat) + seq![END]
    } else {
        seq![INTEGER_START] + decimal(n as nat) + seq![END]
    }
}

/// A value on the wire, its dictionaries in the order they have.
pub open spec fn serialize(value: Bencode) -> Seq<u8>
    decreases value,
{
    match value {
        Bencode::Integer(n) => serialize_integer(n),
        Bencode::ByteString(bytes) => serialize_string(bytes),
        Bencode::List(items) => seq![LIST_START] + serialize_items(items) + seq![END],
        Bencode::Dictionary(entries) => seq![DICTIONARY_START] + serialize_entries(entries)
            + seq![END],
    }
}

/// The items on the wire, one after another.
pub open spec fn serialize_items(items: Seq<Bencode>) -> Seq<u8>
    decreases items,
{
    if items.len() == 0 {
        Seq::empty()
    } else {
        serialize_items(items.drop_last()) + serialize(items.last())
    }
}

/// The entries on the wire, one after another: each key as a string, then its
/// value.
pub open spec fn serialize_entries(entries: Seq<(Seq<u8>, Bencode)>) -> Seq<u8>
    decreases entries,
{
    if entries.len() == 0 {
        Seq::empty()
    } else {
        serialize_entries(entries.drop_last()) + serialize_string(entries.last().0) + serialize(
            entries.last().1,
        )
    }
}

/// The canonical encoding of a value.
pub open spec fn encoding(value: Bencode) -> Seq<u8> {
    serialize(canonical(value))
}

/// The canonical forms of items are the canonical forms item by item.
pub proof fn lemma_canonical_items(items: Seq<Bencode>)
    ensures
        canonical_items(items).len() == items.len(),
        forall|i: int|
            0 <= i < items.len() ==> (#[trigger] canonical_items(items)[i]) == canonical(items[i]),
    decreases items.len(),
{
    if items.len() > 0 {
        lemma_canonical_items(items.drop_last());
    }
}

/// Entries keep their keys and their order when their values are made
/// canonical.
pub proof fn lemma_canonical_entries(entries: Seq<(Seq<u8>, Bencode)>)
    ensures
        canonical_entries(entries).len() == entries.len(),
        forall|i: int|
            0 <= i < entries.len() ==> (#[trigger] canonical_entries(entries)[i]) == (
                entries[i].0,
                canonical(entries[i].1),
            ),
        keys(canonical_entries(entries)) == keys(entries),
    decreases entries.len(),
{
    if entries.len() > 0 {
        lemma_canonical_entries(entries.drop_last());
    }
}

/// The sorted order of `n` keys holds `n` indices, each below `n`.
pub proof fn lemma_sorted_order_range(keys: Seq<Seq<u8>>)
    ensures
        sorted_order(keys).len() == keys.len(),
        forall|j: int|
            0 <= j < keys.len() ==> 0 <= (#[trigger] sorted_order(keys)[j]) < keys.len(),
    decreases keys.len(),
{
    if keys.len() > 0 {
        let order = sorted_order(keys.drop_last());
        lemma_sorted_order_range(keys.drop_last());
        lemma_insertion_point_range(keys, order, keys.last());
    }
}

/// An insertion point lies within the order or at its end.
pub proof fn lemma_insertion_point_range(keys: Seq<Seq<u8>>, order: Seq<int>, key: Seq<u8>)
    ensures
        0 <= insertion_point(keys, order, key) <= order.len(),
    decreases order.len(),
{
    if order.len() > 0 && lex_lt(key, keys[order.last()]) {
        lemma_insertion_point_range(keys, order.drop_last(), key);
    }
}

} // verus!
