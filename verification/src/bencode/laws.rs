//! What holds of the codec: decoding undoes encoding.

use vstd::prelude::*;
use crate::bencode::canonical::{
    canonical, encoding, serialize, serialize_entries, serialize_integer, serialize_items,
    serialize_string,
};
use crate::bencode::reorder::{
    is_canonical, lemma_canonical, lemma_canonical_of_canonical, reordering,
};
use crate::bencode::grammar::{
    parse_entries, parse_integer, parse_items, parse_string, parse_value, lemma_parse_string_rest,
    lemma_parse_value_rest, COLON, DICTIONARY_START, END, INTEGER_START, LIST_START,
};
use crate::bencode::value::{
    insert_entry, keys, keys_unique, lemma_first_index, lemma_no_index, Bencode, ParseError,
};
use crate::decimal::{decimal, is_digit, lemma_decimal};

verus! {

/// A string that was written is read back, and what follows it is left.
pub proof fn lemma_parse_serialized_string(bytes: Seq<u8>, rest: Seq<u8>)
    ensures
        parse_string(serialize_string(bytes) + rest) == Ok::<(Seq<u8>, Seq<u8>), ParseError>(
            (bytes, rest),
        ),
        is_digit((serialize_string(bytes) + rest)[0]),
{
    let numeral = decimal(bytes.len());
    let s = serialize_string(bytes) + rest;
    let d = numeral.len() as int;
    lemma_decimal(bytes.len());
    lemma_first_index(s, COLON, d);
    assert(s.take(d) =~= numeral);
    assert(s.subrange(d + 1, d + 1 + bytes.len()) =~= bytes);
    assert(s.skip(d + 1 + bytes.len()) =~= rest);
}

/// An integer that was written is read back, and what follows it is left.
pub proof fn lemma_parse_serialized_integer(n: i64, rest: Seq<u8>)
    ensures
        parse_integer(serialize_integer(n) + rest) == Ok::<(i64, Seq<u8>), ParseError>((n, rest)),
        (serialize_integer(n) + rest)[0] == INTEGER_START,
{
    let s = serialize_integer(n) + rest;
    let magnitude: nat = if n < 0 {
        (-n) as nat
    } else {
        n as nat
    };
    let numeral = decimal(magnitude);
    let sign: int = if n < 0 {
        1
    } else {
        0
    };
    let end = 1 + sign + numeral.len();
    lemma_decimal(magnitude);
    lemma_first_index(s, END, end);
    let body = s.subrange(1, end);
    if n < 0 {
        assert(body.skip(1) =~= numeral);
    } else {
        assert(body =~= numeral);
    }
    assert(s.skip(end + 1) =~= rest);
}

/// The items on the wire begin with the first item.
pub proof fn lemma_serialize_items_first(items: Seq<Bencode>)
    requires
        items.len() > 0,
    ensures
        serialize_items(items) == serialize(items[0]) + serialize_items(items.drop_first()),
    decreases items.len(),
{
    if items.len() == 1 {
        assert(items.drop_last() =~= Seq::<Bencode>::empty());
        assert(items.drop_first() =~= Seq::<Bencode>::empty());
    } else {
        lemma_serialize_items_first(items.drop_last());
        assert(items.drop_last().drop_first() =~= items.drop_first().drop_last());
    }
}

/// The entries on the wire begin with the first entry.
pub proof fn lemma_serialize_entries_first(entries: Seq<(Seq<u8>, Bencode)>)
    requires
        entries.len() > 0,
    ensures
        serialize_entries(entries) == serialize_string(entries[0].0) + serialize(entries[0].1)
            + serialize_entries(entries.drop_first()),
    decreases entries.len(),
{
    if entries.len() == 1 {
        assert(entries.drop_last() =~= Seq::<(Seq<u8>, Bencode)>::empty());
        assert(entries.drop_first() =~= Seq::<(Seq<u8>, Bencode)>::empty());
    } else {
        lemma_serialize_entries_first(entries.drop_last());
        assert(entries.drop_last().drop_first() =~= entries.drop_first().drop_last());
    }
}

/// A value without a repeated key that was written, its dictionaries in the
/// order they have, is read back as it is, and what follows it is left.
pub proof fn lemma_parse_serialized(value: Bencode, rest: Seq<u8>)
    requires
        value.wf(),
    ensures
        parse_value(serialize(value) + rest) == Ok::<(Bencode, Seq<u8>), ParseError>(
            (value, rest),
        ),
    decreases value,
{
    let s = serialize(value) + rest;
    match value {
        Bencode::Integer(n) => {
            lemma_parse_serialized_integer(n, rest);
        },
        Bencode::ByteString(bytes) => {
            lemma_parse_serialized_string(bytes, rest);
        },
        Bencode::List(items) => {
            lemma_parse_serialized_items(items, Seq::empty(), rest);
            assert(s.skip(1) =~= serialize_items(items) + seq![END] + rest);
        },
        Bencode::Dictionary(entries) => {
            lemma_parse_serialized_entries(entries, Seq::empty(), rest);
            assert(s.skip(1) =~= serialize_entries(entries) + seq![END] + rest);
        },
    }
}

/// Items without a repeated key that were written are read back behind
/// those read before, up to the `e` that closes the list.
pub proof fn lemma_parse_serialized_items(items: Seq<Bencode>, acc: Seq<Bencode>, rest: Seq<u8>)
    requires
        forall|i: int| 0 <= i < items.len() ==> (#[trigger] items[i]).wf(),
    ensures
        parse_items(serialize_items(items) + seq![END] + rest, acc) == Ok::<
            (Seq<Bencode>, Seq<u8>),
            ParseError,
        >((acc + items, rest)),
    decreases items,
{
    let s = serialize_items(items) + seq![END] + rest;
    if items.len() == 0 {
        assert(s.skip(1) =~= rest);
    } else {
        let first = items[0];
        let tail = items.drop_first();
        let after = serialize_items(tail) + seq![END] + rest;
        lemma_serialize_items_first(items);
        assert(s =~= serialize(first) + after);
        lemma_parse_serialized(first, after);
        lemma_parse_serialized_items(tail, acc.push(first), rest);
        assert(acc.push(first) + tail =~= acc + items);
    }
}

/// Entries without a repeated key, among them and those read before, that
/// were written are read back behind those read before, up to the `e` that
/// closes the dictionary.
pub proof fn lemma_parse_serialized_entries(
    entries: Seq<(Seq<u8>, Bencode)>,
    acc: Seq<(Seq<u8>, Bencode)>,
    rest: Seq<u8>,
)
    requires
        keys_unique(acc + entries),
        forall|i: int| 0 <= i < entries.len() ==> (#[trigger] entries[i]).1.wf(),
    ensures
        parse_entries(serialize_entries(entries) + seq![END] + rest, acc) == Ok::<
            (Seq<(Seq<u8>, Bencode)>, Seq<u8>),
            ParseError,
        >((acc + entries, rest)),
    decreases entries,
{
    let s = serialize_entries(entries) + seq![END] + rest;
    if entries.len() == 0 {
        assert(s.skip(1) =~= rest);
    } else {
        let key = entries[0].0;
        let value = entries[0].1;
        let tail = entries.drop_first();
        let after = serialize_entries(tail) + seq![END] + rest;
        let after_key = serialize(value) + after;
        lemma_serialize_entries_first(entries);
        assert(s =~= serialize_string(key) + after_key);
        lemma_parse_serialized_string(key, after_key);
        lemma_parse_serialized(value, after);
        assert forall|j: int| 0 <= j < acc.len() implies keys(acc)[j] != key by {
            assert((acc + entries)[j] == acc[j]);
            assert((acc + entries)[acc.len() as int] == entries[0]);
        }
        lemma_no_index(keys(acc), key);
        assert(acc.push(entries[0]) + tail =~= acc + entries);
        lemma_parse_serialized_entries(tail, acc.push(entries[0]), rest);
    }
}

/// Whether entries have no repeated key, nor their values at any depth.
pub open spec fn entries_wf(entries: Seq<(Seq<u8>, Bencode)>) -> bool {
    Bencode::Dictionary(entries).wf()
}

/// Entries without a repeated key have none after a key has been given a
/// value without one.
pub proof fn lemma_insert_entry_wf(entries: Seq<(Seq<u8>, Bencode)>, key: Seq<u8>, value: Bencode)
    requires
        entries_wf(entries),
        value.wf(),
    ensures
        entries_wf(insert_entry(entries, key, value)),
{
    let after = insert_entry(entries, key, value);
    keys(entries).index_of_first_ensures(key);
    if keys(entries).index_of_first(key) is None {
        assert forall|i: int, j: int| 0 <= i < j < after.len() implies (#[trigger] after[i]).0
            != (#[trigger] after[j]).0 by {
            assert(keys(entries)[i] == entries[i].0);
        }
    }
}

/// A value that the grammar reads has no repeated key.
pub proof fn lemma_parsed_value_wf(s: Seq<u8>)
    ensures
        parse_value(s) matches Ok((value, rest)) ==> value.wf(),
    decreases s.len(), 0nat,
{
    if s.len() == 0 {
    } else if is_digit(s[0]) {
    } else if s[0] == INTEGER_START {
    } else if s[0] == LIST_START {
        lemma_parsed_items_wf(s.skip(1), Seq::empty());
    } else if s[0] == DICTIONARY_START {
        lemma_parsed_entries_wf(s.skip(1), Seq::empty());
    }
}

/// Items that the grammar reads behind items without a repeated key have
/// none.
pub proof fn lemma_parsed_items_wf(s: Seq<u8>, acc: Seq<Bencode>)
    requires
        forall|i: int| 0 <= i < acc.len() ==> (#[trigger] acc[i]).wf(),
    ensures
        parse_items(s, acc) matches Ok((items, rest)) ==> forall|i: int|
            0 <= i < items.len() ==> (#[trigger] items[i]).wf(),
    decreases s.len(), 1nat,
{
    if s.len() == 0 {
    } else if s[0] == END {
    } else {
        lemma_parsed_value_wf(s);
        lemma_parse_value_rest(s);
        if let Ok((item, after)) = parse_value(s) {
            lemma_parsed_items_wf(after, acc.push(item));
        }
    }
}

/// Entries that the grammar reads behind entries without a repeated key have
/// none.
pub proof fn lemma_parsed_entries_wf(s: Seq<u8>, acc: Seq<(Seq<u8>, Bencode)>)
    requires
        entries_wf(acc),
    ensures
        parse_entries(s, acc) matches Ok((entries, rest)) ==> entries_wf(entries),
    decreases s.len(), 1nat,
{
    if s.len() == 0 {
    } else if s[0] == END {
    } else if !is_digit(s[0]) {
    } else {
        lemma_parse_string_rest(s);
        if let Ok((key, after_key)) = parse_string(s) {
            lemma_parsed_value_wf(after_key);
            lemma_parse_value_rest(after_key);
            if let Ok((value, after)) = parse_value(after_key) {
                lemma_insert_entry_wf(acc, key, value);
                lemma_parsed_entries_wf(after, insert_entry(acc, key, value));
            }
        }
    }
}

/// Decoding undoes encoding. A value without a repeated key, encoded and
/// decoded, is the value in its canonical form, with nothing of the input
/// left: the same value but for the order of the entries of its dictionaries,
/// which is then the ascending order of their keys.
pub proof fn lemma_decode_encode(value: Bencode)
    requires
        value.wf(),
    ensures
        parse_value(encoding(value)) == Ok::<(Bencode, Seq<u8>), ParseError>(
            (canonical(value), Seq::empty()),
        ),
        reordering(value, canonical(value)),
        is_canonical(canonical(value)),
{
    lemma_canonical(value);
    lemma_parse_serialized(canonical(value), Seq::empty());
}

/// Decoding undoes encoding exactly where the keys are in order: a canonical
/// value, encoded and decoded, is the value itself, with nothing of the input
/// left.
pub proof fn lemma_decode_encode_canonical(value: Bencode)
    requires
        is_canonical(value),
    ensures
        parse_value(encoding(value)) == Ok::<(Bencode, Seq<u8>), ParseError>(
            (value, Seq::empty()),
        ),
{
    lemma_canonical_of_canonical(value);
    lemma_decode_encode(value);
}

/// Decoding undoes encoding for every value that the decoder gives: encoded
/// and decoded again, it is the same value but for the order of the entries
/// of its dictionaries, with nothing of the input left.
pub proof fn lemma_decode_encode_decoded(s: Seq<u8>)
    ensures
        parse_value(s) matches Ok((value, rest)) ==> (parse_value(encoding(value)) matches Ok(
            (again, left),
        ) && left.len() == 0 && reordering(value, again)),
{
    lemma_parsed_value_wf(s);
    if let Ok((value, rest)) = parse_value(s) {
        lemma_decode_encode(value);
    }
}

} // verus!
