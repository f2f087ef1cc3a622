//! The encoder into the canonical form.

use vstd::prelude::*;
use crate::bencode::canonical::{
    canonical, canonical_entries, canonical_items, encoding, insertion_point,
    lemma_canonical_entries, lemma_canonical_items, lemma_sorted_order_range, lex_lt,
    serialize_entries, serialize_integer, serialize_items, serialize_string, sort_entries,
    sorted_order,
};
use crate::bencode::grammar::{COLON, DICTIONARY_START, END, INTEGER_START, LIST_START, MINUS};
use crate::bencode::value::{
    entries_view, items_view, keys, lemma_entries_view, lemma_items_view, Value,
};
use crate::decimal::push_decimal;

verus! {

/// Whether `a` comes before `b` in the order of byte strings.
pub fn bytes_lt(a: &[u8], b: &[u8]) -> (res: bool)
    ensures
        res == lex_lt(a@, b@),
{
    let mut i: usize = 0;
    proof {
        assert(a@.skip(0) =~= a@);
        assert(b@.skip(0) =~= b@);
    }
    while i < a.len() && i < b.len()
        invariant
            i <= a.len(),
            i <= b.len(),
            lex_lt(a@, b@) == lex_lt(a@.skip(i as int), b@.skip(i as int)),
        decreases a.len() - i,
    {
        proof {
            assert(a@.skip(i as int).drop_first() =~= a@.skip(i + 1));
            assert(b@.skip(i as int).drop_first() =~= b@.skip(i + 1));
        }
        if a[i] != b[i] {
            return a[i] < b[i];
        }
        i += 1;
    }
    i < b.len()
}

/// Appends `bytes` to `out`.
pub fn push_bytes(out: &mut Vec<u8>, bytes: &[u8])
    ensures
        final(out)@ == old(out)@ + bytes@,
{
    let mut i: usize = 0;
    while i < bytes.len()
        invariant
            i <= bytes.len(),
            out@ == old(out)@ + bytes@.take(i as int),
        decreases bytes.len() - i,
    {
        out.push(bytes[i]);
        i += 1;
    }
}

/// Appends a string as it stands on the wire.
fn push_string(out: &mut Vec<u8>, bytes: &[u8])
    ensures
        final(out)@ == old(out)@ + serialize_string(bytes@),
{
    push_decimal(out, bytes.len() as u64);
    out.push(COLON);
    push_bytes(out, bytes);
}

/// Appends an integer as it stands on the wire.
fn push_integer(out: &mut Vec<u8>, n: i64)
    ensures
        final(out)@ == old(out)@ + serialize_integer(n),
{
    out.push(INTEGER_START);
    if n < 0 {
        out.push(MINUS);
        let magnitude: u64 = if n == i64::MIN {
            0x8000_0000_0000_0000
        } else {
            (-n) as u64
        };
        push_decimal(out, magnitude);
    } else {
        push_decimal(out, n as u64);
    }
    out.push(END);
}

/// The indices of the entries in ascending order of their keys.
fn key_order(entries: &Vec<(Vec<u8>, Value)>) -> (order: Vec<usize>)
    ensures
        order@.len() == entries@.len(),
        forall|j: int|
            0 <= j < order@.len() ==> (#[trigger] order@[j]) as int == sorted_order(
                keys(entries_view(entries@)),
            )[j],
{
    let ghost all = keys(entries_view(entries@));
    let mut order: Vec<usize> = Vec::new();
    let mut i: usize = 0;
    proof {
        lemma_entries_view(entries@);
    }
    while i < entries.len()
        invariant
            i <= entries.len() == all.len(),
            all == keys(entries_view(entries@)),
            forall|j: int| 0 <= j < entries@.len() ==> (#[trigger] all[j]) == entries@[j].0@,
            order@.len() == i,
            forall|j: int|
                0 <= j < i ==> (#[trigger] order@[j]) as int == sorted_order(all.take(i as int))[j],
            forall|j: int| 0 <= j < i ==> 0 <= (#[trigger] order@[j]) < i,
        decreases entries.len() - i,
    {
        let ghost prefix = all.take(i + 1);
        let ghost before = sorted_order(all.take(i as int));
        proof {
            assert(prefix.drop_last() =~= all.take(i as int));
            lemma_sorted_order_range(all.take(i as int));
            assert(before.take(i as int) =~= before);
        }
        let mut p: usize = i;
        while p > 0 && bytes_lt(entries[i].0.as_slice(), entries[order[p - 1]].0.as_slice())
            invariant
                p <= i < entries.len() == all.len(),
                order@.len() == i,
                before.len() == i,
                forall|j: int| 0 <= j < entries@.len() ==> (#[trigger] all[j]) == entries@[j].0@,
                forall|j: int| 0 <= j < i ==> (#[trigger] order@[j]) as int == before[j],
                forall|j: int| 0 <= j < i ==> 0 <= (#[trigger] order@[j]) < i,
                prefix == all.take(i + 1),
                insertion_point(prefix, before, all[i as int]) == insertion_point(
                    prefix,
                    before.take(p as int),
                    all[i as int],
                ),
            decreases p,
        {
            proof {
                assert(before.take(p as int).drop_last() =~= before.take(p - 1));
            }
            p -= 1;
        }
        order.insert(p, i);
        i += 1;
    }
    proof {
        assert(all.take(i as int) =~= all);
    }
    order
}

/// Appends the canonical encoding of `value` to `out`.
pub fn encode_into(value: &Value, out: &mut Vec<u8>)
    ensures
        final(out)@ == old(out)@ + encoding(value@),
    decreases value,
{
    match value {
        Value::Integer(n) => {
            push_integer(out, *n);
        },
        Value::ByteString(bytes) => {
            push_string(out, bytes.as_slice());
        },
        Value::List(items) => {
            out.push(LIST_START);
            let mut i: usize = 0;
            proof {
                lemma_items_view(items@);
                lemma_canonical_items(items_view(items@));
            }
            while i < items.len()
                invariant
                    i <= items.len(),
                    value == Value::List(*items),
                    out@ == old(out)@ + seq![LIST_START] + serialize_items(
                        canonical_items(items_view(items@)).take(i as int),
                    ),
                decreases items.len() - i,
            {
                proof {
                    lemma_items_view(items@);
                    lemma_canonical_items(items_view(items@));
                    let all = canonical_items(items_view(items@));
                    assert(all.take(i + 1).drop_last() =~= all.take(i as int));
                }
                assert(decreases_to!(value => value->List_0[i as int]));
                encode_into(&items[i], out);
                i += 1;
            }
            out.push(END);
            proof {
                let all = canonical_items(items_view(items@));
                assert(all.take(i as int) =~= all);
            }
        },
        Value::Dictionary(entries) => {
            out.push(DICTIONARY_START);
            let order = key_order(entries);
            let ghost raw = entries_view(entries@);
            let ghost sorted = sort_entries(canonical_entries(raw));
            let mut j: usize = 0;
            proof {
                lemma_entries_view(entries@);
                lemma_canonical_entries(raw);
            }
            while j < order.len()
                invariant
                    j <= order@.len() == entries@.len(),
                    value == Value::Dictionary(*entries),
                    raw == entries_view(entries@),
                    sorted == sort_entries(canonical_entries(raw)),
                    sorted.len() == entries@.len(),
                    forall|k: int|
                        0 <= k < order@.len() ==> (#[trigger] order@[k]) as int == sorted_order(
                            keys(raw),
                        )[k],
                    out@ == old(out)@ + seq![DICTIONARY_START] + serialize_entries(
                        sorted.take(j as int),
                    ),
                decreases order.len() - j,
            {
                let index = order[j];
                proof {
                    lemma_entries_view(entries@);
                    lemma_canonical_entries(raw);
                    lemma_sorted_order_range(keys(raw));
                    assert(sorted.take(j + 1).drop_last() =~= sorted.take(j as int));
                }
                push_string(out, entries[index].0.as_slice());
                assert(decreases_to!(value => value->Dictionary_0[index as int].1));
                encode_into(&entries[index].1, out);
                j += 1;
            }
            out.push(END);
            proof {
                assert(sorted.take(j as int) =~= sorted);
            }
        },
    }
}

/// Encodes `value` in the canonical form: the keys of every dictionary in
/// ascending order of their bytes, integers in the fewest digits.
pub fn encode(value: &Value) -> (res: Vec<u8>)
    ensures
        res@ == encoding(value@),
{
    let mut out: Vec<u8> = Vec::new();
    encode_into(value, &mut out);
    out
}

} // verus!
