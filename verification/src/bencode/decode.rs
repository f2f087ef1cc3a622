//! The decoder: one value from the head of an input, and what the input has
//! left after it.

use vstd::prelude::*;
use vstd::slice::{slice_subrange, slice_to_vec};
use crate::bencode::grammar::{
    is_integer_numeral, parse_entries, parse_integer, parse_items, parse_string,
    parse_value, lemma_parse_string_rest, lemma_parse_value_rest, COLON, DICTIONARY_START, END,
    INTEGER_START, LIST_START, MINUS,
};
use crate::bencode::laws::{lemma_parsed_entries_wf, lemma_parsed_items_wf};
use crate::bencode::value::{
    entries_view, insert_entry, items_view, keys, lemma_entries_view, lemma_entries_view_push,
    lemma_entries_view_update, lemma_first_index, lemma_items_view_push, lemma_no_index, bytes_eq,
    Bencode, ParseError, Value,
};
use crate::decimal::{
    all_digits, digits_value, is_digit, lemma_digits_value_prefix, lemma_digits_value_push,
};

verus! {

/// Whether a decoder's result is what the grammar gives: the same value and
/// rest, or the same error.
pub open spec fn decoded_as(
    res: Result<(Value, &[u8]), ParseError>,
    parsed: Result<(Bencode, Seq<u8>), ParseError>,
) -> bool {
    match res {
        Ok((value, rest)) => parsed == Ok::<(Bencode, Seq<u8>), ParseError>((value@, rest@)),
        Err(e) => parsed == Err::<(Bencode, Seq<u8>), ParseError>(e),
    }
}

/// The grammar's string as a value.
pub open spec fn parse_string_value(s: Seq<u8>) -> Result<(Bencode, Seq<u8>), ParseError> {
    match parse_string(s) {
        Ok((bytes, rest)) => Ok((Bencode::ByteString(bytes), rest)),
        Err(e) => Err(e),
    }
}

/// The grammar's integer as a value.
pub open spec fn parse_integer_value(s: Seq<u8>) -> Result<(Bencode, Seq<u8>), ParseError> {
    match parse_integer(s) {
        Ok((n, rest)) => Ok((Bencode::Integer(n), rest)),
        Err(e) => Err(e),
    }
}

/// The grammar's list items as a value.
pub open spec fn parse_list_value(s: Seq<u8>) -> Result<(Bencode, Seq<u8>), ParseError> {
    match parse_items(s, Seq::empty()) {
        Ok((items, rest)) => Ok((Bencode::List(items), rest)),
        Err(e) => Err(e),
    }
}

/// The grammar's dictionary entries as a value.
pub open spec fn parse_dictionary_value(s: Seq<u8>) -> Result<(Bencode, Seq<u8>), ParseError> {
    match parse_entries(s, Seq::empty()) {
        Ok((entries, rest)) => Ok((Bencode::Dictionary(entries), rest)),
        Err(e) => Err(e),
    }
}

fn is_digit_byte(b: u8) -> (res: bool)
    ensures
        res == is_digit(b),
{
    0x30 <= b && b <= 0x39
}

/// Reads the string at the head of `encoded`.
pub fn read_string<'a>(encoded: &'a [u8]) -> (res: Result<(Vec<u8>, &'a [u8]), ParseError>)
    ensures
        match res {
            Ok((bytes, rest)) => parse_string(encoded@) == Ok::<(Seq<u8>, Seq<u8>), ParseError>(
                (bytes@, rest@),
            ),
            Err(e) => parse_string(encoded@) == Err::<(Seq<u8>, Seq<u8>), ParseError>(e),
        },
{
    let len = encoded.len();
    let mut i: usize = 0;
    let mut n: usize = 0;
    let mut too_long = false;
    while i < len && is_digit_byte(encoded[i])
        invariant
            i <= len == encoded@.len(),
            all_digits(encoded@.take(i as int)),
            !too_long ==> n == digits_value(encoded@.take(i as int)) && n <= len,
            too_long ==> digits_value(encoded@.take(i as int)) > len,
        decreases len - i,
    {
        let d: usize = (encoded[i] - 0x30) as usize;
        proof {
            assert(encoded@.take(i + 1) =~= encoded@.take(i as int).push(encoded@[i as int]));
            lemma_digits_value_push(encoded@.take(i as int), encoded@[i as int]);
        }
        if !too_long {
            if n > len / 10 {
                too_long = true;
            } else {
                let t: usize = n * 10;
                if d > len - t {
                    too_long = true;
                } else {
                    n = t + d;
                }
            }
        }
        i += 1;
    }
    proof {
        encoded@.index_of_first_ensures(COLON);
    }
    if i == 0 || i >= len || encoded[i] != COLON {
        proof {
            if let Some(colon) = encoded@.index_of_first(COLON) {
                if colon > 0 {
                    if colon < i {
                        assert(encoded@.take(i as int)[colon] == encoded@[colon]);
                    } else {
                        assert(encoded@.take(colon)[i as int] == encoded@[i as int]);
                    }
                }
            }
        }
        return Err(ParseError::InvalidLength);
    }
    proof {
        assert forall|j: int| 0 <= j < i implies encoded@[j] != COLON by {
            assert(encoded@.take(i as int)[j] == encoded@[j]);
        }
    }
    if too_long || n > len - i - 1 {
        return Err(ParseError::LengthExceedsInput);
    }
    let bytes = slice_to_vec(slice_subrange(encoded, i + 1, i + 1 + n));
    let rest = slice_subrange(encoded, i + 1 + n, len);
    Ok((bytes, rest))
}

/// Reads the integer at the head of `encoded`.
pub fn read_integer<'a>(encoded: &'a [u8]) -> (res: Result<(i64, &'a [u8]), ParseError>)
    ensures
        match res {
            Ok((n, rest)) => parse_integer(encoded@) == Ok::<(i64, Seq<u8>), ParseError>(
                (n, rest@),
            ),
            Err(e) => parse_integer(encoded@) == Err::<(i64, Seq<u8>), ParseError>(e),
        },
{
    let len = encoded.len();
    if len == 0 {
        return Err(ParseError::UnexpectedEnd);
    }
    if encoded[0] != INTEGER_START {
        return Err(ParseError::InvalidInteger);
    }
    let negative = 1 < len && encoded[1] == MINUS;
    let start: usize = if negative { 2 } else { 1 };
    let limit: u64 = if negative { 0x8000_0000_0000_0000 } else { 0x7fff_ffff_ffff_ffff };
    let mut i: usize = start;
    let mut n: u64 = 0;
    proof {
        encoded@.index_of_first_ensures(END);
    }
    while i < len && is_digit_byte(encoded[i])
        invariant
            1 <= start <= i <= len == encoded@.len(),
            start == if negative { 2int } else { 1int },
            negative == (1 < len && encoded@[1] == MINUS),
            encoded@[0] == INTEGER_START,
            limit == if negative { 0x8000_0000_0000_0000u64 } else { 0x7fff_ffff_ffff_ffffu64 },
            all_digits(encoded@.subrange(start as int, i as int)),
            n == digits_value(encoded@.subrange(start as int, i as int)),
            n <= limit,
            forall|j: int| 0 <= j < i ==> encoded@[j] != END,
            match encoded@.index_of_first(END) {
                Some(index) => {
                    &&& 0 <= index < encoded@.len()
                    &&& encoded@[index] == END
                },
                None => true,
            },
        decreases len - i,
    {
        let d: u64 = (encoded[i] - 0x30) as u64;
        proof {
            assert(encoded@.subrange(start as int, i + 1) =~= encoded@.subrange(
                start as int,
                i as int,
            ).push(encoded@[i as int]));
            lemma_digits_value_push(encoded@.subrange(start as int, i as int), encoded@[i as int]);
        }
        if n > (limit - d) / 10 {
            proof {
                if let Some(end) = encoded@.index_of_first(END) {
                    let body = encoded@.subrange(1, end);
                    if is_integer_numeral(body) {
                        let digits = encoded@.subrange(start as int, end);
                        assert(digits =~= if negative { body.skip(1) } else { body });
                        lemma_digits_value_prefix(digits, i + 1 - start);
                        assert(digits.take(i + 1 - start) =~= encoded@.subrange(
                            start as int,
                            i + 1,
                        ));
                    }
                }
            }
            return Err(ParseError::InvalidInteger);
        }
        n = n * 10 + d;
        i += 1;
    }
    if i == start || i >= len || encoded[i] != END {
        proof {
            if let Some(end) = encoded@.index_of_first(END) {
                let body = encoded@.subrange(1, end);
                if end > i {
                    if negative {
                        assert(body.skip(1)[i - 2] == encoded@[i as int]);
                    } else {
                        assert(body[i - 1] == encoded@[i as int]);
                    }
                }
            }
        }
        return Err(ParseError::InvalidInteger);
    }
    proof {
        let body = encoded@.subrange(1, i as int);
        let digits = encoded@.subrange(start as int, i as int);
        assert(digits =~= if negative { body.skip(1) } else { body });
    }
    let value: i64 = if negative {
        if n == 0x8000_0000_0000_0000 {
            i64::MIN
        } else {
            -(n as i64)
        }
    } else {
        n as i64
    };
    let rest = slice_subrange(encoded, i + 1, len);
    Ok((value, rest))
}

/// Decodes the string at the head of `encoded`: a decimal length, a colon and
/// that many bytes. Gives the string and what follows it.
pub fn decode_bencoded_string<'a>(encoded: &'a [u8]) -> (res: Result<
    (Value, &'a [u8]),
    ParseError,
>)
    ensures
        decoded_as(res, parse_string_value(encoded@)),
{
    match read_string(encoded) {
        Ok((bytes, rest)) => Ok((Value::ByteString(bytes), rest)),
        Err(e) => Err(e),
    }
}

/// Decodes the integer at the head of `encoded`: `i`, a decimal integer, `e`.
/// Gives the integer and what follows it.
pub fn decode_bencoded_integer<'a>(encoded: &'a [u8]) -> (res: Result<
    (Value, &'a [u8]),
    ParseError,
>)
    ensures
        decoded_as(res, parse_integer_value(encoded@)),
{
    match read_integer(encoded) {
        Ok((n, rest)) => Ok((Value::Integer(n), rest)),
        Err(e) => Err(e),
    }
}

/// Decodes the items of a list, `encoded` being what follows its `l`: values
/// up to the closing `e`. Gives the list and what follows the `e`. No
/// dictionary in it holds a key twice.
pub fn decode_bencoded_list<'a>(encoded: &'a [u8]) -> (res: Result<(Value, &'a [u8]), ParseError>)
    ensures
        decoded_as(res, parse_list_value(encoded@)),
        res matches Ok((value, _)) ==> value@.wf(),
    decreases encoded@.len(), 1nat,
{
    let mut list: Vec<Value> = Vec::new();
    let mut cur: &'a [u8] = encoded;
    loop
        invariant
            cur@.len() <= encoded@.len(),
            parse_items(cur@, items_view(list@)) == parse_items(encoded@, Seq::empty()),
        decreases cur@.len(),
    {
        if cur.len() == 0 {
            return Err(ParseError::UnexpectedEnd);
        }
        if cur[0] == END {
            let rest = slice_subrange(cur, 1, cur.len());
            proof {
                lemma_parsed_items_wf(encoded@, Seq::empty());
            }
            return Ok((Value::List(list), rest));
        }
        match decode_bencoded_value(cur) {
            Err(e) => {
                return Err(e);
            },
            Ok((value, rest)) => {
                proof {
                    lemma_parse_value_rest(cur@);
                    lemma_items_view_push(list@, value);
                }
                list.push(value);
                cur = rest;
            },
        }
    }
}

/// Gives `key` the value `value` among `entries`: an entry with this key keeps
/// its place and takes the value, a new key goes to the end.
fn insert(entries: &mut Vec<(Vec<u8>, Value)>, key: Vec<u8>, value: Value)
    ensures
        entries_view(final(entries)@) == insert_entry(entries_view(old(entries)@), key@, value@),
{
    let ghost before = entries_view(entries@);
    let mut i: usize = 0;
    proof {
        lemma_entries_view(entries@);
    }
    while i < entries.len()
        invariant
            i <= entries.len() == before.len(),
            entries_view(entries@) == before,
            before == entries_view(old(entries)@),
            forall|j: int| 0 <= j < i ==> keys(before)[j] != key@,
        decreases entries.len() - i,
    {
        proof {
            lemma_entries_view(entries@);
        }
        if bytes_eq(entries[i].0.as_slice(), key.as_slice()) {
            proof {
                lemma_first_index(keys(before), key@, i as int);
                lemma_entries_view_update(entries@, i as int, key, value);
            }
            entries.set(i, (key, value));
            return ;
        }
        i += 1;
    }
    proof {
        lemma_no_index(keys(before), key@);
        lemma_entries_view_push(entries@, key, value);
    }
    entries.push((key, value));
}

/// Decodes the entries of a dictionary, `encoded` being what follows its `d`:
/// pairs of a string and a value up to the closing `e`. Gives the dictionary,
/// its keys in the order in which they were first met, and what follows the
/// `e`. A key that comes again replaces the value it had, so that no
/// dictionary holds a key twice.
pub fn decode_bencoded_dictionary<'a>(encoded: &'a [u8]) -> (res: Result<
    (Value, &'a [u8]),
    ParseError,
>)
    ensures
        decoded_as(res, parse_dictionary_value(encoded@)),
        res matches Ok((value, _)) ==> value@.wf(),
    decreases encoded@.len(), 1nat,
{
    let mut dictionary: Vec<(Vec<u8>, Value)> = Vec::new();
    let mut cur: &'a [u8] = encoded;
    loop
        invariant
            cur@.len() <= encoded@.len(),
            parse_entries(cur@, entries_view(dictionary@)) == parse_entries(
                encoded@,
                Seq::empty(),
            ),
        decreases cur@.len(),
    {
        if cur.len() == 0 {
            return Err(ParseError::UnexpectedEnd);
        }
        if cur[0] == END {
            let rest = slice_subrange(cur, 1, cur.len());
            proof {
                lemma_parsed_entries_wf(encoded@, Seq::empty());
            }
            return Ok((Value::Dictionary(dictionary), rest));
        }
        if !is_digit_byte(cur[0]) {
            return Err(ParseError::NonStringKey);
        }
        let (key, after_key) = match read_string(cur) {
            Err(e) => {
                return Err(e);
            },
            Ok(pair) => pair,
        };
        proof {
            lemma_parse_string_rest(cur@);
        }
        match decode_bencoded_value(after_key) {
            Err(e) => {
                return Err(e);
            },
            Ok((value, rest)) => {
                proof {
                    lemma_parse_value_rest(after_key@);
                }
                insert(&mut dictionary, key, value);
                cur = rest;
            },
        }
    }
}

/// Decodes the value at the head of `encoded`, chosen by its first byte: a
/// digit opens a string, `i` an integer, `l` a list, `d` a dictionary. Gives
/// the value and what follows it. No dictionary in the value holds a key
/// twice.
pub fn decode_bencoded_value<'a>(encoded: &'a [u8]) -> (res: Result<
    (Value, &'a [u8]),
    ParseError,
>)
    ensures
        decoded_as(res, parse_value(encoded@)),
        res matches Ok((value, _)) ==> value@.wf(),
    decreases encoded@.len(), 0nat,
{
    if encoded.len() == 0 {
        return Err(ParseError::UnexpectedEnd);
    }
    let first = encoded[0];
    if is_digit_byte(first) {
        decode_bencoded_string(encoded)
    } else if first == INTEGER_START {
        decode_bencoded_integer(encoded)
    } else if first == LIST_START {
        decode_bencoded_list(slice_subrange(encoded, 1, encoded.len()))
    } else if first == DICTIONARY_START {
        decode_bencoded_dictionary(slice_subrange(encoded, 1, encoded.len()))
    } else {
        Err(ParseError::UnhandledValue)
    }
}

} // verus!
