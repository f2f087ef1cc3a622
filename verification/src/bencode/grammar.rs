//! The grammar of bencode, as functions from an input to the value at its head
//! and the rest of the input.

use vstd::prelude::*;
use crate::bencode::value::{insert_entry, Bencode, ParseError};
use crate::decimal::{all_digits, digits_value, is_digit};

verus! {

/// The byte `:`, which parts the length of a string from its bytes.
pub const COLON: u8 = 0x3a;

/// The byte `-`, the sign of a negative integer.
pub const MINUS: u8 = 0x2d;

/// The byte `i`, which opens an integer.
pub const INTEGER_START: u8 = 0x69;

/// The byte `l`, which opens a list.
pub const LIST_START: u8 = 0x6c;

/// The byte `d`, which opens a dictionary.
pub const DICTIONARY_START: u8 = 0x64;

/// The byte `e`, which closes an integer, a list or a dictionary.
pub const END: u8 = 0x65;

/// The string at the head of `s`: decimal digits that give a length, a colon,
/// and that many bytes, taken as they are.
pub open spec fn parse_string(s: Seq<u8>) -> Result<(Seq<u8>, Seq<u8>), ParseError> {
    match s.index_of_first(COLON) {
        None => Err(ParseError::InvalidLength),
        Some(colon) => {
            if colon == 0 || !all_digits(s.take(colon)) {
                Err(ParseError::InvalidLength)
            } else {
                let n = digits_value(s.take(colon));
                if n > s.len() - colon - 1 {
                    Err(ParseError::LengthExceedsInput)
                } else {
                    Ok((s.subrange(colon + 1, colon + 1 + n), s.skip(colon + 1 + n)))
                }
            }
        },
    }
}

/// Whether `body` is a decimal integer: digits, with or without a minus sign
/// before them.
pub open spec fn is_integer_numeral(body: Seq<u8>) -> bool {
    if body.len() > 0 && body[0] == MINUS {
        body.len() > 1 && all_digits(body.skip(1))
    } else {
        body.len() > 0 && all_digits(body)
    }
}

/// The integer that the numeral `body` denotes.
pub open spec fn numeral_value(body: Seq<u8>) -> int {
    if body.len() > 0 && body[0] == MINUS {
        -(digits_value(body.skip(1)) as int)
    } else {
        digits_value(body) as int
    }
}

/// The integer at the head of `s`: `i`, a decimal integer of 64 bits, `e`.
/// Leading zeros and `-0` are read as the numbers they denote.
pub open spec fn parse_integer(s: Seq<u8>) -> Result<(i64, Seq<u8>), ParseError> {
    if s.len() == 0 {
        Err(ParseError::UnexpectedEnd)
    } else if s[0] != INTEGER_START {
        Err(ParseError::InvalidInteger)
    } else {
        match s.index_of_first(END) {
            None => Err(ParseError::InvalidInteger),
            Some(end) => {
                let body = s.subrange(1, end);
                if is_integer_numeral(body) && i64::MIN <= numeral_value(body) <= i64::MAX {
                    Ok((numeral_value(body) as i64, s.skip(end + 1)))
                } else {
                    Err(ParseError::InvalidInteger)
                }
            },
        }
    }
}

/// The value at the head of `s`, chosen by the first byte: a digit opens a
/// string, `i` an integer, `l` a list, `d` a dictionary.
pub open spec fn parse_value(s: Seq<u8>) -> Result<(Bencode, Seq<u8>), ParseError>
    decreases s.len(), 0nat,
{
    if s.len() == 0 {
        Err(ParseError::UnexpectedEnd)
    } else if is_digit(s[0]) {
        match parse_string(s) {
            Ok((bytes, rest)) => Ok((Bencode::ByteString(bytes), rest)),
            Err(e) => Err(e),
        }
    } else if s[0] == INTEGER_START {
        match parse_integer(s) {
            Ok((n, rest)) => Ok((Bencode::Integer(n), rest)),
            Err(e) => Err(e),
        }
    } else if s[0] == LIST_START {
        match parse_items(s.skip(1), Seq::empty()) {
            Ok((items, rest)) => Ok((Bencode::List(items), rest)),
            Err(e) => Err(e),
        }
    } else if s[0] == DICTIONARY_START {
        match parse_entries(s.skip(1), Seq::empty()) {
            Ok((entries, rest)) => Ok((Bencode::Dictionary(entries), rest)),
            Err(e) => Err(e),
        }
    } else {
        Err(ParseError::UnhandledValue)
    }
}

/// The items of a list whose `l` has been read and whose first items are
/// `acc`: values up to the first `e` that stands where a value could begin.
pub open spec fn parse_items(s: Seq<u8>, acc: Seq<Bencode>) -> Result<
    (Seq<Bencode>, Seq<u8>),
    ParseError,
>
    decreases s.len(), 1nat,
{
    if s.len() == 0 {
        Err(ParseError::UnexpectedEnd)
    } else if s[0] == END {
        Ok((acc, s.skip(1)))
    } else {
        match parse_value(s) {
            Err(e) => Err(e),
            Ok((item, rest)) => {
                // A value takes at least one byte, so that this test never fails.
                if rest.len() < s.len() {
                    parse_items(rest, acc.push(item))
                } else {
                    Err(ParseError::UnexpectedEnd)
                }
            },
        }
    }
}

/// The entries of a dictionary whose `d` has been read and whose first entries
/// are `acc`: pairs of a string and a value up to the first `e` that stands
/// where a key could begin. A key that comes again replaces the value it had.
pub open spec fn parse_entries(s: Seq<u8>, acc: Seq<(Seq<u8>, Bencode)>) -> Result<
    (Seq<(Seq<u8>, Bencode)>, Seq<u8>),
    ParseError,
>
    decreases s.len(), 1nat,
{
    if s.len() == 0 {
        Err(ParseError::UnexpectedEnd)
    } else if s[0] == END {
        Ok((acc, s.skip(1)))
    } else if !is_digit(s[0]) {
        Err(ParseError::NonStringKey)
    } else {
        match parse_string(s) {
            Err(e) => Err(e),
            Ok((key, after_key)) => {
                // A string takes at least two bytes, so that this test never fails.
                if after_key.len() < s.len() {
                    match parse_value(after_key) {
                        Err(e) => Err(e),
                        Ok((value, rest)) => {
                            if rest.len() < after_key.len() {
                                parse_entries(rest, insert_entry(acc, key, value))
                            } else {
                                Err(ParseError::UnexpectedEnd)
                            }
                        },
                    }
                } else {
                    Err(ParseError::UnexpectedEnd)
                }
            },
        }
    }
}

/// What the string at the head of `s` leaves is the end of `s`, and shorter.
pub proof fn lemma_parse_string_rest(s: Seq<u8>)
    ensures
        parse_string(s) matches Ok((bytes, rest)) ==> {
            &&& rest.len() + 2 <= s.len()
            &&& rest == s.skip(s.len() - rest.len())
        },
{
    s.index_of_first_ensures(COLON);
}

/// What the integer at the head of `s` leaves is the end of `s`, and shorter.
pub proof fn lemma_parse_integer_rest(s: Seq<u8>)
    ensures
        parse_integer(s) matches Ok((n, rest)) ==> {
            &&& rest.len() + 3 <= s.len()
            &&& rest == s.skip(s.len() - rest.len())
        },
{
    s.index_of_first_ensures(END);
}

/// What the value at the head of `s` leaves is the end of `s`, and shorter.
pub proof fn lemma_parse_value_rest(s: Seq<u8>)
    ensures
        parse_value(s) matches Ok((value, rest)) ==> {
            &&& rest.len() < s.len()
            &&& rest == s.skip(s.len() - rest.len())
        },
    decreases s.len(), 0nat,
{
    if s.len() == 0 {
    } else if is_digit(s[0]) {
        lemma_parse_string_rest(s);
    } else if s[0] == INTEGER_START {
        lemma_parse_integer_rest(s);
    } else if s[0] == LIST_START {
        lemma_parse_items_rest(s.skip(1), Seq::empty());
    } else if s[0] == DICTIONARY_START {
        lemma_parse_entries_rest(s.skip(1), Seq::empty());
    }
}

/// What the items at the head of `s` leave is the end of `s`, and shorter.
pub proof fn lemma_parse_items_rest(s: Seq<u8>, acc: Seq<Bencode>)
    ensures
        parse_items(s, acc) matches Ok((items, rest)) ==> {
            &&& rest.len() < s.len()
            &&& rest == s.skip(s.len() - rest.len())
        },
    decreases s.len(), 1nat,
{
    if s.len() == 0 {
    } else if s[0] == END {
    } else {
        lemma_parse_value_rest(s);
        if let Ok((item, after)) = parse_value(s) {
            lemma_parse_items_rest(after, acc.push(item));
        }
    }
}

/// What the entries at the head of `s` leave is the end of `s`, and shorter.
pub proof fn lemma_parse_entries_rest(s: Seq<u8>, acc: Seq<(Seq<u8>, Bencode)>)
    ensures
        parse_entries(s, acc) matches Ok((entries, rest)) ==> {
            &&& rest.len() < s.len()
            &&& rest == s.skip(s.len() - rest.len())
        },
    decreases s.len(), 1nat,
{
    if s.len() == 0 {
    } else if s[0] == END {
    } else if !is_digit(s[0]) {
    } else {
        lemma_parse_string_rest(s);
        if let Ok((key, after_key)) = parse_string(s) {
            lemma_parse_value_rest(after_key);
            if let Ok((value, after)) = parse_value(after_key) {
                lemma_parse_entries_rest(after, insert_entry(acc, key, value));
            }
        }
    }
}

} // verus!
