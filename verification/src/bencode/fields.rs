//! Typed access to the fields of a dictionary.

use vstd::prelude::*;
use vstd::slice::slice_to_vec;
use vstd::utf8::{decode_utf8, valid_utf8};
use crate::bencode::value::{Bencode, ParseError, Value};
use crate::text::text_from_utf8;

verus! {

/// The byte string that `dictionary` holds under `key`.
pub open spec fn string_field(dictionary: Bencode, key: Seq<u8>) -> Result<Seq<u8>, ParseError> {
    match dictionary.field(key) {
        None => Err(ParseError::MissingField),
        Some(Bencode::ByteString(bytes)) => Ok(bytes),
        Some(_) => Err(ParseError::WrongKind),
    }
}

/// The text that `dictionary` holds under `key`: a byte string that is UTF-8.
pub open spec fn text_field(dictionary: Bencode, key: Seq<u8>) -> Result<Seq<char>, ParseError> {
    match string_field(dictionary, key) {
        Err(e) => Err(e),
        Ok(bytes) => if valid_utf8(bytes) {
            Ok(decode_utf8(bytes))
        } else {
            Err(ParseError::InvalidText)
        },
    }
}

/// The number that `dictionary` holds under `key`: an integer that fits 32
/// bits without a sign.
pub open spec fn u32_field(dictionary: Bencode, key: Seq<u8>) -> Result<u32, ParseError> {
    match dictionary.field(key) {
        None => Err(ParseError::MissingField),
        Some(Bencode::Integer(n)) => if 0 <= n <= u32::MAX {
            Ok(n as u32)
        } else {
            Err(ParseError::WrongKind)
        },
        Some(_) => Err(ParseError::WrongKind),
    }
}

/// The dictionary that `dictionary` holds under `key`.
pub open spec fn dictionary_field(dictionary: Bencode, key: Seq<u8>) -> Result<
    Bencode,
    ParseError,
> {
    match dictionary.field(key) {
        None => Err(ParseError::MissingField),
        Some(value) => if value is Dictionary {
            Ok(value)
        } else {
            Err(ParseError::WrongKind)
        },
    }
}

impl Value {
    /// Reads the byte string under `key`.
    pub fn get_string(&self, key: &[u8]) -> (res: Result<&Vec<u8>, ParseError>)
        ensures
            match string_field(self@, key@) {
                Ok(bytes) => res matches Ok(found) && found@ == bytes,
                Err(e) => res matches Err(err) && err == e,
            },
    {
        match self.lookup(key) {
            None => Err(ParseError::MissingField),
            Some(Value::ByteString(bytes)) => Ok(bytes),
            Some(_) => Err(ParseError::WrongKind),
        }
    }

    /// Reads the text under `key`.
    pub fn get_text(&self, key: &[u8]) -> (res: Result<String, ParseError>)
        ensures
            match text_field(self@, key@) {
                Ok(text) => res matches Ok(found) && found@ == text,
                Err(e) => res matches Err(err) && err == e,
            },
    {
        match self.get_string(key) {
            Err(e) => Err(e),
            Ok(bytes) => match text_from_utf8(slice_to_vec(bytes.as_slice())) {
                Some(text) => Ok(text),
                None => Err(ParseError::InvalidText),
            },
        }
    }

    /// Reads the number under `key`.
    pub fn get_u32(&self, key: &[u8]) -> (res: Result<u32, ParseError>)
        ensures
            res == u32_field(self@, key@),
    {
        match self.lookup(key) {
            None => Err(ParseError::MissingField),
            Some(Value::Integer(n)) => if 0 <= *n && *n <= 0xffff_ffff {
                Ok(*n as u32)
            } else {
                Err(ParseError::WrongKind)
            },
            Some(_) => Err(ParseError::WrongKind),
        }
    }

    /// Reads the dictionary under `key`.
    pub fn get_dictionary(&self, key: &[u8]) -> (res: Result<&Value, ParseError>)
        ensures
            match dictionary_field(self@, key@) {
                Ok(value) => res matches Ok(found) && found@ == value,
                Err(e) => res matches Err(err) && err == e,
            },
    {
        match self.lookup(key) {
            None => Err(ParseError::MissingField),
            Some(value) => match value {
                Value::Dictionary(_) => Ok(value),
                _ => Err(ParseError::WrongKind),
            },
        }
    }
}

} // verus!
