//! Text: building strings a character at a time, reading bytes as UTF-8,
//! numbers in decimal, and the percent-encoding of URLs.

use vstd::prelude::*;
use vstd::utf8::{decode_utf8, valid_utf8};
use crate::decimal::{decimal, decimal_text, push_decimal};

verus! {

/// Whether a byte stands for itself in a percent-encoded text: the ASCII
/// letters and digits, `-`, `.`, `_` and `~`.
pub open spec fn is_unreserved(b: u8) -> bool {
    ||| 0x30 <= b <= 0x39
    ||| 0x41 <= b <= 0x5a
    ||| 0x61 <= b <= 0x7a
    ||| b == 0x2d
    ||| b == 0x2e
    ||| b == 0x5f
    ||| b == 0x7e
}

/// The hexadecimal digit of a number below sixteen, in upper case.
pub open spec fn hex_digit_upper(n: int) -> char {
    if n < 10 {
        (0x30 + n) as char
    } else {
        (0x37 + n) as char
    }
}

/// One byte, percent-encoded: itself where it is unreserved, else `%` and its
/// two hexadecimal digits in upper case.
pub open spec fn percent_encoded_byte(b: u8) -> Seq<char> {
    if is_unreserved(b) {
        seq![b as char]
    } else {
        seq!['%', hex_digit_upper(b as int / 16), hex_digit_upper(b as int % 16)]
    }
}

/// The bytes, percent-encoded one by one.
pub open spec fn percent_encoded(data: Seq<u8>) -> Seq<char>
    decreases data.len(),
{
    if data.len() == 0 {
        Seq::empty()
    } else {
        percent_encoded(data.drop_last()) + percent_encoded_byte(data.last())
    }
}

/// The bytes, percent-encoded by `urlencoding::encode_binary`.
///
/// Trusted, not proved: that every byte but the ASCII letters and digits and
/// `-`, `.`, `_`, `~` is written as `%` and two upper-case hexadecimal digits,
/// and that those stand for themselves.
#[verifier::external_body]
pub(crate) fn percent_encode(data: &[u8]) -> (res: String)
    ensures
        res@ == percent_encoded(data@),
{
    urlencoding::encode_binary(data).into_owned()
}

/// Appends one character, by `String::push`.
///
/// Trusted, not proved: that the text afterwards is the text before with `c`
/// at its end.
#[verifier::external_body]
pub(crate) fn push_char(text: &mut String, c: char)
    ensures
        final(text)@ == old(text)@.push(c),
{
    text.push(c)
}

/// Reads bytes as UTF-8, by `String::from_utf8`.
///
/// Trusted, not proved: that there is a result exactly when the bytes are
/// valid UTF-8, and that it is then the text that they encode.
#[verifier::external_body]
pub(crate) fn text_from_utf8(bytes: Vec<u8>) -> (res: Option<String>)
    ensures
        res is Some <==> valid_utf8(bytes@),
        res matches Some(text) ==> text@ == decode_utf8(bytes@),
{
    String::from_utf8(bytes).ok()
}

/// Appends the decimal numeral of `n` to `text`.
pub fn push_decimal_text(text: &mut String, n: u64)
    ensures
        final(text)@ == old(text)@ + decimal_text(n as nat),
{
    let mut digits: Vec<u8> = Vec::new();
    push_decimal(&mut digits, n);
    let mut i: usize = 0;
    while i < digits.len()
        invariant
            i <= digits.len(),
            digits@ == decimal(n as nat),
            text@ == old(text)@ + decimal_text(n as nat).take(i as int),
        decreases digits.len() - i,
    {
        push_char(text, digits[i] as char);
        i += 1;
    }
}

} // verus!
