//! Text: comparing it, writing numbers as it, and the encodings that
//! trackers read.

use hex::FromHexError;
use vstd::prelude::*;

verus! {

/// `str::eq` of std: whether two strings hold the same characters.
#[verifier::external_body]
pub(crate) fn str_eq(a: &str, b: &str) -> (same: bool)
    ensures
        same == (a@ == b@),
{
    a == b
}

/// The character of a digit below ten.
pub open spec fn digit_char(d: nat) -> char
    recommends
        d < 10,
{
    (48 + d) as u8 as char
}

/// A number in decimal, without leading zeros.
pub open spec fn decimal_digits(n: nat) -> Seq<char>
    decreases n,
{
    if n < 10 {
        seq![digit_char(n)]
    } else {
        decimal_digits(n / 10).push(digit_char(n % 10))
    }
}

/// `u64::to_string` of std: the number in decimal.
#[verifier::external_body]
pub(crate) fn decimal(n: u64) -> (text: String)
    ensures
        text@ == decimal_digits(n as nat),
{
    n.to_string()
}

/// Whether a byte stands for itself in a URL: a letter, a digit, or one of
/// `-`, `.`, `_` and `~`.
pub open spec fn unreserved(b: u8) -> bool {
    (48 <= b <= 57) || (65 <= b <= 90) || (97 <= b <= 122) || b == 45 || b == 46 || b == 95 || b
        == 126
}

/// The character of a hexadecimal digit, in upper case.
pub open spec fn hex_upper(d: u8) -> char
    recommends
        d < 16,
{
    if d < 10 {
        (48 + d) as u8 as char
    } else {
        (55 + d) as u8 as char
    }
}

/// Bytes percent-encoded: every byte that does not stand for itself becomes
/// `%` and its two hexadecimal digits.
pub open spec fn percent_encoded(data: Seq<u8>) -> Seq<char>
    decreases data.len(),
{
    if data.len() == 0 {
        Seq::empty()
    } else if unreserved(data.first()) {
        seq![data.first() as char] + percent_encoded(data.drop_first())
    } else {
        seq!['%', hex_upper(data.first() / 16), hex_upper(data.first() % 16)] + percent_encoded(
            data.drop_first(),
        )
    }
}

/// `urlencoding::encode_binary`, made a `String`: the bytes percent-encoded.
#[verifier::external_body]
pub(crate) fn url_encode(data: &[u8]) -> (text: String)
    ensures
        text@ == percent_encoded(data@),
{
    urlencoding::encode_binary(data).into_owned()
}

#[verifier::external_type_specification]
#[verifier::external_body]
pub struct ExFromHexError(FromHexError);

/// What a hexadecimal digit stands for, in either case.
pub open spec fn hex_value(c: u8) -> Option<u8> {
    if 48 <= c <= 57 {
        Some((c - 48) as u8)
    } else if 65 <= c <= 70 {
        Some((c - 55) as u8)
    } else if 97 <= c <= 102 {
        Some((c - 87) as u8)
    } else {
        None
    }
}

/// Whether every byte is a hexadecimal digit.
pub open spec fn all_hex(text: Seq<u8>) -> bool {
    forall|i: int| 0 <= i < text.len() ==> hex_value(#[trigger] text[i]) is Some
}

/// The bytes that an even number of hexadecimal digits spell, two digits a
/// byte, the higher digit first.
pub open spec fn hex_bytes(text: Seq<u8>) -> Seq<u8> {
    Seq::new(
        text.len() / 2,
        |i: int| (hex_value(text[2 * i])->0 * 16 + hex_value(text[2 * i + 1])->0) as u8,
    )
}

/// `hex::decode`: the bytes that the digits spell; an error where their
/// number is odd or one of them is no hexadecimal digit.
#[verifier::external_body]
pub(crate) fn hex_decode(text: &[u8]) -> (r: Result<Vec<u8>, FromHexError>)
    ensures
        match r {
            Ok(bytes) => text@.len() % 2 == 0 && all_hex(text@) && bytes@ == hex_bytes(text@),
            Err(_) => text@.len() % 2 != 0 || !all_hex(text@),
        },
{
    hex::decode(text)
}

} // verus!
