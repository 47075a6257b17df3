//! Textual forms of scalars, and the std and `hex` calls that produce them.

use vstd::prelude::*;

verus! {

/// The ASCII character of a decimal digit.
pub open spec fn digit_char(d: nat) -> char {
    seq!['0', '1', '2', '3', '4', '5', '6', '7', '8', '9'][d as int]
}

/// Decimal notation of a natural number, most significant digit first,
/// without leading zeros.
pub open spec fn decimal(n: nat) -> Seq<char>
    decreases n,
{
    if n < 10 {
        seq![digit_char(n)]
    } else {
        decimal(n / 10).push(digit_char(n % 10))
    }
}

/// Decimal notation of an integer, with a leading `-` when it is negative.
pub open spec fn signed_decimal(i: int) -> Seq<char> {
    if i < 0 {
        seq!['-'] + decimal((-i) as nat)
    } else {
        decimal(i as nat)
    }
}

/// The lowercase hexadecimal character of a nibble.
pub open spec fn hex_digit(d: nat) -> char {
    seq!['0', '1', '2', '3', '4', '5', '6', '7', '8', '9', 'a', 'b', 'c', 'd', 'e', 'f'][d as int]
}

/// Lowercase hexadecimal notation of a byte string: two digits per byte,
/// high nibble first.
pub open spec fn hex_lower(bytes: Seq<u8>) -> Seq<char>
    decreases bytes.len(),
{
    if bytes.len() == 0 {
        seq![]
    } else {
        seq![hex_digit(bytes[0] as nat / 16), hex_digit(bytes[0] as nat % 16)] + hex_lower(
            bytes.drop_first(),
        )
    }
}

/// What `str::to_uppercase` returns for a string (Unicode case mapping).
pub uninterp spec fn uppercase(s: Seq<char>) -> Seq<char>;

/// What `String::from_utf8_lossy` returns for a byte string.
pub uninterp spec fn utf8_lossy(bytes: Seq<u8>) -> Seq<char>;

/// Calls `<u64 as ToString>::to_string`; trusted to give the decimal notation.
#[verifier::external_body]
pub(crate) fn u64_text(v: u64) -> (s: String)
    ensures
        s@ == decimal(v as nat),
{
    v.to_string()
}

/// Calls `<i64 as ToString>::to_string`; trusted to give the decimal notation,
/// with a `-` sign for negative numbers.
#[verifier::external_body]
pub(crate) fn i64_text(v: i64) -> (s: String)
    ensures
        s@ == signed_decimal(v as int),
{
    v.to_string()
}

/// Calls `hex::encode`; trusted to give two lowercase hex digits per byte,
/// high nibble first, as its documentation states.
#[verifier::external_body]
pub(crate) fn hex_text(bytes: &[u8]) -> (s: String)
    ensures
        s@ == hex_lower(bytes@),
{
    hex::encode(bytes)
}

/// Calls `str::to_uppercase`; the result is named, not described.
#[verifier::external_body]
pub(crate) fn upper_text(s: &str) -> (r: String)
    ensures
        r@ == uppercase(s@),
{
    s.to_uppercase()
}

/// Calls `String::from_utf8_lossy`; the result is named, not described.
#[verifier::external_body]
pub(crate) fn lossy_text(bytes: &[u8]) -> (r: String)
    ensures
        r@ == utf8_lossy(bytes@),
{
    String::from_utf8_lossy(bytes).into_owned()
}

/// Calls `String::push`; trusted to append the character at the end.
#[verifier::external_body]
pub(crate) fn push_char(s: &mut String, c: char)
    ensures
        final(s)@ == old(s)@.push(c),
{
    s.push(c)
}

} // verus!
