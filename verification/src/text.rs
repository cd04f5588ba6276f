//! Numbers as text.
//!
//! The conversions themselves are those of the standard library.  What this
//! module states of them is taken on trust.

use vstd::prelude::*;

verus! {

/// `std::num::ParseIntError`: why a text is not a number.  It is handed on
/// as it comes; nothing is stated of what it holds.
#[verifier::external_type_specification]
#[verifier::external_body]
pub struct ExParseIntError(std::num::ParseIntError);

/// The number that a run of decimal digits stands for, or nothing where the
/// text is empty or holds anything but the digits `0` to `9`.
pub open spec fn digits_value(text: Seq<char>) -> Option<nat>
    decreases text.len(),
{
    if text.len() == 0 {
        None
    } else if !('0' <= text.last() <= '9') {
        None
    } else if text.len() == 1 {
        Some((text.last() as nat - '0' as nat) as nat)
    } else {
        match digits_value(text.drop_last()) {
            Some(v) => Some((v * 10 + (text.last() as nat - '0' as nat)) as nat),
            None => None,
        }
    }
}

/// The number that a text stands for: an optional `+` and then decimal
/// digits, with no other character before, between or after.
pub open spec fn unsigned_value(text: Seq<char>) -> Option<nat> {
    if text.len() > 0 && text[0] == '+' {
        digits_value(text.drop_first())
    } else {
        digits_value(text)
    }
}

/// What `text` parses to as a `u64`: its value, where it has one that fits.
pub open spec fn parsed_u64(text: Seq<char>) -> Option<u64> {
    match unsigned_value(text) {
        Some(v) => if v <= u64::MAX {
            Some(v as u64)
        } else {
            None
        },
        None => None,
    }
}

/// What `text` parses to as a `usize`: its value, where it has one that fits.
pub open spec fn parsed_usize(text: Seq<char>) -> Option<usize> {
    match unsigned_value(text) {
        Some(v) => if v <= usize::MAX {
            Some(v as usize)
        } else {
            None
        },
        None => None,
    }
}

/// `str::parse::<u64>`: succeeds on an optional `+` followed by decimal
/// digits whose value fits, with that value, and fails on any other text.
#[verifier::external_body]
pub(crate) fn parse_u64(text: &str) -> (r: Result<u64, std::num::ParseIntError>)
    ensures
        r is Ok <==> parsed_u64(text@) is Some,
        r matches Ok(n) ==> parsed_u64(text@) == Some(n),
{
    text.parse::<u64>()
}

/// `str::parse::<usize>`: succeeds on an optional `+` followed by decimal
/// digits whose value fits, with that value, and fails on any other text.
#[verifier::external_body]
pub(crate) fn parse_usize(text: &str) -> (r: Result<usize, std::num::ParseIntError>)
    ensures
        r is Ok <==> parsed_usize(text@) is Some,
        r matches Ok(n) ==> parsed_usize(text@) == Some(n),
{
    text.parse::<usize>()
}

/// The ten decimal digits.
pub open spec fn digits() -> Seq<char> {
    seq!['0', '1', '2', '3', '4', '5', '6', '7', '8', '9']
}

/// `n` written in decimal, without leading zeros.
pub open spec fn decimal(n: nat) -> Seq<char>
    decreases n,
{
    if n < 10 {
        seq![digits()[n as int]]
    } else {
        decimal(n / 10).push(digits()[(n % 10) as int])
    }
}

/// `u64::to_string` of the standard library: the number in decimal digits,
/// most significant first, with no sign, padding or leading zero.
#[verifier::external_body]
pub(crate) fn u64_to_string(n: u64) -> (s: String)
    ensures
        s@ == decimal(n as nat),
{
    n.to_string()
}

} // verus!
