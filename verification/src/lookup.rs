//! What the lookup service answers.
//!
//! A point lookup reads a hash from its text (`PasswordHash::from_str`) and
//! reports the count that the store holds for it (`decode_count`). The status
//! is one line of text with the store's estimate of the number of its keys.

use crate::ascii::DIGIT_ZERO;
use vstd::prelude::*;
use vstd::string::*;

verus! {

/// The decimal digit of a value in `0..10`.
pub open spec fn digit_char(v: nat) -> char
    recommends
        v < 10,
{
    (DIGIT_ZERO + v) as u8 as char
}

/// The decimal text of `n`: its digits, the most significant first, with no
/// leading zero but for zero itself.
pub open spec fn decimal_text(n: nat) -> Seq<char>
    decreases n,
{
    if n < 10 {
        seq![digit_char(n)]
    } else {
        decimal_text(n / 10).push(digit_char(n % 10))
    }
}

/// Writes `n` in decimal.
///
/// Calls `u64::to_string` of std, which writes an unsigned integer as its
/// decimal digits without sign, padding or leading zeros.
#[verifier::external_body]
fn decimal_string(n: u64) -> (s: String)
    ensures
        s@ == decimal_text(n as nat),
{
    n.to_string()
}

/// The status line for a store that estimates `count` keys.
pub fn status_line(count: u64) -> (s: String)
    ensures
        s@ == "pwned count="@ + decimal_text(count as nat) + "u"@,
{
    let digits = decimal_string(count);
    "pwned count=".to_owned().concat(digits.as_str()).concat("u")
}

} // verus!
