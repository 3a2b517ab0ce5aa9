//! Breach counts: their decimal text form and their stored form.
//!
//! A count is a `u64`. In text it is written in decimal; in the store it is
//! eight bytes, most significant first, so that stored values order as the
//! counts do.

use crate::ascii::{DIGIT_NINE, DIGIT_ZERO, PLUS};
use vstd::prelude::*;
use vstd::string::*;

verus! {

/// Number of bytes of a stored count.
pub const COUNT_WIDTH: usize = 8;

/// Whether `b` is an ASCII decimal digit.
pub open spec fn is_digit(b: u8) -> bool {
    DIGIT_ZERO <= b && b <= DIGIT_NINE
}

/// Whether `s` holds decimal digits only.
pub open spec fn all_digits(s: Seq<u8>) -> bool {
    forall|i: int| 0 <= i < s.len() ==> is_digit(#[trigger] s[i])
}

/// The number that the decimal digits `s` write; leading zeros count nothing.
pub open spec fn decimal_value(s: Seq<u8>) -> nat
    decreases s.len(),
{
    if s.len() == 0 {
        0
    } else {
        decimal_value(s.drop_last()) * 10 + (s.last() - DIGIT_ZERO) as nat
    }
}

/// `s` without one plus sign at its start.
pub open spec fn without_sign(s: Seq<u8>) -> Seq<u8> {
    if s.len() > 0 && s[0] == PLUS {
        s.drop_first()
    } else {
        s
    }
}

/// Position of the first byte of `s` that is no decimal digit, or `s.len()`
/// where every byte is one.
pub open spec fn first_non_digit(s: Seq<u8>) -> int
    decreases s.len(),
{
    if s.len() == 0 || !is_digit(s[0]) {
        0
    } else {
        1 + first_non_digit(s.drop_first())
    }
}

/// Why a text writes no count.
#[derive(Debug, Clone, Copy, PartialEq, Eq)]
pub enum CountError {
    /// The text is empty.
    Empty,
    /// The text holds a byte that is no decimal digit, or a sign and nothing
    /// after it.
    InvalidDigit,
    /// The digits write a number that does not fit in 64 bits.
    Overflow,
}

/// What reading a count from a text gives. The text is an optional plus sign
/// and then digits, read from the left: the reading fails where the number
/// read so far no longer fits in 64 bits, or at the first byte that is no
/// digit, whichever comes first.
pub open spec fn count_reading(s: Seq<u8>) -> Result<u64, CountError> {
    let digits = without_sign(s);
    let read = digits.subrange(0, first_non_digit(digits));
    if s.len() == 0 {
        Err(CountError::Empty)
    } else if digits.len() == 0 {
        Err(CountError::InvalidDigit)
    } else if decimal_value(read) > u64::MAX {
        Err(CountError::Overflow)
    } else if read.len() < digits.len() {
        Err(CountError::InvalidDigit)
    } else {
        Ok(decimal_value(digits) as u64)
    }
}

/// The count that a text writes, where it writes one.
pub open spec fn count_value(s: Seq<u8>) -> Option<u64> {
    match count_reading(s) {
        Ok(n) => Some(n),
        Err(_) => None,
    }
}

/// `first_non_digit` is in range, every byte before it is a digit and the
/// byte at it is none.
pub proof fn lemma_first_non_digit(s: Seq<u8>)
    ensures
        0 <= first_non_digit(s) <= s.len(),
        forall|j: int| 0 <= j < first_non_digit(s) ==> is_digit(#[trigger] s[j]),
        first_non_digit(s) < s.len() ==> !is_digit(s[first_non_digit(s)]),
        first_non_digit(s) == s.len() <==> all_digits(s),
    decreases s.len(),
{
    if s.len() == 0 || !is_digit(s[0]) {
    } else {
        let t = s.drop_first();
        lemma_first_non_digit(t);
        assert forall|j: int| 0 <= j < first_non_digit(s) implies is_digit(#[trigger] s[j]) by {
            if j > 0 {
                assert(s[j] == t[j - 1]);
            }
        }
        if first_non_digit(s) < s.len() {
            assert(s[first_non_digit(s)] == t[first_non_digit(t)]);
        }
    }
}

/// A text writes a count exactly where it is an optional plus sign and then
/// one or more decimal digits whose value fits in 64 bits; the count is that
/// value.
pub proof fn lemma_count_value(s: Seq<u8>)
    ensures
        count_value(s) is Some <==> without_sign(s).len() > 0 && all_digits(without_sign(s))
            && decimal_value(without_sign(s)) <= u64::MAX,
        count_value(s) matches Some(n) ==> n == decimal_value(without_sign(s)),
{
    let digits = without_sign(s);
    lemma_first_non_digit(digits);
    if first_non_digit(digits) == digits.len() {
        assert(digits.subrange(0, digits.len() as int) =~= digits);
    }
}

/// A number is no smaller than the number that its leading digits write.
proof fn lemma_decimal_value_prefix(s: Seq<u8>, k: int)
    requires
        0 <= k <= s.len(),
        all_digits(s),
    ensures
        decimal_value(s.subrange(0, k)) <= decimal_value(s),
    decreases s.len(),
{
    if k == s.len() {
        assert(s.subrange(0, k) =~= s);
    } else {
        let t = s.drop_last();
        assert(t.subrange(0, k) =~= s.subrange(0, k));
        assert(is_digit(s[s.len() - 1]));
        assert forall|i: int| 0 <= i < t.len() implies is_digit(#[trigger] t[i]) by {
            assert(t[i] == s[i]);
        }
        lemma_decimal_value_prefix(t, k);
    }
}

/// Reads a count from its decimal text.
pub fn parse_count(text: &str) -> (r: Result<u64, CountError>)
    ensures
        r == count_reading(text.spec_bytes()),
{
    let bytes = text.as_bytes();
    let n = bytes.len();
    if n == 0 {
        return Err(CountError::Empty);
    }
    let start: usize = if bytes[0] == PLUS {
        1
    } else {
        0
    };
    if start == n {
        return Err(CountError::InvalidDigit);
    }
    let ghost digits = without_sign(bytes@);
    let ghost stop = first_non_digit(digits);
    let mut acc: u64 = 0;
    let mut i: usize = start;
    proof {
        lemma_first_non_digit(digits);
        assert(digits.subrange(0, 0) =~= Seq::<u8>::empty());
    }
    while i < n
        invariant
            start <= i <= n,
            n == bytes@.len(),
            n > 0,
            bytes@ == text.spec_bytes(),
            digits == without_sign(bytes@),
            digits.len() == n - start,
            digits.len() > 0,
            forall|j: int| 0 <= j < digits.len() ==> digits[j] == bytes@[j + start],
            stop == first_non_digit(digits),
            i - start <= stop <= digits.len(),
            forall|j: int| 0 <= j < stop ==> is_digit(#[trigger] digits[j]),
            stop < digits.len() ==> !is_digit(digits[stop]),
            acc == decimal_value(digits.subrange(0, i - start)),
        decreases n - i,
    {
        let b = bytes[i];
        if b < DIGIT_ZERO || b > DIGIT_NINE {
            assert(!is_digit(digits[i - start]));
            assert(stop == i - start);
            return Err(CountError::InvalidDigit);
        }
        let ghost seen = digits.subrange(0, i - start);
        let ghost next = digits.subrange(0, i + 1 - start);
        proof {
            assert(is_digit(digits[i - start]));
            assert(i - start < stop);
            assert(next.drop_last() =~= seen);
            assert(next.last() == b);
            assert(decimal_value(next) == acc * 10 + (b - DIGIT_ZERO));
            let read = digits.subrange(0, stop);
            assert(read.subrange(0, i + 1 - start) =~= next);
            lemma_decimal_value_prefix(read, i + 1 - start);
        }
        let shifted = match acc.checked_mul(10) {
            Some(m) => m,
            None => {
                return Err(CountError::Overflow);
            },
        };
        acc = match shifted.checked_add((b - DIGIT_ZERO) as u64) {
            Some(v) => v,
            None => {
                return Err(CountError::Overflow);
            },
        };
        i += 1;
    }
    assert(digits.subrange(0, n - start) =~= digits);
    Ok(acc)
}

/// The stored form of a count: its eight bytes, most significant first.
pub open spec fn count_bytes(n: u64) -> Seq<u8> {
    seq![
        (n / 0x100_0000_0000_0000) as u8,
        (n / 0x1_0000_0000_0000 % 0x100) as u8,
        (n / 0x100_0000_0000 % 0x100) as u8,
        (n / 0x1_0000_0000 % 0x100) as u8,
        (n / 0x100_0000 % 0x100) as u8,
        (n / 0x1_0000 % 0x100) as u8,
        (n / 0x100 % 0x100) as u8,
        (n % 0x100) as u8,
    ]
}

/// The number that eight bytes write, most significant first.
pub open spec fn bytes_count(b: Seq<u8>) -> u64
    recommends
        b.len() == COUNT_WIDTH,
{
    (b[0] * 0x100_0000_0000_0000 + b[1] * 0x1_0000_0000_0000 + b[2] * 0x100_0000_0000 + b[3]
        * 0x1_0000_0000 + b[4] * 0x100_0000 + b[5] * 0x1_0000 + b[6] * 0x100 + b[7]) as u64
}

/// The count that a lookup reports for what the store returned: the number
/// that the value writes where it has the stored width, and zero where the
/// key is absent or the value has any other width.
pub open spec fn stored_count(value: Option<Seq<u8>>) -> u64 {
    match value {
        Some(b) => if b.len() == COUNT_WIDTH {
            bytes_count(b)
        } else {
            0
        },
        None => 0,
    }
}

/// The value to store for a count.
pub fn encode_count(n: u64) -> (r: [u8; 8])
    ensures
        r@ == count_bytes(n),
{
    let r: [u8; 8] = [
        (n / 0x100_0000_0000_0000) as u8,
        (n / 0x1_0000_0000_0000 % 0x100) as u8,
        (n / 0x100_0000_0000 % 0x100) as u8,
        (n / 0x1_0000_0000 % 0x100) as u8,
        (n / 0x100_0000 % 0x100) as u8,
        (n / 0x1_0000 % 0x100) as u8,
        (n / 0x100 % 0x100) as u8,
        (n % 0x100) as u8,
    ];
    assert(r@ =~= count_bytes(n));
    r
}

/// The count to report for what the store returned for a key.
pub fn decode_count(value: Option<&[u8]>) -> (r: u64)
    ensures
        r == stored_count(
            match value {
                Some(b) => Some(b@),
                None => None,
            },
        ),
{
    match value {
        Some(b) => {
            if b.len() == COUNT_WIDTH {
                (b[0] as u64) * 0x100_0000_0000_0000 + (b[1] as u64) * 0x1_0000_0000_0000 + (
                b[2] as u64) * 0x100_0000_0000 + (b[3] as u64) * 0x1_0000_0000 + (b[4] as u64)
                    * 0x100_0000 + (b[5] as u64) * 0x1_0000 + (b[6] as u64) * 0x100 + (
                b[7] as u64)
            } else {
                0
            }
        },
        None => 0,
    }
}

/// Decoding what `encode_count` wrote gives the count back.
pub proof fn lemma_count_round_trip(n: u64)
    ensures
        count_bytes(n).len() == COUNT_WIDTH,
        bytes_count(count_bytes(n)) == n,
        stored_count(Some(count_bytes(n))) == n,
{
    let q1 = n / 0x100;
    let q2 = n / 0x1_0000;
    let q3 = n / 0x100_0000;
    let q4 = n / 0x1_0000_0000;
    let q5 = n / 0x100_0000_0000;
    let q6 = n / 0x1_0000_0000_0000;
    let q7 = n / 0x100_0000_0000_0000;
    assert(q2 == q1 / 0x100) by (bit_vector)
        requires
            q1 == n / 0x100,
            q2 == n / 0x1_0000,
    ;
    assert(q3 == q2 / 0x100) by (bit_vector)
        requires
            q2 == n / 0x1_0000,
            q3 == n / 0x100_0000,
    ;
    assert(q4 == q3 / 0x100) by (bit_vector)
        requires
            q3 == n / 0x100_0000,
            q4 == n / 0x1_0000_0000,
    ;
    assert(q5 == q4 / 0x100) by (bit_vector)
        requires
            q4 == n / 0x1_0000_0000,
            q5 == n / 0x100_0000_0000,
    ;
    assert(q6 == q5 / 0x100) by (bit_vector)
        requires
            q5 == n / 0x100_0000_0000,
            q6 == n / 0x1_0000_0000_0000,
    ;
    assert(q7 == q6 / 0x100) by (bit_vector)
        requires
            q6 == n / 0x1_0000_0000_0000,
            q7 == n / 0x100_0000_0000_0000,
    ;
    assert(q7 < 0x100) by (bit_vector)
        requires
            q7 == n / 0x100_0000_0000_0000,
    ;
    let b = count_bytes(n);
    assert(b[7] == n % 0x100);
    assert(b[6] == q1 % 0x100);
    assert(b[5] == q2 % 0x100);
    assert(b[4] == q3 % 0x100);
    assert(b[3] == q4 % 0x100);
    assert(b[2] == q5 % 0x100);
    assert(b[1] == q6 % 0x100);
    assert(b[0] == q7);
    assert(n == q1 * 0x100 + b[7]);
    assert(q1 == q2 * 0x100 + b[6]);
    assert(q2 == q3 * 0x100 + b[5]);
    assert(q3 == q4 * 0x100 + b[4]);
    assert(q4 == q5 * 0x100 + b[3]);
    assert(q5 == q6 * 0x100 + b[2]);
    assert(q6 == q7 * 0x100 + b[1]);
}

/// Whether `a` comes before `b` in the order of byte strings, for two values
/// of the stored width: at the first position where they differ, `a` holds
/// the smaller byte.
pub open spec fn bytes_before(a: Seq<u8>, b: Seq<u8>) -> bool
    recommends
        a.len() == COUNT_WIDTH,
        b.len() == COUNT_WIDTH,
{
    exists|k: int|
        0 <= k < COUNT_WIDTH && #[trigger] a[k] < b[k] && forall|j: int|
            0 <= j < k ==> a[j] == b[j]
}

/// A value that comes first in the order of byte strings writes the smaller
/// number.
proof fn lemma_before_writes_less(a: Seq<u8>, b: Seq<u8>)
    requires
        a.len() == COUNT_WIDTH,
        b.len() == COUNT_WIDTH,
        bytes_before(a, b),
    ensures
        bytes_count(a) < bytes_count(b),
{
    let k = choose|k: int|
        0 <= k < COUNT_WIDTH && #[trigger] a[k] < b[k] && forall|j: int|
            0 <= j < k ==> a[j] == b[j];
    assert(forall|j: int| 0 <= j < k ==> a[j] == b[j]);
    if k > 0 {
        assert(a[0] == b[0]);
    }
    if k > 1 {
        assert(a[1] == b[1]);
    }
    if k > 2 {
        assert(a[2] == b[2]);
    }
    if k > 3 {
        assert(a[3] == b[3]);
    }
    if k > 4 {
        assert(a[4] == b[4]);
    }
    if k > 5 {
        assert(a[5] == b[5]);
    }
    if k > 6 {
        assert(a[6] == b[6]);
    }
}

/// Of two different values of the stored width one comes before the other.
proof fn lemma_one_comes_first(a: Seq<u8>, b: Seq<u8>)
    requires
        a.len() == COUNT_WIDTH,
        b.len() == COUNT_WIDTH,
        a != b,
    ensures
        bytes_before(a, b) || bytes_before(b, a),
{
    let k: int = if a[0] != b[0] {
        0
    } else if a[1] != b[1] {
        1
    } else if a[2] != b[2] {
        2
    } else if a[3] != b[3] {
        3
    } else if a[4] != b[4] {
        4
    } else if a[5] != b[5] {
        5
    } else if a[6] != b[6] {
        6
    } else {
        7
    };
    if a[k] == b[k] {
        assert(a =~= b);
    } else if a[k] < b[k] {
        assert(forall|j: int| 0 <= j < k ==> a[j] == b[j]);
    } else {
        assert(b[k] < a[k]);
        assert(forall|j: int| 0 <= j < k ==> b[j] == a[j]);
    }
}

/// Stored counts order as the counts do: the smaller count is the one whose
/// stored form comes first in the order of byte strings, and equal stored
/// forms write equal counts.
pub proof fn lemma_stored_counts_order(a: u64, b: u64)
    ensures
        a < b <==> bytes_before(count_bytes(a), count_bytes(b)),
        a == b <==> count_bytes(a) == count_bytes(b),
{
    lemma_count_round_trip(a);
    lemma_count_round_trip(b);
    let x = count_bytes(a);
    let y = count_bytes(b);
    if bytes_before(x, y) {
        lemma_before_writes_less(x, y);
    }
    if a < b {
        lemma_one_comes_first(x, y);
        if bytes_before(y, x) {
            lemma_before_writes_less(y, x);
        }
    }
}

} // verus!
