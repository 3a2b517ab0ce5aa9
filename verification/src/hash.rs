//! Password hashes, their 20-bit prefixes and the hexadecimal text forms of both.
//!
//! A hash is the 20 bytes of a SHA-1 digest; its text form is 40 hexadecimal
//! digits of either case. A prefix names one of the 2^20 partitions of the
//! hash space by the top 20 bits of the hashes in it; its text form is five
//! upper-case hexadecimal digits. Text is modelled by its bytes.

use crate::ascii::{DIGIT_NINE, DIGIT_ZERO, LOWER_A, LOWER_F, UPPER_A, UPPER_F};
use hex::FromHexError;
use vstd::prelude::*;
use vstd::string::*;
use vstd::utf8::*;

verus! {

/// Number of bytes of a hash.
pub const HASH_WIDTH: usize = 20;

/// Number of hexadecimal digits of a prefix.
pub const PREFIX_DIGITS: usize = 5;

/// Number of hexadecimal digits that follow the prefix in a hash.
pub const SUFFIX_DIGITS: usize = 35;

/// Whether `b` is an ASCII hexadecimal digit of either case.
pub open spec fn is_hex_digit(b: u8) -> bool {
    (DIGIT_ZERO <= b && b <= DIGIT_NINE) || (LOWER_A <= b && b <= LOWER_F) || (UPPER_A <= b && b
        <= UPPER_F)
}

/// The value in `0..16` of a hexadecimal digit.
pub open spec fn hex_digit_value(b: u8) -> int
    recommends
        is_hex_digit(b),
{
    if DIGIT_ZERO <= b && b <= DIGIT_NINE {
        b - DIGIT_ZERO
    } else if LOWER_A <= b && b <= LOWER_F {
        b - LOWER_A + 10
    } else {
        b - UPPER_A + 10
    }
}

/// The byte that the two hexadecimal digits `hi` and `lo` write.
pub open spec fn hex_pair_value(hi: u8, lo: u8) -> u8
    recommends
        is_hex_digit(hi),
        is_hex_digit(lo),
{
    (16 * hex_digit_value(hi) + hex_digit_value(lo)) as u8
}

/// Whether `s` holds hexadecimal digits only.
pub open spec fn all_hex(s: Seq<u8>) -> bool {
    forall|i: int| 0 <= i < s.len() ==> is_hex_digit(#[trigger] s[i])
}

/// Position of the first byte of `s` that is no hexadecimal digit, or
/// `s.len()` where every byte is one.
pub open spec fn first_non_hex(s: Seq<u8>) -> int
    decreases s.len(),
{
    if s.len() == 0 || !is_hex_digit(s[0]) {
        0
    } else {
        1 + first_non_hex(s.drop_first())
    }
}

/// The bytes that the hexadecimal digits `s` write, two digits to a byte.
pub open spec fn hex_decoded(s: Seq<u8>) -> Seq<u8> {
    Seq::new(s.len() / 2, |i: int| hex_pair_value(s[2 * i], s[2 * i + 1]))
}

/// Why a text is not the hexadecimal form of a hash.
#[derive(Debug, Clone, Copy, PartialEq, Eq)]
pub enum InvalidPasswordHash {
    /// The byte at `index`, read as the character `c`, is no hexadecimal digit.
    InvalidHexCharacter { c: char, index: usize },
    /// The text has an odd number of bytes.
    OddLength,
    /// The text has an even number of bytes, but not twice as many as a hash.
    InvalidStringLength,
}

/// What decoding the hexadecimal text `s` into `width` bytes gives: the bytes,
/// or the first of these that applies: an odd length, another length than two
/// digits for each byte, the first byte that is no digit.
pub open spec fn hex_decoding(s: Seq<u8>, width: nat) -> Result<Seq<u8>, InvalidPasswordHash> {
    if s.len() % 2 != 0 {
        Err(InvalidPasswordHash::OddLength)
    } else if s.len() / 2 != width {
        Err(InvalidPasswordHash::InvalidStringLength)
    } else if first_non_hex(s) < s.len() {
        Err(
            InvalidPasswordHash::InvalidHexCharacter {
                c: s[first_non_hex(s)] as char,
                index: first_non_hex(s) as usize,
            },
        )
    } else {
        Ok(hex_decoded(s))
    }
}

/// The bytes of the hash that the text `s` writes, or why it writes none.
pub open spec fn hash_of_hex(s: Seq<u8>) -> Result<Seq<u8>, InvalidPasswordHash> {
    hex_decoding(s, HASH_WIDTH as nat)
}

/// `first_non_hex` is in range, every byte before it is a digit and the byte
/// at it is none.
pub proof fn lemma_first_non_hex(s: Seq<u8>)
    ensures
        0 <= first_non_hex(s) <= s.len(),
        forall|j: int| 0 <= j < first_non_hex(s) ==> is_hex_digit(#[trigger] s[j]),
        first_non_hex(s) < s.len() ==> !is_hex_digit(s[first_non_hex(s)]),
        first_non_hex(s) == s.len() <==> all_hex(s),
    decreases s.len(),
{
    if s.len() == 0 || !is_hex_digit(s[0]) {
    } else {
        let t = s.drop_first();
        lemma_first_non_hex(t);
        assert forall|j: int| 0 <= j < first_non_hex(s) implies is_hex_digit(#[trigger] s[j]) by {
            if j > 0 {
                assert(s[j] == t[j - 1]);
            }
        }
        if first_non_hex(s) < s.len() {
            assert(s[first_non_hex(s)] == t[first_non_hex(t)]);
        }
    }
}

/// A password hash: the 20 bytes of a SHA-1 digest.
#[derive(Debug, Clone, Copy, PartialEq, Eq)]
pub struct PasswordHash {
    pub bytes: [u8; 20],
}

impl View for PasswordHash {
    type V = Seq<u8>;

    open spec fn view(&self) -> Seq<u8> {
        self.bytes@
    }
}

/// What a list of hashes and counts holds, each hash taken by its bytes.
pub open spec fn records_view(records: Seq<(PasswordHash, u64)>) -> Seq<(Seq<u8>, u64)> {
    records.map_values(|r: (PasswordHash, u64)| (r.0@, r.1))
}

/// Decodes 40 hexadecimal digits into the 20 bytes of `out`.
///
/// Calls `hex::decode_to_slice`. The contract claims what that function's
/// source shows: it checks for an odd length, then for a length other than
/// twice that of `out`, then decodes pair by pair and stops at the first byte
/// that is no digit of either case, reporting that byte and its position.
/// Where it returns `Ok`, `out` holds the decoded bytes; of `out` after an
/// error nothing is claimed.
#[verifier::external_body]
fn decode_hex_hash(data: &[u8], out: &mut [u8; 20]) -> (r: Result<(), InvalidPasswordHash>)
    ensures
        match r {
            Ok(()) => hash_of_hex(data@) == Ok::<Seq<u8>, InvalidPasswordHash>(final(out)@),
            Err(e) => hash_of_hex(data@) == Err::<Seq<u8>, InvalidPasswordHash>(e),
        },
{
    match hex::decode_to_slice(data, &mut out[..]) {
        Ok(()) => Ok(()),
        Err(FromHexError::InvalidHexCharacter { c, index }) => Err(
            InvalidPasswordHash::InvalidHexCharacter { c, index },
        ),
        Err(FromHexError::OddLength) => Err(InvalidPasswordHash::OddLength),
        Err(FromHexError::InvalidStringLength) => Err(InvalidPasswordHash::InvalidStringLength),
    }
}

impl PasswordHash {
    /// Reads a hash from the bytes of its hexadecimal text.
    pub fn from_hex(data: &[u8]) -> (r: Result<PasswordHash, InvalidPasswordHash>)
        ensures
            match r {
                Ok(hash) => hash_of_hex(data@) == Ok::<Seq<u8>, InvalidPasswordHash>(hash@),
                Err(e) => hash_of_hex(data@) == Err::<Seq<u8>, InvalidPasswordHash>(e),
            },
    {
        let mut bytes: [u8; 20] = [0u8; 20];
        match decode_hex_hash(data, &mut bytes) {
            Ok(()) => Ok(PasswordHash { bytes }),
            Err(e) => Err(e),
        }
    }

    /// Reads a hash from its hexadecimal text: 40 digits of either case.
    pub fn from_str(s: &str) -> (r: Result<PasswordHash, InvalidPasswordHash>)
        ensures
            match r {
                Ok(hash) => hash_of_hex(s.spec_bytes()) == Ok::<Seq<u8>, InvalidPasswordHash>(
                    hash@,
                ),
                Err(e) => hash_of_hex(s.spec_bytes()) == Err::<Seq<u8>, InvalidPasswordHash>(e),
            },
    {
        PasswordHash::from_hex(s.as_bytes())
    }
}

/// The upper-case hexadecimal digit of a value in `0..16`.
pub open spec fn upper_hex_char(v: int) -> char
    recommends
        0 <= v < 16,
{
    if v < 10 {
        (DIGIT_ZERO + v) as u8 as char
    } else {
        (UPPER_A + v - 10) as u8 as char
    }
}

/// The upper-case hexadecimal text of `data`: two digits for each byte, the
/// high four bits first.
pub open spec fn upper_hex(data: Seq<u8>) -> Seq<char> {
    Seq::new(
        2 * data.len(),
        |i: int|
            upper_hex_char(
                if i % 2 == 0 {
                    (data[i / 2] / 16) as int
                } else {
                    (data[i / 2] % 16) as int
                },
            ),
    )
}

/// The text form of the prefix held in the low 20 bits of `p`: five
/// upper-case hexadecimal digits, the most significant first.
pub open spec fn prefix_hex(p: u32) -> Seq<char> {
    seq![
        upper_hex_char((p / 0x1_0000 % 16) as int),
        upper_hex_char((p / 0x1000 % 16) as int),
        upper_hex_char((p / 0x100 % 16) as int),
        upper_hex_char((p / 0x10 % 16) as int),
        upper_hex_char((p % 16) as int),
    ]
}

/// The number that the hexadecimal digits `s` write, most significant first.
pub open spec fn hex_value(s: Seq<u8>) -> nat
    decreases s.len(),
{
    if s.len() == 0 {
        0
    } else {
        hex_value(s.drop_last()) * 16 + hex_digit_value(s.last()) as nat
    }
}

/// The prefix that a text writes: the value of exactly five hexadecimal
/// digits of either case. Any other text writes none.
pub open spec fn prefix_of_hex(s: Seq<u8>) -> Option<u32> {
    if s.len() == PREFIX_DIGITS && all_hex(s) {
        Some(hex_value(s) as u32)
    } else {
        None
    }
}

/// Whether `c` is a decimal digit or one of the letters `A` to `F`.
pub open spec fn is_upper_hex_char(c: char) -> bool {
    ('0' <= c && c <= '9') || ('A' <= c && c <= 'F')
}

/// The partition that a hash lies in: its top 20 bits.
pub open spec fn hash_prefix(hash: Seq<u8>) -> int
    recommends
        hash.len() == HASH_WIDTH,
{
    hash[0] * 0x1000 + hash[1] * 0x10 + hash[2] / 0x10
}

/// Writes `data` in upper-case hexadecimal.
///
/// Calls `hex::encode_upper`. The contract claims what that function's source
/// shows: for each byte in turn it emits the digit of the high four bits, then
/// the digit of the low four bits, both taken from `0123456789ABCDEF`.
#[verifier::external_body]
fn encode_hex_upper(data: &[u8]) -> (s: String)
    ensures
        s@ == upper_hex(data@),
{
    hex::encode_upper(data)
}

/// The value of a hexadecimal digit; `None` for any other byte.
fn hex_digit(b: u8) -> (r: Option<u8>)
    ensures
        r is Some <==> is_hex_digit(b),
        r matches Some(v) ==> v == hex_digit_value(b),
{
    if DIGIT_ZERO <= b && b <= DIGIT_NINE {
        Some(b - DIGIT_ZERO)
    } else if LOWER_A <= b && b <= LOWER_F {
        Some(b - LOWER_A + 10)
    } else if UPPER_A <= b && b <= UPPER_F {
        Some(b - UPPER_A + 10)
    } else {
        None
    }
}

/// One of the 2^20 partitions of the hash space, named by the top 20 bits of
/// the hashes in it.
#[derive(Debug, Clone, Copy)]
pub struct PasswordHashPrefix(pub u32);

impl PasswordHashPrefix {
    /// The value of the last partition.
    pub const MAX: u32 = 0xfffff;

    /// Whether this names a partition: the value fits in 20 bits.
    pub open spec fn is_valid(&self) -> bool {
        self.0 <= 0xfffff
    }

    /// The text form: five upper-case hexadecimal digits, padded with zeros on
    /// the left. Bits above the low 20 are not written.
    pub fn to_hex_string(&self) -> (s: String)
        ensures
            s@ == prefix_hex(self.0),
    {
        let p = self.0;
        let bytes: [u8; 4] = [
            (p / 0x100_0000) as u8,
            (p / 0x1_0000 % 0x100) as u8,
            (p / 0x100 % 0x100) as u8,
            (p % 0x100) as u8,
        ];
        let full = encode_hex_upper(bytes.as_slice());
        proof {
            lemma_upper_hex_is_ascii(bytes@);
        }
        let digits = full.as_str().substring_ascii(3, 8);
        proof {
            lemma_prefix_nibbles(p);
            assert(digits@ =~= prefix_hex(p));
        }
        digits.to_owned()
    }

    /// Reads a prefix from its text form; digits of either case are taken.
    pub fn from_hex_string(s: &str) -> (r: Option<PasswordHashPrefix>)
        ensures
            match r {
                Some(prefix) => prefix_of_hex(s.spec_bytes()) == Some(prefix.0),
                None => prefix_of_hex(s.spec_bytes()) is None,
            },
    {
        let bytes = s.as_bytes();
        if bytes.len() != PREFIX_DIGITS {
            return None;
        }
        let mut value: u32 = 0;
        let mut i: usize = 0;
        while i < PREFIX_DIGITS
            invariant
                i <= PREFIX_DIGITS,
                bytes@.len() == PREFIX_DIGITS,
                bytes@ == s.spec_bytes(),
                forall|j: int| 0 <= j < i ==> is_hex_digit(#[trigger] bytes@[j]),
                value == hex_value(bytes@.subrange(0, i as int)),
                value < pow16(i as nat),
            decreases PREFIX_DIGITS - i,
        {
            let digit = match hex_digit(bytes[i]) {
                Some(d) => d,
                None => {
                    return None;
                },
            };
            proof {
                let next = bytes@.subrange(0, i + 1);
                assert(next.drop_last() =~= bytes@.subrange(0, i as int));
                assert(next.last() == bytes@[i as int]);
                reveal_with_fuel(pow16, 6);
            }
            value = value * 16 + digit as u32;
            i += 1;
        }
        proof {
            assert(bytes@.subrange(0, 5) =~= bytes@);
        }
        Some(PasswordHashPrefix(value))
    }
}

/// 16 to the power of `n`.
pub open spec fn pow16(n: nat) -> nat
    decreases n,
{
    if n == 0 {
        1
    } else {
        16 * pow16((n - 1) as nat)
    }
}

/// The five low hexadecimal digits of `p`, read off the three low bytes of
/// `p` as halves of bytes.
proof fn lemma_prefix_nibbles(p: u32)
    ensures
        (p / 0x1_0000 % 0x100) % 16 == p / 0x1_0000 % 16,
        (p / 0x100 % 0x100) / 16 == p / 0x1000 % 16,
        (p / 0x100 % 0x100) % 16 == p / 0x100 % 16,
        (p % 0x100) / 16 == p / 0x10 % 16,
        (p % 0x100) % 16 == p % 16,
{
    assert((p / 0x1_0000 % 0x100) % 16 == p / 0x1_0000 % 16) by (bit_vector);
    assert((p / 0x100 % 0x100) / 16 == p / 0x1000 % 16) by (bit_vector);
    assert((p / 0x100 % 0x100) % 16 == p / 0x100 % 16) by (bit_vector);
    assert((p % 0x100) / 16 == p / 0x10 % 16) by (bit_vector);
    assert((p % 0x100) % 16 == p % 16) by (bit_vector);
}

/// The hexadecimal text of any bytes is ASCII.
proof fn lemma_upper_hex_is_ascii(data: Seq<u8>)
    ensures
        is_ascii_chars(upper_hex(data)),
{
    assert forall|i: int| 0 <= i < upper_hex(data).len() implies '\0' <= #[trigger] upper_hex(
        data,
    )[i] <= '\u{7f}' by {
        let v: int = if i % 2 == 0 {
            (data[i / 2] / 16) as int
        } else {
            (data[i / 2] % 16) as int
        };
        assert(0 <= v < 16);
        assert(upper_hex(data)[i] == upper_hex_char(v));
    }
}

/// The value of five hexadecimal digits, digit by digit.
proof fn lemma_hex_value_of_five(s: Seq<u8>)
    requires
        s.len() == 5,
    ensures
        hex_value(s) == hex_digit_value(s[0]) as nat * 0x1_0000 + hex_digit_value(s[1]) as nat
            * 0x1000 + hex_digit_value(s[2]) as nat * 0x100 + hex_digit_value(s[3]) as nat * 0x10
            + hex_digit_value(s[4]) as nat,
{
    let s4 = s.drop_last();
    let s3 = s4.drop_last();
    let s2 = s3.drop_last();
    let s1 = s2.drop_last();
    assert(hex_value(s1.drop_last()) == 0);
    assert(hex_value(s1) == hex_digit_value(s[0]) as nat);
    assert(hex_value(s2) == hex_value(s1) * 16 + hex_digit_value(s[1]) as nat);
    assert(hex_value(s3) == hex_value(s2) * 16 + hex_digit_value(s[2]) as nat);
    assert(hex_value(s4) == hex_value(s3) * 16 + hex_digit_value(s[3]) as nat);
    assert(hex_value(s) == hex_value(s4) * 16 + hex_digit_value(s[4]) as nat);
}

/// The byte of an upper-case hexadecimal digit is a hexadecimal digit of the
/// same value.
proof fn lemma_upper_hex_char_value(v: int)
    requires
        0 <= v < 16,
    ensures
        is_upper_hex_char(upper_hex_char(v)),
        upper_hex_char(v) <= '\u{7f}',
        is_hex_digit(upper_hex_char(v) as u8),
        hex_digit_value(upper_hex_char(v) as u8) == v,
{
}

/// Formatting a prefix and reading the text back gives the prefix, and the
/// text is exactly five upper-case hexadecimal digits.
pub proof fn lemma_prefix_round_trip(p: u32)
    requires
        p <= PasswordHashPrefix::MAX,
    ensures
        prefix_hex(p).len() == PREFIX_DIGITS,
        forall|i: int| 0 <= i < PREFIX_DIGITS ==> is_upper_hex_char(#[trigger] prefix_hex(p)[i]),
        prefix_of_hex(encode_utf8(prefix_hex(p))) == Some(p),
{
    let text = prefix_hex(p);
    let bytes = encode_utf8(text);
    lemma_upper_hex_char_value((p / 0x1_0000 % 16) as int);
    lemma_upper_hex_char_value((p / 0x1000 % 16) as int);
    lemma_upper_hex_char_value((p / 0x100 % 16) as int);
    lemma_upper_hex_char_value((p / 0x10 % 16) as int);
    lemma_upper_hex_char_value((p % 16) as int);
    assert(is_ascii_chars(text));
    is_ascii_chars_encode_utf8(text);
    assert(bytes[0] == text[0] as u8);
    assert(bytes[1] == text[1] as u8);
    assert(bytes[2] == text[2] as u8);
    assert(bytes[3] == text[3] as u8);
    assert(bytes[4] == text[4] as u8);
    lemma_hex_value_of_five(bytes);
    assert(p == (p / 0x1_0000 % 16) * 0x1_0000 + (p / 0x1000 % 16) * 0x1000 + (p / 0x100 % 16)
        * 0x100 + (p / 0x10 % 16) * 0x10 + p % 16) by (bit_vector)
        requires
            p <= 0xfffff,
    ;
}

/// The bytes of a prefix's text are its five characters.
proof fn lemma_prefix_text(p: u32)
    ensures
        encode_utf8(prefix_hex(p)).len() == PREFIX_DIGITS,
        forall|i: int|
            0 <= i < PREFIX_DIGITS ==> #[trigger] encode_utf8(prefix_hex(p))[i] == prefix_hex(
                p,
            )[i] as u8,
        all_hex(encode_utf8(prefix_hex(p))),
        hex_digit_value(encode_utf8(prefix_hex(p))[0]) == p / 0x1_0000 % 16,
        hex_digit_value(encode_utf8(prefix_hex(p))[1]) == p / 0x1000 % 16,
        hex_digit_value(encode_utf8(prefix_hex(p))[2]) == p / 0x100 % 16,
        hex_digit_value(encode_utf8(prefix_hex(p))[3]) == p / 0x10 % 16,
        hex_digit_value(encode_utf8(prefix_hex(p))[4]) == p % 16,
{
    let text = prefix_hex(p);
    lemma_upper_hex_char_value((p / 0x1_0000 % 16) as int);
    lemma_upper_hex_char_value((p / 0x1000 % 16) as int);
    lemma_upper_hex_char_value((p / 0x100 % 16) as int);
    lemma_upper_hex_char_value((p / 0x10 % 16) as int);
    lemma_upper_hex_char_value((p % 16) as int);
    assert(is_ascii_chars(text));
    is_ascii_chars_encode_utf8(text);
}

/// A prefix followed by a suffix is the text of a hash exactly where the
/// suffix is 35 hexadecimal digits. The hash then lies in the partition that
/// the prefix names: the prefix fills its top 20 bits, and the digits of the
/// suffix fill the 140 bits below in their order.
pub proof fn lemma_hash_of_prefix_and_suffix(p: u32, suffix: Seq<u8>)
    requires
        p <= PasswordHashPrefix::MAX,
    ensures
        hash_of_hex(encode_utf8(prefix_hex(p)) + suffix) is Ok <==> suffix.len() == SUFFIX_DIGITS
            && all_hex(suffix),
        hash_of_hex(encode_utf8(prefix_hex(p)) + suffix) matches Ok(hash) ==> {
            &&& hash.len() == HASH_WIDTH
            &&& hash_prefix(hash) == p
            &&& hash[2] % 16 == hex_digit_value(suffix[0])
            &&& forall|i: int|
                3 <= i < HASH_WIDTH ==> #[trigger] hash[i] == hex_pair_value(
                    suffix[2 * i - 5],
                    suffix[2 * i - 4],
                )
        },
{
    let head = encode_utf8(prefix_hex(p));
    let text = head + suffix;
    lemma_prefix_text(p);
    lemma_first_non_hex(text);
    if suffix.len() == SUFFIX_DIGITS && all_hex(suffix) {
        assert forall|i: int| 0 <= i < text.len() implies is_hex_digit(#[trigger] text[i]) by {
            if i < 5 {
                assert(text[i] == head[i]);
            } else {
                assert(text[i] == suffix[i - 5]);
            }
        }
    } else if suffix.len() == SUFFIX_DIGITS {
        let k = choose|k: int| 0 <= k < suffix.len() && !is_hex_digit(#[trigger] suffix[k]);
        assert(text[k + 5] == suffix[k]);
    }
    if hash_of_hex(text) is Ok {
        let hash = hex_decoded(text);
        assert(text[0] == head[0] && text[1] == head[1] && text[2] == head[2] && text[3]
            == head[3] && text[4] == head[4]);
        assert(text[5] == suffix[0]);
        assert(is_hex_digit(text[5]));
        assert(hash[0] == hex_pair_value(text[0], text[1]));
        assert(hash[1] == hex_pair_value(text[2], text[3]));
        assert(hash[2] == hex_pair_value(text[4], text[5]));
        let d0 = p / 0x1_0000 % 16;
        let d1 = p / 0x1000 % 16;
        let d2 = p / 0x100 % 16;
        let d3 = p / 0x10 % 16;
        let d4 = p % 16;
        assert(p == d0 * 0x1_0000 + d1 * 0x1000 + d2 * 0x100 + d3 * 0x10 + d4) by (bit_vector)
            requires
                p <= 0xfffff,
                d0 == p / 0x1_0000 % 16,
                d1 == p / 0x1000 % 16,
                d2 == p / 0x100 % 16,
                d3 == p / 0x10 % 16,
                d4 == p % 16,
        ;
        assert forall|i: int| 3 <= i < HASH_WIDTH implies #[trigger] hash[i] == hex_pair_value(
            suffix[2 * i - 5],
            suffix[2 * i - 4],
        ) by {
            assert(text[2 * i] == suffix[2 * i - 5]);
            assert(text[2 * i + 1] == suffix[2 * i - 4]);
        }
    }
}

/// Whether two texts write the same hexadecimal digits, whatever the case of
/// their letters.
pub open spec fn same_hex_digits(a: Seq<u8>, b: Seq<u8>) -> bool {
    &&& a.len() == b.len()
    &&& forall|i: int|
        0 <= i < a.len() ==> is_hex_digit(#[trigger] a[i]) && is_hex_digit(b[i])
            && hex_digit_value(a[i]) == hex_digit_value(b[i])
}

/// The case of the letters in the text of a hash does not matter.
pub proof fn lemma_hash_text_ignores_case(a: Seq<u8>, b: Seq<u8>)
    requires
        same_hex_digits(a, b),
    ensures
        hash_of_hex(a) == hash_of_hex(b),
{
    lemma_first_non_hex(a);
    lemma_first_non_hex(b);
    assert forall|i: int| 0 <= i < b.len() implies is_hex_digit(#[trigger] b[i]) by {
        assert(is_hex_digit(a[i]));
    }
    assert(hex_decoded(a) =~= hex_decoded(b)) by {
        assert forall|i: int| 0 <= i < a.len() / 2 implies hex_decoded(a)[i] == hex_decoded(
            b,
        )[i] by {
            assert(is_hex_digit(a[2 * i]));
            assert(is_hex_digit(a[2 * i + 1]));
        }
    }
}

} // verus!
