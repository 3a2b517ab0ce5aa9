use lila_pwned::count::{decode_count, encode_count, parse_count, CountError, COUNT_WIDTH};
use std::num::IntErrorKind;
use lila_pwned::hash::PasswordHash;
use std::collections::HashMap;

#[test]
fn count_is_read_from_decimal_digits() {
    assert_eq!(parse_count("0"), Ok(0));
    assert_eq!(parse_count("1"), Ok(1));
    assert_eq!(parse_count("42"), Ok(42));
    assert_eq!(parse_count("007"), Ok(7));
    assert_eq!(parse_count("10434004"), Ok(10_434_004));
    assert_eq!(parse_count("4294967296"), Ok(4_294_967_296));
}

#[test]
fn count_may_carry_a_plus_sign() {
    assert_eq!(parse_count("+5"), Ok(5));
    assert_eq!(parse_count("+0"), Ok(0));
    assert_eq!(parse_count("+"), Err(CountError::InvalidDigit));
    assert_eq!(parse_count("++5"), Err(CountError::InvalidDigit));
    assert_eq!(parse_count("5+"), Err(CountError::InvalidDigit));
}

#[test]
fn count_up_to_the_largest() {
    assert_eq!(parse_count("18446744073709551615"), Ok(u64::MAX));
    assert_eq!(parse_count("018446744073709551615"), Ok(u64::MAX));
    assert_eq!(
        parse_count("18446744073709551616"),
        Err(CountError::Overflow)
    );
    assert_eq!(
        parse_count("18446744073709551620"),
        Err(CountError::Overflow)
    );
    assert_eq!(
        parse_count("99999999999999999999"),
        Err(CountError::Overflow)
    );
    assert_eq!(
        parse_count("100000000000000000000000"),
        Err(CountError::Overflow)
    );
}

#[test]
fn empty_count_text() {
    assert_eq!(parse_count(""), Err(CountError::Empty));
}

#[test]
fn count_text_with_a_byte_that_is_no_digit() {
    assert_eq!(parse_count("-1"), Err(CountError::InvalidDigit));
    assert_eq!(parse_count("-"), Err(CountError::InvalidDigit));
    assert_eq!(parse_count(" 1"), Err(CountError::InvalidDigit));
    assert_eq!(parse_count("1 "), Err(CountError::InvalidDigit));
    assert_eq!(parse_count("1a"), Err(CountError::InvalidDigit));
    assert_eq!(parse_count("0x10"), Err(CountError::InvalidDigit));
    assert_eq!(parse_count("1.0"), Err(CountError::InvalidDigit));
    assert_eq!(parse_count("1\r"), Err(CountError::InvalidDigit));
    assert_eq!(parse_count("\u{663}"), Err(CountError::InvalidDigit));
}

#[test]
fn whichever_comes_first_from_the_left_is_reported() {
    // the number no longer fits before the letter is reached
    assert_eq!(
        parse_count("99999999999999999999x"),
        Err(CountError::Overflow)
    );
    // the letter is reached while the number still fits
    assert_eq!(
        parse_count("1844674407370955161x"),
        Err(CountError::InvalidDigit)
    );
    assert_eq!(
        parse_count("x99999999999999999999"),
        Err(CountError::InvalidDigit)
    );
    // the letter stands where the next digit would no longer fit
    assert_eq!(
        parse_count("18446744073709551615x"),
        Err(CountError::InvalidDigit)
    );
}

#[test]
fn count_agrees_with_the_standard_parser() {
    for text in [
        "0",
        "1",
        "+1",
        "-0",
        "-",
        "",
        "+",
        "12345",
        "000",
        "1_000",
        "18446744073709551615",
        "18446744073709551616",
        "+18446744073709551615",
        "00000000000000000000000000000000000001",
        "99999999999999999999x",
        "1844674407370955161x",
        "18446744073709551615x",
        "184467440737095516150",
        "9x",
        " 9",
    ] {
        let expected = match text.parse::<u64>() {
            Ok(n) => Ok(n),
            Err(e) => match e.kind() {
                IntErrorKind::Empty => Err(CountError::Empty),
                IntErrorKind::InvalidDigit => Err(CountError::InvalidDigit),
                IntErrorKind::PosOverflow => Err(CountError::Overflow),
                other => panic!("{:?} for {:?}", other, text),
            },
        };
        assert_eq!(parse_count(text), expected, "{:?}", text);
    }
}

#[test]
fn stored_count_is_eight_bytes_most_significant_first() {
    assert_eq!(COUNT_WIDTH, 8);
    assert_eq!(encode_count(0), [0, 0, 0, 0, 0, 0, 0, 0]);
    assert_eq!(encode_count(1), [0, 0, 0, 0, 0, 0, 0, 1]);
    assert_eq!(encode_count(0x0102_0304_0506_0708), [1, 2, 3, 4, 5, 6, 7, 8]);
    assert_eq!(encode_count(u64::MAX), [0xff; 8]);
    assert_eq!(encode_count(256), 256u64.to_be_bytes());
}

#[test]
fn stored_counts_order_as_the_counts() {
    let counts = [0u64, 1, 255, 256, 65_535, 65_536, 1 << 40, u64::MAX - 1, u64::MAX];
    for pair in counts.windows(2) {
        assert!(encode_count(pair[0]) < encode_count(pair[1]));
    }
}

#[test]
fn stored_count_is_read_back() {
    for n in [0u64, 1, 2, 255, 256, 0xdead_beef, 1 << 63, u64::MAX] {
        let stored = encode_count(n);
        assert_eq!(decode_count(Some(&stored[..])), n);
    }
    assert_eq!(decode_count(Some(&[0, 0, 0, 0, 0, 0, 1, 2][..])), 258);
}

#[test]
fn value_of_another_width_counts_zero() {
    assert_eq!(decode_count(Some(&[][..])), 0);
    assert_eq!(decode_count(Some(&[7][..])), 0);
    assert_eq!(decode_count(Some(&[0, 0, 0, 7][..])), 0);
    assert_eq!(decode_count(Some(&[0, 0, 0, 0, 0, 0, 7][..])), 0);
    assert_eq!(decode_count(Some(&[0, 0, 0, 0, 0, 0, 0, 0, 7][..])), 0);
}

#[test]
fn absent_value_counts_zero() {
    assert_eq!(decode_count(None), 0);
}

fn set(store: &mut HashMap<[u8; 20], Vec<u8>>, hash: PasswordHash, n: u64) {
    store.insert(hash.bytes, encode_count(n).to_vec());
}

fn get(store: &HashMap<[u8; 20], Vec<u8>>, hash: PasswordHash) -> u64 {
    decode_count(store.get(&hash.bytes).map(|v| &v[..]))
}

#[test]
fn lookup_reports_what_was_written() {
    let mut store = HashMap::new();
    let h = PasswordHash::from_str("5BAA61E4C9B93F3F0682250B6CF8331B7EE68FD8").expect("a hash");
    set(&mut store, h, 10_434_004);
    assert_eq!(get(&store, h), 10_434_004);
    set(&mut store, h, 3);
    assert_eq!(get(&store, h), 3);
}

#[test]
fn lookup_of_a_hash_never_written_reports_zero() {
    let mut store = HashMap::new();
    let h = PasswordHash::from_str("5BAA61E4C9B93F3F0682250B6CF8331B7EE68FD8").expect("a hash");
    let other = PasswordHash { bytes: [9; 20] };
    assert_eq!(get(&store, h), 0);
    set(&mut store, h, 5);
    assert_eq!(get(&store, other), 0);
}

#[test]
fn writing_zero_looks_like_absence() {
    let mut store = HashMap::new();
    let h = PasswordHash { bytes: [1; 20] };
    let other = PasswordHash { bytes: [2; 20] };
    set(&mut store, other, 8);
    assert_eq!(get(&store, h), 0);
    set(&mut store, h, 0);
    assert_eq!(get(&store, h), 0);
    assert_eq!(get(&store, other), 8);
}
