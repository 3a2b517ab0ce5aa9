use lila_pwned::bulk::{load, parse_source_line, SourceLineError};
use lila_pwned::count::{decode_count, encode_count, CountError};
use lila_pwned::hash::{InvalidPasswordHash, PasswordHash};
use std::collections::HashMap;

const PASSWORD: &str = "5BAA61E4C9B93F3F0682250B6CF8331B7EE68FD8";
const SECRET: &str = "E5E9FA1BA31ECD1AE84F75CAAA474F3A663F05F4";

fn hash(text: &str) -> PasswordHash {
    PasswordHash::from_str(text).expect("a hash")
}

#[test]
fn source_line_is_a_hash_and_a_count() {
    assert_eq!(
        parse_source_line("5BAA61E4C9B93F3F0682250B6CF8331B7EE68FD8:10434004"),
        Ok((hash(PASSWORD), 10_434_004))
    );
    assert_eq!(
        parse_source_line("e5e9fa1ba31ecd1ae84f75caaa474f3a663f05f4:0"),
        Ok((hash(SECRET), 0))
    );
}

#[test]
fn source_line_without_a_colon() {
    assert_eq!(
        parse_source_line("5BAA61E4C9B93F3F0682250B6CF8331B7EE68FD8 3"),
        Err(SourceLineError::MissingSeparator)
    );
    assert_eq!(parse_source_line(""), Err(SourceLineError::MissingSeparator));
}

#[test]
fn source_line_with_a_bad_hash() {
    assert_eq!(
        parse_source_line("5BAA61E4C9B93F3F0682250B6CF8331B7EE68FD:3"),
        Err(SourceLineError::InvalidHash(InvalidPasswordHash::OddLength))
    );
    assert_eq!(
        parse_source_line("5BAA:3"),
        Err(SourceLineError::InvalidHash(
            InvalidPasswordHash::InvalidStringLength
        ))
    );
    assert_eq!(
        parse_source_line("5BAA61E4C9B93F3F0682250B6CF8331B7EE68FDZ:3"),
        Err(SourceLineError::InvalidHash(
            InvalidPasswordHash::InvalidHexCharacter { c: 'Z', index: 39 }
        ))
    );
    // the hash is judged before the count
    assert_eq!(
        parse_source_line("5BAA:x"),
        Err(SourceLineError::InvalidHash(
            InvalidPasswordHash::InvalidStringLength
        ))
    );
}

#[test]
fn source_line_with_a_bad_count() {
    for (count, kind) in [
        ("", CountError::Empty),
        ("three", CountError::InvalidDigit),
        ("-3", CountError::InvalidDigit),
        ("3:4", CountError::InvalidDigit),
        ("+", CountError::InvalidDigit),
        ("18446744073709551616", CountError::Overflow),
    ] {
        let line = format!("{}:{}", PASSWORD, count);
        assert_eq!(
            parse_source_line(&line),
            Err(SourceLineError::InvalidCount(kind)),
            "{:?}",
            line
        );
    }
}

#[test]
fn malformed_line_between_two_records_is_passed_over() {
    let text = format!("{}:3\nthis line has no separator\n{}:5\n", PASSWORD, SECRET);
    let loaded = load(&text);
    assert_eq!(loaded.records, vec![(hash(PASSWORD), 3), (hash(SECRET), 5)]);
    assert_eq!(loaded.skipped, 1);

    let mut store: HashMap<[u8; 20], Vec<u8>> = HashMap::new();
    for (hash, n) in loaded.records {
        store.insert(hash.bytes, encode_count(n).to_vec());
    }
    assert_eq!(
        decode_count(store.get(&hash(PASSWORD).bytes).map(|v| &v[..])),
        3
    );
    assert_eq!(
        decode_count(store.get(&hash(SECRET).bytes).map(|v| &v[..])),
        5
    );
}

#[test]
fn load_takes_records_with_a_count_of_zero() {
    let text = format!("{}:0\n{}:5", PASSWORD, SECRET);
    let loaded = load(&text);
    assert_eq!(loaded.records, vec![(hash(PASSWORD), 0), (hash(SECRET), 5)]);
    assert_eq!(loaded.skipped, 0);
}

#[test]
fn load_keeps_the_order_and_every_repeat() {
    let text = format!("{}:1\n{}:2\n{}:3\n", PASSWORD, SECRET, PASSWORD);
    let loaded = load(&text);
    assert_eq!(
        loaded.records,
        vec![(hash(PASSWORD), 1), (hash(SECRET), 2), (hash(PASSWORD), 3)]
    );
}

#[test]
fn load_of_an_empty_source() {
    let loaded = load("");
    assert!(loaded.records.is_empty());
    assert_eq!(loaded.skipped, 0);
}

#[test]
fn load_counts_every_line_that_is_no_record() {
    let text = format!("\n\n{}:1\r\nbad\r\n{}:x\n\u{e9}\u{e9}:1\n", PASSWORD, SECRET);
    let loaded = load(&text);
    assert_eq!(loaded.records, vec![(hash(PASSWORD), 1)]);
    assert_eq!(loaded.skipped, 5);
}

#[test]
fn load_reads_lines_as_the_standard_library_does() {
    let text = format!("{}:1\r\n\r\n{}:2\rx\n{}:3\r", PASSWORD, SECRET, SECRET);
    let by_lines: Vec<(PasswordHash, u64)> = text
        .lines()
        .filter_map(|line| parse_source_line(line).ok())
        .collect();
    assert_eq!(load(&text).records, by_lines);
    assert_eq!(by_lines, vec![(hash(PASSWORD), 1)]);
}
