use lila_pwned::count::parse_count;
use lila_pwned::lookup::status_line;

#[test]
fn status_line_holds_the_count_in_decimal() {
    assert_eq!(status_line(0), "pwned count=0u");
    assert_eq!(status_line(7), "pwned count=7u");
    assert_eq!(status_line(10), "pwned count=10u");
    assert_eq!(status_line(847_223_402), "pwned count=847223402u");
    assert_eq!(status_line(u64::MAX), "pwned count=18446744073709551615u");
}

#[test]
fn count_in_the_status_line_reads_back() {
    for n in [0u64, 9, 10, 99, 100, 1_000_000, u64::MAX] {
        let line = status_line(n);
        let digits = &line["pwned count=".len()..line.len() - 1];
        assert_eq!(parse_count(digits), Ok(n));
    }
}
