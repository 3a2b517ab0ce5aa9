use lila_pwned::text::{find_byte, split_record, take_line};

fn all_lines(text: &str) -> Vec<&str> {
    let mut out = Vec::new();
    let mut rest = text;
    while let Some((line, tail)) = take_line(rest) {
        out.push(line);
        rest = tail;
    }
    out
}

#[test]
fn first_byte_is_found() {
    assert_eq!(find_byte(b"a:b:c", b':'), 1);
    assert_eq!(find_byte(b":", b':'), 0);
    assert_eq!(find_byte(b"abc", b':'), 3);
    assert_eq!(find_byte(b"", b':'), 0);
}

#[test]
fn record_is_cut_at_its_first_colon() {
    assert_eq!(split_record("a:b"), Some(("a", "b")));
    assert_eq!(split_record("a:b:c"), Some(("a", "b:c")));
    assert_eq!(split_record(":"), Some(("", "")));
    assert_eq!(split_record("a:"), Some(("a", "")));
    assert_eq!(split_record(":b"), Some(("", "b")));
    assert_eq!(split_record("ab"), None);
    assert_eq!(split_record(""), None);
    assert_eq!(split_record("h\u{e9}:\u{4e16}\u{754c}"), Some(("h\u{e9}", "\u{4e16}\u{754c}")));
}

#[test]
fn empty_text_has_no_line() {
    assert_eq!(take_line(""), None);
}

#[test]
fn line_ends_at_a_line_feed_or_at_the_end() {
    assert_eq!(take_line("a\nb"), Some(("a", "b")));
    assert_eq!(take_line("a"), Some(("a", "")));
    assert_eq!(take_line("a\n"), Some(("a", "")));
    assert_eq!(take_line("\n"), Some(("", "")));
    assert_eq!(take_line("\n\n"), Some(("", "\n")));
    assert_eq!(take_line("a\r\nb"), Some(("a", "b")));
    assert_eq!(take_line("a\r\r\nb"), Some(("a\r", "b")));
    assert_eq!(take_line("a\rb\nc"), Some(("a\rb", "c")));
    assert_eq!(take_line("a\r"), Some(("a\r", "")));
}

#[test]
fn lines_are_those_of_the_standard_library() {
    for text in [
        "",
        "\n",
        "\r\n",
        "a",
        "a\n",
        "a\nb",
        "a\n\nb\n",
        "a\r\nb\r\n",
        "a\rb\r\n\r",
        "\r",
        "\n\r",
        "h\u{e9}llo\nw\u{f6}rld\r\n\u{4e16}\u{754c}",
        "\u{1f512}\n\u{1f512}",
    ] {
        let expected: Vec<&str> = text.lines().collect();
        assert_eq!(all_lines(text), expected, "{:?}", text);
    }
}
