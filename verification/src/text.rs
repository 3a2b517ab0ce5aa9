//! Cutting text into lines and records.
//!
//! The model of a text is the sequence of its UTF-8 bytes. Every byte that the
//! formats of this crate give a meaning to is ASCII, and an ASCII byte never
//! occurs inside the encoding of another character, so cutting at such bytes
//! cuts between characters.

use crate::ascii::{CARRIAGE_RETURN, COLON, LINE_FEED};
use vstd::prelude::*;
use vstd::string::*;
use vstd::utf8::*;

verus! {

/// Position of the first `b` in `s`, or `s.len()` where `s` holds none.
pub open spec fn first_index_of(s: Seq<u8>, b: u8) -> int
    decreases s.len(),
{
    if s.len() == 0 || s[0] == b {
        0
    } else {
        1 + first_index_of(s.drop_first(), b)
    }
}

/// `first_index_of` is in range, nothing before it is `b`, and what stands
/// at it is `b`.
pub proof fn lemma_first_index_of(s: Seq<u8>, b: u8)
    ensures
        0 <= first_index_of(s, b) <= s.len(),
        forall|j: int| 0 <= j < first_index_of(s, b) ==> s[j] != b,
        first_index_of(s, b) < s.len() ==> s[first_index_of(s, b)] == b,
    decreases s.len(),
{
    if s.len() == 0 || s[0] == b {
    } else {
        let t = s.drop_first();
        lemma_first_index_of(t, b);
        assert forall|j: int| 0 <= j < first_index_of(s, b) implies s[j] != b by {
            if j > 0 {
                assert(s[j] == t[j - 1]);
            }
        }
        assert(s[first_index_of(s, b)] == t[first_index_of(t, b)] || first_index_of(s, b)
            == s.len());
    }
}

/// The position that `lemma_first_index_of` describes is the only one.
pub proof fn lemma_first_index_of_is(s: Seq<u8>, b: u8, k: int)
    requires
        0 <= k <= s.len(),
        forall|j: int| 0 <= j < k ==> s[j] != b,
        k < s.len() ==> s[k] == b,
    ensures
        first_index_of(s, b) == k,
{
    lemma_first_index_of(s, b);
    let f = first_index_of(s, b);
    if f < k {
        assert(s[f] != b);
    } else if k < f {
        assert(s[k] != b);
    }
}

/// The two sides of the first `sep` in `s`; `None` where `s` holds no `sep`.
pub open spec fn split_once(s: Seq<u8>, sep: u8) -> Option<(Seq<u8>, Seq<u8>)> {
    let k = first_index_of(s, sep);
    if k < s.len() {
        Some((s.subrange(0, k), s.subrange(k + 1, s.len() as int)))
    } else {
        None
    }
}

/// `line` without one carriage return at its end.
pub open spec fn strip_carriage_return(line: Seq<u8>) -> Seq<u8> {
    if line.len() > 0 && line.last() == CARRIAGE_RETURN {
        line.drop_last()
    } else {
        line
    }
}

/// The first line of a text that is not empty: what stands before the first
/// line feed, less a carriage return before that line feed; the whole text
/// where it holds no line feed.
pub open spec fn first_line(text: Seq<u8>) -> Seq<u8> {
    let k = first_index_of(text, LINE_FEED);
    if k < text.len() {
        strip_carriage_return(text.subrange(0, k))
    } else {
        text
    }
}

/// What follows the first line and its line feed.
pub open spec fn after_first_line(text: Seq<u8>) -> Seq<u8> {
    let k = first_index_of(text, LINE_FEED);
    if k < text.len() {
        text.subrange(k + 1, text.len() as int)
    } else {
        Seq::empty()
    }
}

/// The lines of a text. A line ends at a line feed or at the end of the text;
/// a line feed at the very end opens no further line, so the empty text has
/// no lines.
pub open spec fn lines(text: Seq<u8>) -> Seq<Seq<u8>>
    decreases text.len(),
    via lines_decreases
{
    if text.len() == 0 {
        Seq::empty()
    } else {
        seq![first_line(text)] + lines(after_first_line(text))
    }
}

#[via_fn]
proof fn lines_decreases(text: Seq<u8>) {
    lemma_first_index_of(text, LINE_FEED);
}

/// In valid UTF-8 an ASCII byte is a character of its own: a character starts
/// at it and the next one right after it.
pub proof fn lemma_ascii_is_boundary(bytes: Seq<u8>, k: int)
    requires
        valid_utf8(bytes),
        0 <= k < bytes.len(),
        bytes[k] < 0x80,
    ensures
        is_char_boundary(bytes, k),
        is_char_boundary(bytes, k + 1),
{
    is_char_boundary_iff_not_is_continuation_byte(bytes, k);
    if k + 1 == bytes.len() {
        is_char_boundary_start_end_of_seq(bytes);
    } else {
        let tail = bytes.subrange(k, bytes.len() as int);
        valid_utf8_split(bytes, k);
        assert(tail[0] == bytes[k]);
        assert(tail[1] == bytes[k + 1]);
        assert(length_of_first_scalar(tail) == 1);
        assert(is_char_boundary(tail, 1)) by {
            reveal_with_fuel(is_char_boundary, 2);
            reveal_with_fuel(valid_utf8, 2);
        }
        is_char_boundary_iff_not_is_continuation_byte(tail, 1);
        is_char_boundary_iff_not_is_continuation_byte(bytes, k + 1);
    }
}

/// Position of the first `b` in `bytes`, or their length where there is none.
pub fn find_byte(bytes: &[u8], b: u8) -> (k: usize)
    ensures
        k == first_index_of(bytes@, b),
{
    let mut i: usize = 0;
    while i < bytes.len() && bytes[i] != b
        invariant
            i <= bytes.len(),
            forall|j: int| 0 <= j < i ==> bytes@[j] != b,
        decreases bytes.len() - i,
    {
        i += 1;
    }
    proof {
        lemma_first_index_of_is(bytes@, b, i as int);
    }
    i
}

/// Cuts `s` in two at its first ASCII byte `sep` and drops that byte.
fn cut_at<'a>(s: &'a str, sep: u8) -> (r: Option<(&'a str, &'a str)>)
    requires
        sep < 0x80,
    ensures
        match r {
            Some((a, b)) => split_once(s.spec_bytes(), sep) == Some(
                (a.spec_bytes(), b.spec_bytes()),
            ),
            None => split_once(s.spec_bytes(), sep) is None,
        },
{
    let bytes = s.as_bytes();
    let k = find_byte(bytes, sep);
    if k < bytes.len() {
        proof {
            encode_utf8_valid_utf8(s@);
            lemma_first_index_of(bytes@, sep);
            lemma_ascii_is_boundary(bytes@, k as int);
        }
        let (head, _) = s.split_at(k);
        let (_, tail) = s.split_at(k + 1);
        Some((head, tail))
    } else {
        None
    }
}

/// The hash (or suffix) and the count of a record line: the two sides of its
/// first colon.
pub fn split_record<'a>(line: &'a str) -> (r: Option<(&'a str, &'a str)>)
    ensures
        match r {
            Some((a, b)) => split_once(line.spec_bytes(), COLON) == Some(
                (a.spec_bytes(), b.spec_bytes()),
            ),
            None => split_once(line.spec_bytes(), COLON) is None,
        },
{
    cut_at(line, COLON)
}

/// `line` without one carriage return at its end.
fn trim_carriage_return<'a>(line: &'a str) -> (r: &'a str)
    ensures
        r.spec_bytes() == strip_carriage_return(line.spec_bytes()),
{
    let bytes = line.as_bytes();
    let n = bytes.len();
    if n > 0 && bytes[n - 1] == CARRIAGE_RETURN {
        proof {
            encode_utf8_valid_utf8(line@);
            lemma_ascii_is_boundary(bytes@, n - 1);
        }
        let (head, _) = line.split_at(n - 1);
        head
    } else {
        line
    }
}

/// The first line of `text` and what follows it; `None` for the empty text.
pub fn take_line<'a>(text: &'a str) -> (r: Option<(&'a str, &'a str)>)
    ensures
        r is None <==> text.spec_bytes().len() == 0,
        r matches Some((line, rest)) ==> {
            &&& line.spec_bytes() == first_line(text.spec_bytes())
            &&& rest.spec_bytes() == after_first_line(text.spec_bytes())
            &&& rest.spec_bytes().len() < text.spec_bytes().len()
        },
{
    let n = text.as_bytes().len();
    if n == 0 {
        return None;
    }
    proof {
        encode_utf8_valid_utf8(text@);
        lemma_first_index_of(text.spec_bytes(), LINE_FEED);
        is_char_boundary_start_end_of_seq(text.spec_bytes());
    }
    match cut_at(text, LINE_FEED) {
        Some((head, rest)) => Some((trim_carriage_return(head), rest)),
        None => {
            let (line, rest) = text.split_at(n);
            Some((line, rest))
        },
    }
}

/// The bytes of two texts joined are the bytes of the first, then those of
/// the second.
pub proof fn lemma_encode_utf8_concat(a: Seq<char>, b: Seq<char>)
    ensures
        encode_utf8(a + b) == encode_utf8(a) + encode_utf8(b),
    decreases a.len(),
{
    if a.len() == 0 {
        assert(a + b =~= b);
        assert(encode_utf8(a) + encode_utf8(b) =~= encode_utf8(b));
    } else {
        lemma_encode_utf8_concat(a.drop_first(), b);
        assert((a + b).drop_first() =~= a.drop_first() + b);
        assert(encode_utf8(a + b) =~= encode_utf8(a) + encode_utf8(b));
    }
}

} // verus!
