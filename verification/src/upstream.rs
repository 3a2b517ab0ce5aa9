//! Synchronising with the upstream range service.
//!
//! The service is asked for one partition of the hash space at a time. Its
//! answer lists, one to a line, the hashes of that partition without their
//! prefix, each followed by a colon and its count. This module rebuilds the
//! full hashes, decides what is written to the store, and steps through the
//! partitions in an endless sweep.

use crate::ascii::COLON;
use crate::count::{count_value, parse_count};
use crate::hash::{
    all_hex, hash_of_hex, hash_prefix, lemma_hash_of_prefix_and_suffix, prefix_hex, records_view,
    PasswordHash, PasswordHashPrefix, HASH_WIDTH, SUFFIX_DIGITS,
};
use crate::text::{lemma_encode_utf8_concat, lines, split_once, split_record, take_line};
use vstd::prelude::*;
use vstd::string::*;
use vstd::utf8::*;

verus! {

/// The record that one line of the answer for partition `prefix` writes: the
/// hash whose text is the prefix followed by what stands before the first
/// colon, and the count that stands after it. `None` where the line has no
/// colon, the hash text is no hash or the count text is no count.
pub open spec fn upstream_record(prefix: u32, line: Seq<u8>) -> Option<(Seq<u8>, u64)> {
    match split_once(line, COLON) {
        Some((suffix, count)) => match (
            hash_of_hex(encode_utf8(prefix_hex(prefix)) + suffix),
            count_value(count),
        ) {
            (Ok(hash), Some(n)) => Some((hash, n)),
            _ => None,
        },
        None => None,
    }
}

/// Reads one line of the answer for partition `prefix`.
pub fn parse_upstream_line(prefix: PasswordHashPrefix, line: &str) -> (r: Option<
    (PasswordHash, u64),
>)
    ensures
        match r {
            Some((hash, n)) => upstream_record(prefix.0, line.spec_bytes()) == Some((hash@, n)),
            None => upstream_record(prefix.0, line.spec_bytes()) is None,
        },
{
    let (suffix, count) = match split_record(line) {
        Some(parts) => parts,
        None => {
            return None;
        },
    };
    let mut hex_hash = prefix.to_hex_string();
    hex_hash.append(suffix);
    proof {
        lemma_encode_utf8_concat(prefix_hex(prefix.0), suffix@);
    }
    let hash = match PasswordHash::from_str(hex_hash.as_str()) {
        Ok(hash) => hash,
        Err(_) => {
            return None;
        },
    };
    match parse_count(count) {
        Ok(n) => Some((hash, n)),
        Err(_) => None,
    }
}

/// A line of an answer that is no record.
#[derive(Debug, PartialEq, Eq)]
pub enum UpstreamError {
    /// The answer holds this line, which is no record.
    UnexpectedLine(String),
}

/// The bytes of the line that an error reports.
pub open spec fn error_line(error: Option<UpstreamError>) -> Option<Seq<u8>> {
    match error {
        Some(UpstreamError::UnexpectedLine(line)) => Some(encode_utf8(line@)),
        None => None,
    }
}

/// The records of an answer for partition `prefix`: those of its lines that
/// are records, in the order of the lines, counts of zero included. A line
/// that is no record gives none and takes no other line with it.
pub open spec fn range_records(prefix: u32, lines: Seq<Seq<u8>>) -> Seq<(Seq<u8>, u64)>
    decreases lines.len(),
{
    if lines.len() == 0 {
        Seq::empty()
    } else {
        let rest = range_records(prefix, lines.drop_first());
        match upstream_record(prefix, lines[0]) {
            Some(record) => seq![record] + rest,
            None => rest,
        }
    }
}

/// The first of the lines that is no record.
pub open spec fn first_unexpected(prefix: u32, lines: Seq<Seq<u8>>) -> Option<Seq<u8>>
    decreases lines.len(),
{
    if lines.len() == 0 {
        None
    } else if upstream_record(prefix, lines[0]) is None {
        Some(lines[0])
    } else {
        first_unexpected(prefix, lines.drop_first())
    }
}

/// Of `records`, those with a count above zero, in their order.
pub open spec fn above_zero(records: Seq<(Seq<u8>, u64)>) -> Seq<(Seq<u8>, u64)>
    decreases records.len(),
{
    if records.len() == 0 {
        Seq::empty()
    } else if records.last().1 > 0 {
        above_zero(records.drop_last()).push(records.last())
    } else {
        above_zero(records.drop_last())
    }
}

/// The records that an answer for partition `prefix` has the store take:
/// those with a count above zero.
pub open spec fn range_writes(prefix: u32, lines: Seq<Seq<u8>>) -> Seq<(Seq<u8>, u64)> {
    above_zero(range_records(prefix, lines))
}

/// Goes through the lines of `body`: the records, and the first line that is
/// none.
fn read_range(prefix: PasswordHashPrefix, body: &str) -> (r: (
    Vec<(PasswordHash, u64)>,
    Option<UpstreamError>,
))
    ensures
        records_view(r.0@) == range_records(prefix.0, lines(body.spec_bytes())),
        error_line(r.1) == first_unexpected(prefix.0, lines(body.spec_bytes())),
{
    let mut out: Vec<(PasswordHash, u64)> = Vec::with_capacity(body.len() / SUFFIX_DIGITS);
    let mut error: Option<UpstreamError> = None;
    let mut rest: &str = body;
    assert(records_view(out@) =~= Seq::<(Seq<u8>, u64)>::empty());
    assert(records_view(out@) + range_records(prefix.0, lines(body.spec_bytes()))
        =~= range_records(prefix.0, lines(body.spec_bytes())));
    loop
        invariant
            range_records(prefix.0, lines(body.spec_bytes())) == records_view(out@)
                + range_records(prefix.0, lines(rest.spec_bytes())),
            first_unexpected(prefix.0, lines(body.spec_bytes())) == if error is Some {
                error_line(error)
            } else {
                first_unexpected(prefix.0, lines(rest.spec_bytes()))
            },
        decreases rest.spec_bytes().len(),
    {
        let ghost before = records_view(out@);
        let ghost all = lines(rest.spec_bytes());
        match take_line(rest) {
            None => {
                assert(before + Seq::<(Seq<u8>, u64)>::empty() =~= before);
                return (out, error);
            },
            Some((line, tail)) => {
                assert(all.drop_first() =~= lines(tail.spec_bytes()));
                assert(all[0] == line.spec_bytes());
                let ghost more = range_records(prefix.0, lines(tail.spec_bytes()));
                match parse_upstream_line(prefix, line) {
                    Some(record) => {
                        out.push(record);
                        proof {
                            let one = seq![(record.0@, record.1)];
                            assert(records_view(out@) =~= before + one);
                            assert(before + (one + more) =~= (before + one) + more);
                        }
                    },
                    None => {
                        if error.is_none() {
                            error = Some(UpstreamError::UnexpectedLine(line.to_owned()));
                        }
                    },
                }
                rest = tail;
            },
        }
    }
}

/// Reads the answer for partition `prefix`: the record of every line that is
/// one, in the order of the lines. A line that is no record is passed over,
/// and the lines after it are still read, so this never fails;
/// `upstream_update_range` tells which line it was.
pub fn parse_upstream_range(prefix: PasswordHashPrefix, body: &str) -> (r: Result<
    Vec<(PasswordHash, u64)>,
    UpstreamError,
>)
    ensures
        r is Ok,
        r matches Ok(out) ==> records_view(out@) == range_records(
            prefix.0,
            lines(body.spec_bytes()),
        ),
{
    let (records, _) = read_range(prefix, body);
    Ok(records)
}

/// What one answer of the upstream service changes.
#[derive(Debug, PartialEq, Eq)]
pub struct RangeUpdate {
    /// The records to write to the store, in this order.
    pub writes: Vec<(PasswordHash, u64)>,
    /// The number of records in the answer, those with a count of zero
    /// included.
    pub received: usize,
    /// The first line that is no record, where there is one.
    pub error: Option<UpstreamError>,
}

/// Decides what the answer `body` for partition `prefix` changes in the
/// store. Every line that is a record with a count above zero is written; a
/// record with a count of zero is not, since an absent hash already counts
/// zero. A line that is no record is reported, the first of them in `error`,
/// and the lines after it are still applied.
pub fn upstream_update_range(prefix: PasswordHashPrefix, body: &str) -> (r: RangeUpdate)
    ensures
        records_view(r.writes@) == range_writes(prefix.0, lines(body.spec_bytes())),
        r.received == range_records(prefix.0, lines(body.spec_bytes())).len(),
        error_line(r.error) == first_unexpected(prefix.0, lines(body.spec_bytes())),
{
    let (records, error) = read_range(prefix, body);
    let received = records.len();
    let ghost all = records_view(records@);
    let mut writes: Vec<(PasswordHash, u64)> = Vec::new();
    let mut i: usize = 0;
    assert(records_view(writes@) =~= above_zero(all.subrange(0, 0)));
    while i < records.len()
        invariant
            i <= records.len(),
            all == records_view(records@),
            records_view(writes@) == above_zero(all.subrange(0, i as int)),
        decreases records.len() - i,
    {
        let record = records[i];
        let ghost before = records_view(writes@);
        proof {
            let next = all.subrange(0, i + 1);
            assert(next.drop_last() =~= all.subrange(0, i as int));
            assert(next.last() == (record.0@, record.1));
        }
        if record.1 > 0 {
            writes.push(record);
            assert(records_view(writes@) =~= before.push((record.0@, record.1)));
        }
        i += 1;
    }
    assert(all.subrange(0, records.len() as int) =~= all);
    RangeUpdate { writes, received, error }
}

/// The records of two runs of lines, one after the other, are the records of
/// the first run followed by those of the second: no line bears on another.
pub proof fn lemma_range_records_concat(prefix: u32, a: Seq<Seq<u8>>, b: Seq<Seq<u8>>)
    ensures
        range_records(prefix, a + b) == range_records(prefix, a) + range_records(prefix, b),
    decreases a.len(),
{
    if a.len() == 0 {
        assert(a + b =~= b);
        assert(range_records(prefix, a) + range_records(prefix, b) =~= range_records(prefix, b));
    } else {
        lemma_range_records_concat(prefix, a.drop_first(), b);
        assert((a + b).drop_first() =~= a.drop_first() + b);
        assert((a + b)[0] == a[0]);
        assert(range_records(prefix, a + b) =~= range_records(prefix, a) + range_records(
            prefix,
            b,
        ));
    }
}

/// The records above zero of two runs of records are those of the first run
/// followed by those of the second.
pub proof fn lemma_above_zero_concat(a: Seq<(Seq<u8>, u64)>, b: Seq<(Seq<u8>, u64)>)
    ensures
        above_zero(a + b) == above_zero(a) + above_zero(b),
    decreases b.len(),
{
    if b.len() == 0 {
        assert(a + b =~= a);
        assert(above_zero(a) + above_zero(b) =~= above_zero(a));
    } else {
        lemma_above_zero_concat(a, b.drop_last());
        assert((a + b).drop_last() =~= a + b.drop_last());
        assert((a + b).last() == b.last());
        assert(above_zero(a + b) =~= above_zero(a) + above_zero(b));
    }
}

/// A line that is no record does not keep the lines around it from being
/// read and applied: the records, and the writes, are those of the lines
/// before it followed by those of the lines after it.
pub proof fn lemma_unexpected_line_is_passed_over(
    prefix: u32,
    before: Seq<Seq<u8>>,
    line: Seq<u8>,
    after: Seq<Seq<u8>>,
)
    requires
        upstream_record(prefix, line) is None,
    ensures
        range_records(prefix, before + seq![line] + after) == range_records(prefix, before)
            + range_records(prefix, after),
        range_writes(prefix, before + seq![line] + after) == range_writes(prefix, before)
            + range_writes(prefix, after),
{
    lemma_range_records_concat(prefix, before + seq![line], after);
    lemma_range_records_concat(prefix, before, seq![line]);
    let one = seq![line];
    assert(one[0] == line);
    assert(range_records(prefix, one.drop_first()) =~= Seq::<(Seq<u8>, u64)>::empty());
    assert(range_records(prefix, one) =~= Seq::<(Seq<u8>, u64)>::empty());
    assert(range_records(prefix, before) + Seq::<(Seq<u8>, u64)>::empty() =~= range_records(
        prefix,
        before,
    ));
    lemma_above_zero_concat(range_records(prefix, before), range_records(prefix, after));
}

/// An answer has no unexpected line exactly where every line is a record; the
/// records then stand one for each line.
pub proof fn lemma_clean_answer(prefix: u32, lines: Seq<Seq<u8>>)
    ensures
        first_unexpected(prefix, lines) is None <==> forall|i: int|
            0 <= i < lines.len() ==> upstream_record(prefix, #[trigger] lines[i]) is Some,
        first_unexpected(prefix, lines) is None ==> {
            &&& range_records(prefix, lines).len() == lines.len()
            &&& forall|i: int|
                0 <= i < lines.len() ==> upstream_record(prefix, lines[i]) == Some(
                    #[trigger] range_records(prefix, lines)[i],
                )
        },
    decreases lines.len(),
{
    if lines.len() > 0 {
        let rest = lines.drop_first();
        lemma_clean_answer(prefix, rest);
        if first_unexpected(prefix, lines) is None {
            assert forall|i: int| 0 <= i < lines.len() implies upstream_record(
                prefix,
                #[trigger] lines[i],
            ) is Some by {
                if i > 0 {
                    assert(lines[i] == rest[i - 1]);
                }
            }
            let records = range_records(prefix, lines);
            let more = range_records(prefix, rest);
            assert forall|i: int| 0 <= i < lines.len() implies upstream_record(prefix, lines[i])
                == Some(#[trigger] records[i]) by {
                if i > 0 {
                    assert(lines[i] == rest[i - 1]);
                    assert(records[i] == more[i - 1]);
                }
            }
        } else if upstream_record(prefix, lines[0]) is Some {
            let k = choose|k: int|
                0 <= k < rest.len() && !(upstream_record(prefix, #[trigger] rest[k]) is Some);
            assert(lines[k + 1] == rest[k]);
        }
    }
}

/// An unexpected line is one of the lines, it is no record, and every line
/// before it is one.
pub proof fn lemma_first_unexpected(prefix: u32, lines: Seq<Seq<u8>>)
    ensures
        first_unexpected(prefix, lines) matches Some(line) ==> exists|k: int|
            0 <= k < lines.len() && #[trigger] lines[k] == line && upstream_record(prefix, line)
                is None && forall|j: int|
                0 <= j < k ==> upstream_record(prefix, #[trigger] lines[j]) is Some,
    decreases lines.len(),
{
    if lines.len() > 0 {
        let rest = lines.drop_first();
        if upstream_record(prefix, lines[0]) is None {
            assert(lines[0] == lines[0]);
        } else {
            lemma_first_unexpected(prefix, rest);
            let line = first_unexpected(prefix, rest);
            if line is Some {
                let k = choose|k: int|
                    0 <= k < rest.len() && #[trigger] rest[k] == line->Some_0 && upstream_record(
                        prefix,
                        line->Some_0,
                    ) is None && forall|j: int|
                        0 <= j < k ==> upstream_record(prefix, #[trigger] rest[j]) is Some;
                assert(lines[k + 1] == rest[k]);
                assert forall|j: int| 0 <= j < k + 1 implies upstream_record(
                    prefix,
                    #[trigger] lines[j],
                ) is Some by {
                    if j > 0 {
                        assert(lines[j] == rest[j - 1]);
                    }
                }
            }
        }
    }
}

/// A line is a record of the answer for a partition exactly where it is 35
/// hexadecimal digits, a colon and a count; the hash of the record then lies
/// in that partition.
pub proof fn lemma_upstream_record_shape(prefix: u32, line: Seq<u8>)
    requires
        prefix <= PasswordHashPrefix::MAX,
    ensures
        upstream_record(prefix, line) is Some <==> (split_once(line, COLON) matches Some(
            (suffix, count),
        ) && suffix.len() == SUFFIX_DIGITS && all_hex(suffix) && count_value(count) is Some),
        upstream_record(prefix, line) matches Some(record) ==> record.0.len() == HASH_WIDTH
            && hash_prefix(record.0) == prefix && Some(record.1) == count_value(
            split_once(line, COLON).unwrap().1,
        ),
{
    match split_once(line, COLON) {
        Some((suffix, _)) => {
            lemma_hash_of_prefix_and_suffix(prefix, suffix);
        },
        None => {},
    }
}

} // verus!
