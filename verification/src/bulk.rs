//! Loading bulk source files.
//!
//! A bulk source is text with one record to a line: the 40 hexadecimal digits
//! of a hash, a colon, and the count in decimal. A line that is no record is
//! passed over; it never stops the load.

use crate::ascii::COLON;
use crate::count::{count_reading, parse_count, CountError};
use crate::hash::{hash_of_hex, records_view, InvalidPasswordHash, PasswordHash};
use crate::text::{lines, split_once, split_record, take_line};
use vstd::prelude::*;
use vstd::string::*;

verus! {

/// Why a line of a bulk source is no record.
#[derive(Debug, Clone, Copy, PartialEq, Eq)]
pub enum SourceLineError {
    /// The line holds no colon.
    MissingSeparator,
    /// What stands before the first colon is no hash.
    InvalidHash(InvalidPasswordHash),
    /// What stands after the first colon is no count.
    InvalidCount(CountError),
}

/// The record that a line of a bulk source writes, or the first reason why it
/// writes none: no colon, then no hash before it, then no count after it.
pub open spec fn source_record(line: Seq<u8>) -> Result<(Seq<u8>, u64), SourceLineError> {
    match split_once(line, COLON) {
        None => Err(SourceLineError::MissingSeparator),
        Some((hash_text, count_text)) => match hash_of_hex(hash_text) {
            Err(e) => Err(SourceLineError::InvalidHash(e)),
            Ok(hash) => match count_reading(count_text) {
                Err(e) => Err(SourceLineError::InvalidCount(e)),
                Ok(n) => Ok((hash, n)),
            },
        },
    }
}

/// Reads one line of a bulk source.
pub fn parse_source_line(line: &str) -> (r: Result<(PasswordHash, u64), SourceLineError>)
    ensures
        match r {
            Ok((hash, n)) => source_record(line.spec_bytes()) == Ok::<
                (Seq<u8>, u64),
                SourceLineError,
            >((hash@, n)),
            Err(e) => source_record(line.spec_bytes()) == Err::<(Seq<u8>, u64), SourceLineError>(e),
        },
{
    let (hash_text, count_text) = match split_record(line) {
        Some(parts) => parts,
        None => {
            return Err(SourceLineError::MissingSeparator);
        },
    };
    let hash = match PasswordHash::from_str(hash_text) {
        Ok(hash) => hash,
        Err(e) => {
            return Err(SourceLineError::InvalidHash(e));
        },
    };
    match parse_count(count_text) {
        Ok(n) => Ok((hash, n)),
        Err(e) => Err(SourceLineError::InvalidCount(e)),
    }
}

/// The records that a bulk source has the store take: those of its lines that
/// are records, in the order of the lines, counts of zero included.
pub open spec fn source_records(lines: Seq<Seq<u8>>) -> Seq<(Seq<u8>, u64)>
    decreases lines.len(),
{
    if lines.len() == 0 {
        Seq::empty()
    } else {
        let rest = source_records(lines.drop_first());
        match source_record(lines[0]) {
            Ok(record) => seq![record] + rest,
            Err(_) => rest,
        }
    }
}

/// How many of the lines are no records.
pub open spec fn lines_skipped(lines: Seq<Seq<u8>>) -> nat
    decreases lines.len(),
{
    if lines.len() == 0 {
        0
    } else {
        let rest = lines_skipped(lines.drop_first());
        if source_record(lines[0]) is Err {
            1 + rest
        } else {
            rest
        }
    }
}

/// What a bulk source holds.
#[derive(Debug, PartialEq, Eq)]
pub struct Load {
    /// The records to write to the store, in this order.
    pub records: Vec<(PasswordHash, u64)>,
    /// The number of lines that were passed over.
    pub skipped: usize,
}

/// Reads a bulk source. Every line that is a record is taken, in the order of
/// the lines; every other line is counted and passed over.
pub fn load(text: &str) -> (r: Load)
    ensures
        records_view(r.records@) == source_records(lines(text.spec_bytes())),
        r.skipped == lines_skipped(lines(text.spec_bytes())),
{
    let total = text.as_bytes().len();
    let mut records: Vec<(PasswordHash, u64)> = Vec::new();
    let mut skipped: usize = 0;
    let mut rest: &str = text;
    assert(records_view(records@) =~= Seq::<(Seq<u8>, u64)>::empty());
    assert(records_view(records@) + source_records(lines(text.spec_bytes())) =~= source_records(
        lines(text.spec_bytes()),
    ));
    loop
        invariant
            total == text.spec_bytes().len(),
            skipped + rest.spec_bytes().len() <= total,
            source_records(lines(text.spec_bytes())) == records_view(records@) + source_records(
                lines(rest.spec_bytes()),
            ),
            lines_skipped(lines(text.spec_bytes())) == skipped + lines_skipped(
                lines(rest.spec_bytes()),
            ),
        decreases rest.spec_bytes().len(),
    {
        let ghost before = records_view(records@);
        let ghost all = lines(rest.spec_bytes());
        match take_line(rest) {
            None => {
                assert(before + Seq::<(Seq<u8>, u64)>::empty() =~= before);
                return Load { records, skipped };
            },
            Some((line, tail)) => {
                assert(all.drop_first() =~= lines(tail.spec_bytes()));
                assert(all[0] == line.spec_bytes());
                let ghost more = source_records(lines(tail.spec_bytes()));
                match parse_source_line(line) {
                    Ok(record) => {
                        records.push(record);
                        proof {
                            let one = seq![(record.0@, record.1)];
                            assert(records_view(records@) =~= before + one);
                            assert(before + (one + more) =~= (before + one) + more);
                        }
                    },
                    Err(_) => {
                        skipped += 1;
                    },
                }
                rest = tail;
            },
        }
    }
}

/// The records of two runs of lines, one after the other, are the records of
/// the first run followed by those of the second: no line bears on another.
pub proof fn lemma_source_records_concat(a: Seq<Seq<u8>>, b: Seq<Seq<u8>>)
    ensures
        source_records(a + b) == source_records(a) + source_records(b),
    decreases a.len(),
{
    if a.len() == 0 {
        assert(a + b =~= b);
        assert(source_records(a) + source_records(b) =~= source_records(b));
    } else {
        lemma_source_records_concat(a.drop_first(), b);
        assert((a + b).drop_first() =~= a.drop_first() + b);
        assert((a + b)[0] == a[0]);
        assert(source_records(a + b) =~= source_records(a) + source_records(b));
    }
}

/// A line that is no record between other lines changes nothing: the records
/// are those of the lines before it followed by those of the lines after it.
pub proof fn lemma_malformed_line_is_passed_over(
    before: Seq<Seq<u8>>,
    line: Seq<u8>,
    after: Seq<Seq<u8>>,
)
    requires
        source_record(line) is Err,
    ensures
        source_records(before + seq![line] + after) == source_records(before) + source_records(
            after,
        ),
{
    lemma_source_records_concat(before + seq![line], after);
    lemma_source_records_concat(before, seq![line]);
    let one = seq![line];
    assert(one[0] == line);
    assert(source_records(one.drop_first()) =~= Seq::<(Seq<u8>, u64)>::empty());
    assert(source_records(one) =~= Seq::<(Seq<u8>, u64)>::empty());
    assert(source_records(before) + Seq::<(Seq<u8>, u64)>::empty() =~= source_records(before));
}

} // verus!
