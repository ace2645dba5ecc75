//! One line of input: a key, the delimiter, the text of a reading.

use crate::reading::{parse_reading, reading_of};
use vstd::prelude::*;
use vstd::slice::slice_subrange;

verus! {

/// The byte that parts the key of a line from its reading: a semicolon.
pub const DELIMITER: u8 = 0x3B;

/// What a well-formed line says: a reading, in units, for a key.
pub struct Record {
    pub key: Seq<u8>,
    pub value: int,
}

/// Whether the first delimiter of the line stands at `at`.
pub open spec fn first_delimiter(line: Seq<u8>, at: int) -> bool {
    &&& 0 <= at < line.len()
    &&& line[at] == DELIMITER
    &&& forall|j: int| 0 <= j < at ==> line[j] != DELIMITER
}

/// Whether the line holds a delimiter at all.
pub open spec fn has_delimiter(line: Seq<u8>) -> bool {
    exists|at: int| first_delimiter(line, at)
}

/// The record that a line holds. The key is all that stands before the first
/// delimiter, byte for byte; what follows the delimiter must spell a reading.
/// A line without delimiter, or with anything but a reading after it, holds
/// no record.
pub open spec fn record_of(line: Seq<u8>) -> Option<Record> {
    if has_delimiter(line) {
        let at = choose|at: int| first_delimiter(line, at);
        match reading_of(line.skip(at + 1)) {
            Some(value) => Some(Record { key: line.take(at), value }),
            None => None,
        }
    } else {
        None
    }
}

/// A line without a delimiter holds no record.
pub proof fn lemma_no_delimiter_no_record(line: Seq<u8>)
    requires
        forall|i: int| 0 <= i < line.len() ==> line[i] != DELIMITER,
    ensures
        record_of(line) is None,
{
}

/// A line whose text after the first delimiter spells no reading holds no
/// record.
pub proof fn lemma_no_reading_no_record(line: Seq<u8>, at: int)
    requires
        first_delimiter(line, at),
        reading_of(line.skip(at + 1)) is None,
    ensures
        record_of(line) is None,
{
    let chosen = choose|at: int| first_delimiter(line, at);
    assert(chosen == at);
}

/// Finds the first delimiter of a line.
pub fn find_delimiter(line: &[u8]) -> (found: Option<usize>)
    ensures
        found is Some <==> has_delimiter(line@),
        found matches Some(at) ==> first_delimiter(line@, at as int),
{
    let mut i: usize = 0;
    while i < line.len()
        invariant
            i <= line.len(),
            forall|j: int| 0 <= j < i ==> line@[j] != DELIMITER,
        decreases line.len() - i,
    {
        if line[i] == DELIMITER {
            assert(first_delimiter(line@, i as int));
            return Some(i);
        }
        i = i + 1;
    }
    assert forall|at: int| !first_delimiter(line@, at) by {}
    None
}

/// Reads the record of a line: its key, as a part of the line itself, and
/// its reading.
pub fn parse_line(line: &[u8]) -> (parsed: Option<(&[u8], i64)>)
    ensures
        parsed is Some <==> record_of(line@) is Some,
        parsed matches Some((key, value)) ==> record_of(line@) == Some(
            Record { key: key@, value: value as int },
        ),
{
    match find_delimiter(line) {
        None => None,
        Some(at) => {
            proof {
                let chosen = choose|at: int| first_delimiter(line@, at);
                assert(chosen == at);
            }
            let end: usize = line.len();
            let text: &[u8] = slice_subrange(line, at + 1, end);
            assert(text@ =~= line@.skip(at + 1));
            match parse_reading(text) {
                None => None,
                Some(value) => {
                    let key: &[u8] = slice_subrange(line, 0, at);
                    assert(key@ =~= line@.take(at as int));
                    Some((key, value))
                },
            }
        },
    }
}

} // verus!
