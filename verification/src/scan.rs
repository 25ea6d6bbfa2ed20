//! The scan of one byte range: every record that starts in the range is
//! decoded and taken into a table.

use crate::decimal::{decode_tenths, is_value_at, NEWLINE, SEPARATOR};
use crate::records::{
    boundary, first_malformed, is_boundary, is_record, lemma_boundary, lemma_boundary_monotonic, lemma_find,
    lemma_find_is, lemma_no_line, lemma_one_line, lemma_records_len, lemma_records_split,
    record_at, records_between,
};
use crate::summary::{aggregate, lemma_aggregate_keys, lemma_aggregate_push};
use crate::table::Table;
use vstd::prelude::*;
use vstd::slice::slice_subrange;

verus! {

/// The failure of a scan: a complete line that is no record.
#[derive(Clone, Copy, Debug, PartialEq, Eq, Structural)]
pub struct FormatError {
    /// Where the line starts in the buffer.
    pub line_start: usize,
}

/// Scans the records of `text` that belong to the nominal range of `len`
/// bytes at `start_offset`, and returns their summary.
///
/// A range that does not start at offset 0 gives up the line it starts in:
/// the scan begins behind the first newline at or after `start_offset`. In
/// return it goes on past the nominal end, up to and including the first
/// newline at or after it. So a line belongs to the one range in which the
/// byte before its first byte lies. A line without a newline at the end of
/// the buffer is no record.
///
/// The scan stops at the first line that is no record and reports where that
/// line starts.
pub fn compute<'a>(text: &'a [u8], start_offset: usize, len: usize) -> (outcome: Result<
    Table<'a>,
    FormatError,
>)
    requires
        start_offset + len <= text.len(),
    ensures
        ({
            let lo = boundary(text@, start_offset as int);
            let hi = boundary(text@, start_offset + len);
            match outcome {
                Ok(table) => {
                    &&& table.well_formed()
                    &&& first_malformed(text@, lo, hi) is None
                    &&& table@ == aggregate(records_between(text@, lo, hi))
                },
                Err(error) => first_malformed(text@, lo, hi) == Some(error.line_start as int),
            }
        }),
{
    let end: usize = start_offset + len;
    let total: usize = text.len();
    let ghost buf = text@;
    let ghost lo = boundary(buf, start_offset as int);
    let ghost hi = boundary(buf, end as int);
    let mut table = Table::new();
    let mut current_index: usize = start_offset;
    if current_index > 0 {
        while current_index < total && text[current_index] != NEWLINE
            invariant
                start_offset <= current_index <= total,
                total == text.len(),
                forall|i: int| start_offset <= i < current_index ==> text@[i] != NEWLINE,
            decreases total - current_index,
        {
            current_index += 1;
        }
        proof {
            lemma_find_is(buf, NEWLINE, start_offset as int, total as int, current_index as int);
        }
        if current_index < total {
            current_index += 1;
        }
    }
    proof {
        lemma_boundary(buf, start_offset as int);
        lemma_boundary(buf, end as int);
        lemma_boundary_monotonic(buf, start_offset as int, end as int);
        assert(records_between(buf, lo, lo) =~= Seq::empty());
    }
    let mut start_of_line_index: usize = current_index;
    let mut separator_index: usize = current_index;
    let mut separator_seen = false;
    while current_index < total && (current_index < end || (current_index == end && end > 0) || (
    current_index > end && text[current_index - 1] != NEWLINE))
        invariant
            total == text.len(),
            buf == text@,
            end == start_offset + len,
            end <= total,
            lo == boundary(buf, start_offset as int),
            hi == boundary(buf, end as int),
            0 <= lo <= start_of_line_index <= current_index <= hi <= total,
            is_boundary(buf, start_of_line_index as int),
            forall|i: int| start_of_line_index <= i < current_index ==> buf[i] != NEWLINE,
            separator_seen ==> start_of_line_index <= separator_index < current_index
                && buf[separator_index as int] == SEPARATOR,
            separator_seen ==> forall|i: int|
                start_of_line_index <= i < separator_index ==> buf[i] != SEPARATOR,
            !separator_seen ==> forall|i: int|
                start_of_line_index <= i < current_index ==> buf[i] != SEPARATOR,
            table.well_formed(),
            table@ == aggregate(records_between(buf, lo, start_of_line_index as int)),
            first_malformed(buf, lo, start_of_line_index as int) is None,
        decreases total - current_index,
    {
        proof {
            lemma_find(buf, NEWLINE, end as int, total as int);
        }
        assert(current_index < hi);
        let ghost line = start_of_line_index as int;
        let ghost before = records_between(buf, lo, line);
        let byte = text[current_index];
        if byte == NEWLINE {
            proof {
                lemma_one_line(buf, line, current_index as int);
                lemma_records_split(buf, lo, line, current_index + 1);
                lemma_find_is(
                    buf,
                    SEPARATOR,
                    line,
                    current_index as int,
                    if separator_seen {
                        separator_index as int
                    } else {
                        current_index as int
                    },
                );
            }
            if !separator_seen || !is_value_at(text, separator_index + 1, current_index) {
                proof {
                    lemma_records_split(buf, lo, line, hi);
                    assert(!is_record(buf, line, current_index as int));
                    assert(first_malformed(buf, line, hi) == Some(line));
                }
                return Err(FormatError { line_start: start_of_line_index });
            }
            let value = decode_tenths(text, separator_index, current_index);
            let key = slice_subrange(text, start_of_line_index, separator_index);
            proof {
                lemma_aggregate_keys(before, key@);
                lemma_records_len(buf, lo, line);
                lemma_aggregate_push(before, record_at(buf, line, current_index as int));
                assert(records_between(buf, lo, current_index + 1) =~= before.push(
                    record_at(buf, line, current_index as int),
                ));
            }
            table.record(key, value);
            start_of_line_index = current_index + 1;
            separator_seen = false;
        } else if byte == SEPARATOR && !separator_seen {
            separator_index = current_index;
            separator_seen = true;
        }
        current_index += 1;
    }
    proof {
        let line = start_of_line_index as int;
        lemma_find(buf, NEWLINE, end as int, total as int);
        assert(current_index == hi);
        lemma_records_split(buf, lo, line, hi);
        if line < hi {
            lemma_no_line(buf, line, hi);
        } else {
            assert(records_between(buf, line, hi) =~= Seq::empty());
        }
        assert(records_between(buf, lo, hi) =~= records_between(buf, lo, line));
    }
    Ok(table)
}

} // verus!
