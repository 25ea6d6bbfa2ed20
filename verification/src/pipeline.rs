//! The whole computation on one buffer: split, scan each range, merge, and
//! write out. The ranges are scanned one after the other here; a caller that
//! scans them at the same time uses `segment`, `compute` and `Table::merge`
//! in the same way.

use crate::records::{
    first_malformed, lemma_records_len, lemma_records_split, records, records_between,
};
use crate::report::{render_text, summary_text};
use crate::scan::{compute, FormatError};
use crate::segment::{
    lemma_any_number_of_workers, lemma_partitions_tile, lemma_reached_monotonic,
    merged_partitions, partition_hi, partition_lo, reached, segment,
};
use crate::summary::{aggregate, lemma_aggregate_concat, lemma_aggregate_keys};
use crate::table::Table;
use vstd::prelude::*;
use vstd::utf8::{encode_utf8, valid_utf8};

verus! {

/// Why a buffer has no report.
#[derive(Clone, Copy, Debug, PartialEq, Eq, Structural)]
pub enum ReportError {
    /// A complete line is no record; `line_start` is where the first such
    /// line starts.
    Malformed { line_start: usize },
    /// Every line is a record, but a key is not UTF-8 text.
    NotText,
}

/// The summary of all records of `text`, computed range by range for
/// `workers` workers. The result does not depend on `workers`.
///
/// Fails on the first line of the buffer that is no record.
pub fn summarize<'a>(text: &'a [u8], workers: usize) -> (outcome: Result<Table<'a>, FormatError>)
    requires
        workers > 0,
    ensures
        match outcome {
            Ok(table) => {
                &&& table.well_formed()
                &&& first_malformed(text@, 0, text@.len() as int) is None
                &&& table@ == aggregate(records(text@))
            },
            Err(error) => first_malformed(text@, 0, text@.len() as int) == Some(
                error.line_start as int,
            ),
        },
{
    let ghost buf = text@;
    let ghost total = buf.len() as int;
    let mut global = Table::new();
    let mut index: usize = 0;
    proof {
        assert(records_between(buf, 0, 0) =~= Seq::empty());
    }
    while index < workers
        invariant
            0 <= index <= workers,
            buf == text@,
            total == buf.len(),
            global.well_formed(),
            global@ == aggregate(records_between(buf, 0, reached(buf, workers as int, index as int))),
            first_malformed(buf, 0, reached(buf, workers as int, index as int)) is None,
        decreases workers - index,
    {
        let ghost done = reached(buf, workers as int, index as int);
        let ghost lo = partition_lo(buf, workers as int, index as int);
        let ghost hi = partition_hi(buf, workers as int, index as int);
        proof {
            lemma_partitions_tile(buf, workers as int, index as int);
            lemma_reached_monotonic(buf, workers as int, index + 1, workers as int);
            lemma_partitions_tile(buf, workers as int, workers - 1);
            assert(done == lo);
            lemma_records_split(buf, 0, lo, hi);
            lemma_records_split(buf, 0, hi, total);
        }
        let (start_offset, len) = segment(text.len(), workers, index);
        match compute(text, start_offset, len) {
            Err(error) => {
                return Err(error);
            },
            Ok(part) => {
                proof {
                    let ours = records_between(buf, 0, lo);
                    let theirs = records_between(buf, lo, hi);
                    lemma_records_len(buf, 0, lo);
                    lemma_records_len(buf, lo, hi);
                    lemma_aggregate_concat(ours, theirs);
                    assert forall|key: Seq<u8>|
                        global@.contains_key(key) && part@.contains_key(key) implies global@[key].count
                        + part@[key].count <= usize::MAX by {
                        lemma_aggregate_keys(ours, key);
                        lemma_aggregate_keys(theirs, key);
                    }
                }
                global.merge(part);
            },
        }
        index += 1;
    }
    proof {
        lemma_partitions_tile(buf, workers as int, workers - 1);
    }
    Ok(global)
}

/// The text of the merged summaries of the workers is the same for every
/// number of workers: it is the text of the summary of the buffer's records.
pub proof fn lemma_report_for_any_number_of_workers(buf: Seq<u8>, workers: int, others: int)
    requires
        workers > 0,
        others > 0,
    ensures
        summary_text(merged_partitions(buf, workers, workers)) == summary_text(
            aggregate(records(buf)),
        ),
        summary_text(merged_partitions(buf, workers, workers)) == summary_text(
            merged_partitions(buf, others, others),
        ),
{
    lemma_any_number_of_workers(buf, workers, others);
}

/// The report on `text`: `{key=min/mean/max, ...}` with the keys in
/// ascending order and each number with one fractional digit, computed for
/// `workers` workers. The report does not depend on `workers`.
pub fn report(text: &[u8], workers: usize) -> (outcome: Result<String, ReportError>)
    requires
        workers > 0,
    ensures
        match outcome {
            Ok(output) => {
                &&& first_malformed(text@, 0, text@.len() as int) is None
                &&& valid_utf8(summary_text(aggregate(records(text@))))
                &&& encode_utf8(output@) == summary_text(aggregate(records(text@)))
            },
            Err(ReportError::Malformed { line_start }) => first_malformed(
                text@,
                0,
                text@.len() as int,
            ) == Some(line_start as int),
            Err(ReportError::NotText) => {
                &&& first_malformed(text@, 0, text@.len() as int) is None
                &&& !valid_utf8(summary_text(aggregate(records(text@))))
            },
        },
{
    match summarize(text, workers) {
        Err(error) => Err(ReportError::Malformed { line_start: error.line_start }),
        Ok(table) => match render_text(table) {
            Some(output) => Ok(output),
            None => Err(ReportError::NotText),
        },
    }
}

} // verus!
