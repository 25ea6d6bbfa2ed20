//! What a byte buffer means: its lines, and the record that each line holds.
//!
//! A record is one line `key;value` ended by a newline. The key runs up to the
//! first separator and the value is a decimal literal. Bytes after the last
//! newline of a buffer form no record.

use crate::decimal::{is_value, tenths, NEWLINE, SEPARATOR};
use vstd::prelude::*;

verus! {

/// One record: its key and its value in tenths.
pub struct Record {
    pub key: Seq<u8>,
    pub value: int,
}

/// The first index in `[from, to)` at which `buf` holds `byte`, or `to` where
/// it holds none.
pub open spec fn find(buf: Seq<u8>, byte: u8, from: int, to: int) -> int
    decreases to - from,
{
    if from >= to {
        to
    } else if buf[from] == byte {
        from
    } else {
        find(buf, byte, from + 1, to)
    }
}

/// The index of the newline that ends the line through `at`, or the length of
/// the buffer where no newline follows.
pub open spec fn line_end(buf: Seq<u8>, at: int) -> int {
    find(buf, NEWLINE, at, buf.len() as int)
}

/// Where a range that nominally starts or ends at `offset` really does: at 0
/// for offset 0, else just behind the first newline at or after `offset`, or
/// at the end of the buffer where no newline follows.
pub open spec fn boundary(buf: Seq<u8>, offset: int) -> int {
    if offset <= 0 {
        0
    } else if line_end(buf, offset) < buf.len() {
        line_end(buf, offset) + 1
    } else {
        buf.len() as int
    }
}

/// Whether a line can start at `at`: at the start of the buffer, behind a
/// newline, or at the end.
pub open spec fn is_boundary(buf: Seq<u8>, at: int) -> bool {
    at == 0 || at == buf.len() || (0 < at < buf.len() && buf[at - 1] == NEWLINE)
}

/// Whether the line in `[start, end)` is a record: it has a separator, and
/// what follows the first one is a value literal.
pub open spec fn is_record(buf: Seq<u8>, start: int, end: int) -> bool {
    let separator = find(buf, SEPARATOR, start, end);
    separator < end && is_value(buf.subrange(separator + 1, end))
}

/// The record in the line `[start, end)`.
pub open spec fn record_at(buf: Seq<u8>, start: int, end: int) -> Record {
    let separator = find(buf, SEPARATOR, start, end);
    Record { key: buf.subrange(start, separator), value: tenths(buf.subrange(separator + 1, end)) }
}

/// The records of the complete lines that start in `[lo, hi)`, in order, where
/// a line starts at `lo`.
pub open spec fn records_between(buf: Seq<u8>, lo: int, hi: int) -> Seq<Record>
    decreases buf.len() - lo,
{
    let end = line_end(buf, lo);
    if lo < 0 || lo >= hi || end < lo || end >= buf.len() {
        Seq::empty()
    } else {
        seq![record_at(buf, lo, end)] + records_between(buf, end + 1, hi)
    }
}

/// The start of the first complete line in `[lo, hi)` that is no record, where
/// a line starts at `lo`.
pub open spec fn first_malformed(buf: Seq<u8>, lo: int, hi: int) -> Option<int>
    decreases buf.len() - lo,
{
    let end = line_end(buf, lo);
    if lo < 0 || lo >= hi || end < lo || end >= buf.len() {
        None
    } else if !is_record(buf, lo, end) {
        Some(lo)
    } else {
        first_malformed(buf, end + 1, hi)
    }
}

/// All records of the buffer.
pub open spec fn records(buf: Seq<u8>) -> Seq<Record> {
    records_between(buf, 0, buf.len() as int)
}

/// `find` returns the first index that holds the byte.
pub proof fn lemma_find(buf: Seq<u8>, byte: u8, from: int, to: int)
    requires
        from <= to,
    ensures
        from <= find(buf, byte, from, to) <= to,
        find(buf, byte, from, to) < to ==> buf[find(buf, byte, from, to)] == byte,
        forall|i: int| from <= i < find(buf, byte, from, to) ==> buf[i] != byte,
    decreases to - from,
{
    if from < to && buf[from] != byte {
        lemma_find(buf, byte, from + 1, to);
    }
}

/// An index that holds the byte, with none before it, is what `find` returns.
pub proof fn lemma_find_is(buf: Seq<u8>, byte: u8, from: int, to: int, at: int)
    requires
        from <= at <= to,
        at < to ==> buf[at] == byte,
        forall|i: int| from <= i < at ==> buf[i] != byte,
    ensures
        find(buf, byte, from, to) == at,
{
    lemma_find(buf, byte, from, to);
}

/// A range's real start or end is a place where a line can start, and lies at
/// or behind its nominal place.
pub proof fn lemma_boundary(buf: Seq<u8>, offset: int)
    requires
        0 <= offset <= buf.len(),
    ensures
        is_boundary(buf, boundary(buf, offset)),
        offset <= boundary(buf, offset) <= buf.len(),
        boundary(buf, 0) == 0,
        boundary(buf, buf.len() as int) == buf.len(),
{
    lemma_find(buf, NEWLINE, offset, buf.len() as int);
}

/// Real boundaries keep the order of the nominal ones.
pub proof fn lemma_boundary_monotonic(buf: Seq<u8>, first: int, second: int)
    requires
        0 <= first <= second <= buf.len(),
    ensures
        boundary(buf, first) <= boundary(buf, second),
{
    lemma_find(buf, NEWLINE, first, buf.len() as int);
    lemma_find(buf, NEWLINE, second, buf.len() as int);
}

/// The lines that start in `[lo, hi)` are those that start in `[lo, mid)`
/// followed by those that start in `[mid, hi)`, wherever a line can start at
/// `mid`; and the first malformed line is found in the first part or, failing
/// that, in the second.
pub proof fn lemma_records_split(buf: Seq<u8>, lo: int, mid: int, hi: int)
    requires
        0 <= lo <= mid <= hi,
        is_boundary(buf, mid),
    ensures
        records_between(buf, lo, hi) == records_between(buf, lo, mid) + records_between(
            buf,
            mid,
            hi,
        ),
        first_malformed(buf, lo, hi) == (if first_malformed(buf, lo, mid) is Some {
            first_malformed(buf, lo, mid)
        } else {
            first_malformed(buf, mid, hi)
        }),
    decreases buf.len() - lo,
{
    let len = buf.len() as int;
    let end = line_end(buf, lo);
    if lo == mid {
        assert(records_between(buf, lo, mid) =~= Seq::<Record>::empty());
        assert(records_between(buf, lo, hi) =~= records_between(buf, lo, mid) + records_between(
            buf,
            mid,
            hi,
        ));
    } else if lo >= len {
    } else {
        lemma_find(buf, NEWLINE, lo, len);
        if end >= len {
            // no newline from `lo` on: no complete line starts at or behind it
            if mid < len {
                lemma_find_is(buf, NEWLINE, mid, len, len);
            }
            assert(records_between(buf, lo, hi) =~= records_between(buf, lo, mid)
                + records_between(buf, mid, hi));
        } else {
            assert(end + 1 <= mid);
            lemma_records_split(buf, end + 1, mid, hi);
            assert(records_between(buf, lo, hi) =~= records_between(buf, lo, mid)
                + records_between(buf, mid, hi));
        }
    }
}

/// Each line starts at a place of its own, so the lines that start in
/// `[lo, hi)` are no more than the places there.
pub proof fn lemma_records_len(buf: Seq<u8>, lo: int, hi: int)
    requires
        0 <= lo <= hi,
    ensures
        records_between(buf, lo, hi).len() <= hi - lo,
    decreases buf.len() - lo,
{
    let end = line_end(buf, lo);
    if !(lo >= hi || end < lo || end >= buf.len()) {
        if end + 1 <= hi {
            lemma_records_len(buf, end + 1, hi);
        } else {
            assert(records_between(buf, end + 1, hi) =~= Seq::<Record>::empty());
        }
    }
}

/// A line in `[start, end)` that is ended by a newline at `end` is the one
/// line that starts in `[start, end + 1)`.
pub proof fn lemma_one_line(buf: Seq<u8>, start: int, end: int)
    requires
        0 <= start <= end < buf.len(),
        buf[end] == NEWLINE,
        forall|i: int| start <= i < end ==> buf[i] != NEWLINE,
    ensures
        line_end(buf, start) == end,
        records_between(buf, start, end + 1) == seq![record_at(buf, start, end)],
        first_malformed(buf, start, end + 1) == (if is_record(buf, start, end) {
            None
        } else {
            Some(start)
        }),
{
    lemma_find_is(buf, NEWLINE, start, buf.len() as int, end);
    assert(records_between(buf, end + 1, end + 1) =~= Seq::<Record>::empty());
    assert(first_malformed(buf, end + 1, end + 1) is None);
    assert(records_between(buf, start, end + 1) =~= seq![record_at(buf, start, end)]);
}

/// Where no newline follows `start`, no complete line starts at or behind it.
pub proof fn lemma_no_line(buf: Seq<u8>, start: int, hi: int)
    requires
        0 <= start <= buf.len(),
        forall|i: int| start <= i < buf.len() ==> buf[i] != NEWLINE,
    ensures
        records_between(buf, start, hi) == Seq::<Record>::empty(),
        first_malformed(buf, start, hi) is None,
{
    lemma_find_is(buf, NEWLINE, start, buf.len() as int, buf.len() as int);
}

} // verus!
