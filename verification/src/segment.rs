//! The split of a buffer into one range per worker, and the laws that make
//! the split safe: the ranges, once moved to line starts, tile the buffer, so
//! every record belongs to exactly one of them.

use crate::decimal::NEWLINE;
use crate::records::{
    boundary, is_boundary, lemma_boundary, lemma_boundary_monotonic, lemma_find,
    lemma_records_split, line_end, records, records_between, Record,
};
use crate::summary::{aggregate, lemma_aggregate_concat, merge_maps, Summary};
use vstd::arithmetic::div_mod::{lemma_div_pos_is_pos, lemma_fundamental_div_mod};
use vstd::arithmetic::mul::{lemma_mul_inequality, lemma_mul_is_distributive_add_other_way};
use vstd::prelude::*;

verus! {

/// Where the range of worker `index` nominally starts: all workers get the
/// same whole number of bytes.
pub open spec fn nominal_start(total: int, workers: int, index: int) -> int {
    index * (total / workers)
}

/// Where the range of worker `index` nominally ends. The last worker takes
/// the remainder too.
pub open spec fn nominal_end(total: int, workers: int, index: int) -> int {
    if index + 1 == workers {
        total
    } else {
        (index + 1) * (total / workers)
    }
}

/// Where worker `index` starts to scan.
pub open spec fn partition_lo(buf: Seq<u8>, workers: int, index: int) -> int {
    boundary(buf, nominal_start(buf.len() as int, workers, index))
}

/// Where worker `index` stops.
pub open spec fn partition_hi(buf: Seq<u8>, workers: int, index: int) -> int {
    boundary(buf, nominal_end(buf.len() as int, workers, index))
}

/// The records that worker `index` scans.
pub open spec fn partition_records(buf: Seq<u8>, workers: int, index: int) -> Seq<Record> {
    records_between(buf, partition_lo(buf, workers, index), partition_hi(buf, workers, index))
}

/// The records of the first `count` workers, one worker after the other.
pub open spec fn joined_records(buf: Seq<u8>, workers: int, count: int) -> Seq<Record>
    decreases count,
{
    if count <= 0 {
        Seq::empty()
    } else {
        joined_records(buf, workers, count - 1) + partition_records(buf, workers, count - 1)
    }
}

/// The summaries of the first `count` workers, merged in the order of the
/// workers.
pub open spec fn merged_partitions(buf: Seq<u8>, workers: int, count: int) -> Summary
    decreases count,
{
    if count <= 0 {
        Map::empty()
    } else {
        merge_maps(
            merged_partitions(buf, workers, count - 1),
            aggregate(partition_records(buf, workers, count - 1)),
        )
    }
}

/// The nominal range of worker `index` among `workers`, over `total` bytes:
/// its start and its length.
pub fn segment(total: usize, workers: usize, index: usize) -> (range: (usize, usize))
    requires
        index < workers,
    ensures
        range.0 == nominal_start(total as int, workers as int, index as int),
        range.0 + range.1 == nominal_end(total as int, workers as int, index as int),
        range.0 + range.1 <= total,
{
    let segment_size: usize = total / workers;
    proof {
        lemma_nominal(total as int, workers as int, index as int);
        lemma_fundamental_div_mod(total as int, workers as int);
        lemma_mul_is_distributive_add_other_way(segment_size as int, workers - 1, 1);
        assert(workers * segment_size == segment_size * workers) by (nonlinear_arith);
    }
    let start_offset: usize = index * segment_size;
    if index == workers - 1 {
        (start_offset, segment_size + total % workers)
    } else {
        assert((index + 1) * segment_size == index * segment_size + segment_size)
            by (nonlinear_arith);
        (start_offset, segment_size)
    }
}

/// The nominal ranges follow one another from 0 to the end of the buffer.
pub proof fn lemma_nominal(total: int, workers: int, index: int)
    requires
        0 <= total,
        0 <= index < workers,
    ensures
        0 <= nominal_start(total, workers, index) <= nominal_end(total, workers, index) <= total,
        nominal_start(total, workers, 0) == 0,
        nominal_end(total, workers, workers - 1) == total,
        index > 0 ==> nominal_start(total, workers, index) == nominal_end(
            total,
            workers,
            index - 1,
        ),
{
    let size = total / workers;
    lemma_div_pos_is_pos(total, workers);
    lemma_fundamental_div_mod(total, workers);
    lemma_mul_inequality(index, index + 1, size);
    lemma_mul_inequality(index + 1, workers, size);
    lemma_mul_inequality(0, index, size);
    assert(workers * size == size * workers) by (nonlinear_arith);
    assert(0 * size == 0);
}

/// The ranges that the workers scan follow one another from 0 to the end of
/// the buffer, and each starts and ends where a line can start.
pub proof fn lemma_partitions_tile(buf: Seq<u8>, workers: int, index: int)
    requires
        0 <= index < workers,
    ensures
        0 <= partition_lo(buf, workers, index) <= partition_hi(buf, workers, index) <= buf.len(),
        is_boundary(buf, partition_lo(buf, workers, index)),
        is_boundary(buf, partition_hi(buf, workers, index)),
        partition_lo(buf, workers, 0) == 0,
        partition_hi(buf, workers, workers - 1) == buf.len(),
        index > 0 ==> partition_lo(buf, workers, index) == partition_hi(buf, workers, index - 1),
{
    let total = buf.len() as int;
    lemma_nominal(total, workers, index);
    lemma_boundary(buf, nominal_start(total, workers, index));
    lemma_boundary(buf, nominal_end(total, workers, index));
    lemma_boundary_monotonic(
        buf,
        nominal_start(total, workers, index),
        nominal_end(total, workers, index),
    );
}

/// Where the first `count` workers have got to.
pub open spec fn reached(buf: Seq<u8>, workers: int, count: int) -> int {
    if count <= 0 {
        0
    } else {
        partition_hi(buf, workers, count - 1)
    }
}

/// The workers stop in the order of their indices.
pub proof fn lemma_reached_monotonic(buf: Seq<u8>, workers: int, fewer: int, more: int)
    requires
        0 <= fewer <= more <= workers,
    ensures
        0 <= reached(buf, workers, fewer) <= reached(buf, workers, more) <= buf.len(),
    decreases more - fewer,
{
    if more > 0 {
        lemma_partitions_tile(buf, workers, more - 1);
    }
    if fewer < more {
        lemma_reached_monotonic(buf, workers, fewer, more - 1);
    }
}

/// The records of the first `count` workers, joined, are the records of the
/// buffer up to where these workers have got to: none is left out and none
/// is there twice. With all workers, they are the records of the buffer.
pub proof fn lemma_joined_records(buf: Seq<u8>, workers: int, count: int)
    requires
        0 <= count <= workers,
    ensures
        joined_records(buf, workers, count) == records_between(
            buf,
            0,
            reached(buf, workers, count),
        ),
        count == workers && workers > 0 ==> joined_records(buf, workers, count) == records(buf),
    decreases count,
{
    if count == 0 {
        assert(records_between(buf, 0, 0) =~= Seq::empty());
    } else {
        lemma_joined_records(buf, workers, count - 1);
        lemma_partitions_tile(buf, workers, count - 1);
        if count > 1 {
            lemma_partitions_tile(buf, workers, count - 2);
        }
        lemma_records_split(
            buf,
            0,
            partition_lo(buf, workers, count - 1),
            partition_hi(buf, workers, count - 1),
        );
    }
}

/// Merging the summaries of the workers gives the summary of the records of
/// all of them.
pub proof fn lemma_merged_partitions(buf: Seq<u8>, workers: int, count: int)
    requires
        0 <= count <= workers,
    ensures
        merged_partitions(buf, workers, count) == aggregate(joined_records(buf, workers, count)),
    decreases count,
{
    if count > 0 {
        lemma_merged_partitions(buf, workers, count - 1);
        lemma_aggregate_concat(
            joined_records(buf, workers, count - 1),
            partition_records(buf, workers, count - 1),
        );
    }
}

/// The merged summary does not depend on the number of workers: with any
/// number of them it is the summary of the records of the buffer.
pub proof fn lemma_any_number_of_workers(buf: Seq<u8>, workers: int, others: int)
    requires
        workers > 0,
        others > 0,
    ensures
        merged_partitions(buf, workers, workers) == aggregate(records(buf)),
        merged_partitions(buf, workers, workers) == merged_partitions(buf, others, others),
{
    lemma_merged_partitions(buf, workers, workers);
    lemma_joined_records(buf, workers, workers);
    lemma_merged_partitions(buf, others, others);
    lemma_joined_records(buf, others, others);
}

/// The first of the first `count` workers that stops behind `at`, or the last
/// of them.
pub open spec fn owner_among(buf: Seq<u8>, workers: int, count: int, at: int) -> int
    decreases count,
{
    if count <= 1 || at >= reached(buf, workers, count - 1) {
        count - 1
    } else {
        owner_among(buf, workers, count - 1, at)
    }
}

/// The worker in whose range the offset `at` lies.
pub open spec fn owner(buf: Seq<u8>, workers: int, at: int) -> int {
    owner_among(buf, workers, workers, at)
}

/// A line that starts before the first `count` workers have stopped lies in
/// the range of exactly one of them.
proof fn lemma_owner_among(buf: Seq<u8>, workers: int, count: int, at: int)
    requires
        1 <= count <= workers,
        0 <= at < reached(buf, workers, count),
    ensures
        0 <= owner_among(buf, workers, count, at) < count,
        partition_lo(buf, workers, owner_among(buf, workers, count, at)) <= at < partition_hi(
            buf,
            workers,
            owner_among(buf, workers, count, at),
        ),
    decreases count,
{
    lemma_partitions_tile(buf, workers, count - 1);
    if !(count <= 1 || at >= reached(buf, workers, count - 1)) {
        lemma_owner_among(buf, workers, count - 1, at);
    }
}

/// Every offset of the buffer, and so the start of every line, lies in the
/// range of exactly one worker; a line that is ended by a newline lies in
/// that range as a whole.
pub proof fn lemma_one_owner(buf: Seq<u8>, workers: int, at: int)
    requires
        workers > 0,
        0 <= at < buf.len(),
    ensures
        0 <= owner(buf, workers, at) < workers,
        partition_lo(buf, workers, owner(buf, workers, at)) <= at < partition_hi(
            buf,
            workers,
            owner(buf, workers, at),
        ),
        forall|other: int|
            0 <= other < workers && other != owner(buf, workers, at) ==> !(partition_lo(
                buf,
                workers,
                other,
            ) <= at < #[trigger] partition_hi(buf, workers, other)),
        line_end(buf, at) < buf.len() ==> line_end(buf, at) < partition_hi(
            buf,
            workers,
            owner(buf, workers, at),
        ),
{
    let mine = owner(buf, workers, at);
    let total = buf.len() as int;
    lemma_partitions_tile(buf, workers, workers - 1);
    lemma_owner_among(buf, workers, workers, at);
    lemma_nominal(total, workers, mine);
    lemma_find(buf, NEWLINE, at, total);
    lemma_find(buf, NEWLINE, nominal_end(total, workers, mine), total);
    lemma_partitions_tile(buf, workers, mine);
    assert forall|other: int| 0 <= other < workers && other != mine implies !(partition_lo(
        buf,
        workers,
        other,
    ) <= at < #[trigger] partition_hi(buf, workers, other)) by {
        lemma_partitions_tile(buf, workers, other);
        if other < mine {
            lemma_reached_monotonic(buf, workers, other + 1, mine);
        } else {
            lemma_reached_monotonic(buf, workers, mine + 1, other);
        }
    }
}

} // verus!
