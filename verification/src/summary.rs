//! Summaries: the aggregate of every key, as a mathematical map, and the laws
//! of building and merging them.

use crate::records::Record;
use crate::stats::Stats;
use vstd::prelude::*;

verus! {

/// The aggregate of each key that occurs.
pub type Summary = Map<Seq<u8>, Stats>;

/// The summary after one more record.
pub open spec fn add_record(summary: Summary, key: Seq<u8>, value: int) -> Summary {
    summary.insert(
        key,
        if summary.contains_key(key) {
            summary[key].observe(value)
        } else {
            Stats::single(value)
        },
    )
}

/// The summary of a sequence of records.
pub open spec fn aggregate(records: Seq<Record>) -> Summary
    decreases records.len(),
{
    if records.len() == 0 {
        Map::empty()
    } else {
        add_record(aggregate(records.drop_last()), records.last().key, records.last().value)
    }
}

/// The summary of what two summaries stand for together: the union of their
/// keys, with the aggregates of a key that both hold combined.
pub open spec fn merge_maps(a: Summary, b: Summary) -> Summary {
    Map::new(
        |key: Seq<u8>| a.contains_key(key) || b.contains_key(key),
        |key: Seq<u8>|
            if a.contains_key(key) && b.contains_key(key) {
                a[key].combine(b[key])
            } else if a.contains_key(key) {
                a[key]
            } else {
                b[key]
            },
    )
}

/// Merging does not depend on which summary comes first.
pub proof fn lemma_merge_commutative(a: Summary, b: Summary)
    ensures
        merge_maps(a, b) == merge_maps(b, a),
{
    assert(merge_maps(a, b) =~= merge_maps(b, a));
}

/// Merging does not depend on how the summaries are grouped.
pub proof fn lemma_merge_associative(a: Summary, b: Summary, c: Summary)
    ensures
        merge_maps(merge_maps(a, b), c) == merge_maps(a, merge_maps(b, c)),
{
    assert(merge_maps(merge_maps(a, b), c) =~= merge_maps(a, merge_maps(b, c)));
}

/// A summary of nothing leaves the other summary as it is.
pub proof fn lemma_merge_empty(a: Summary)
    ensures
        merge_maps(a, Map::empty()) == a,
        merge_maps(Map::empty(), a) == a,
{
    assert(merge_maps(a, Map::empty()) =~= a);
    assert(merge_maps(Map::empty(), a) =~= a);
}

/// Adding a record to the second of two merged summaries is adding it to the
/// merged summary.
pub proof fn lemma_merge_add_record(a: Summary, b: Summary, key: Seq<u8>, value: int)
    ensures
        merge_maps(a, add_record(b, key, value)) == add_record(merge_maps(a, b), key, value),
{
    assert(merge_maps(a, add_record(b, key, value)) =~= add_record(merge_maps(a, b), key, value));
}

/// The summary of a sequence with one more record at its end.
pub proof fn lemma_aggregate_push(records: Seq<Record>, record: Record)
    ensures
        aggregate(records.push(record)) == add_record(
            aggregate(records),
            record.key,
            record.value,
        ),
{
    assert(records.push(record).drop_last() =~= records);
}

/// The summary of two sequences of records, one after the other, is the merge
/// of their summaries.
pub proof fn lemma_aggregate_concat(first: Seq<Record>, second: Seq<Record>)
    ensures
        aggregate(first + second) == merge_maps(aggregate(first), aggregate(second)),
    decreases second.len(),
{
    if second.len() == 0 {
        assert(first + second =~= first);
        lemma_merge_empty(aggregate(first));
    } else {
        let last = second.last();
        assert((first + second).drop_last() =~= first + second.drop_last());
        lemma_aggregate_concat(first, second.drop_last());
        lemma_merge_add_record(
            aggregate(first),
            aggregate(second.drop_last()),
            last.key,
            last.value,
        );
    }
}

/// A summary holds exactly the keys of its records, and counts for each key no
/// more values than there are records.
pub proof fn lemma_aggregate_keys(records: Seq<Record>, key: Seq<u8>)
    ensures
        aggregate(records).contains_key(key) <==> exists|i: int|
            0 <= i < records.len() && #[trigger] records[i].key == key,
        aggregate(records).contains_key(key) ==> 1 <= aggregate(records)[key].count
            <= records.len(),
    decreases records.len(),
{
    if records.len() > 0 {
        let front = records.drop_last();
        lemma_aggregate_keys(front, key);
        if aggregate(front).contains_key(key) {
            let i = choose|i: int| 0 <= i < front.len() && #[trigger] front[i].key == key;
            assert(records[i].key == key);
        }
        if records.last().key == key {
            assert(records[records.len() - 1].key == key);
        }
        if exists|i: int| 0 <= i < records.len() && #[trigger] records[i].key == key {
            let i = choose|i: int| 0 <= i < records.len() && #[trigger] records[i].key == key;
            if i < front.len() {
                assert(front[i].key == key);
            }
        }
    }
}

/// A key that occurs in exactly one record has that record's value as its
/// minimum, its maximum and its sum, and so as its mean.
pub proof fn lemma_single_occurrence(records: Seq<Record>, at: int)
    requires
        0 <= at < records.len(),
        forall|i: int| 0 <= i < records.len() && i != at ==> records[i].key != records[at].key,
    ensures
        aggregate(records).contains_key(records[at].key),
        aggregate(records)[records[at].key] == Stats::single(records[at].value),
        aggregate(records)[records[at].key].mean() == records[at].value,
    decreases records.len(),
{
    let key = records[at].key;
    let front = records.drop_last();
    if at == records.len() - 1 {
        lemma_aggregate_keys(front, key);
        if aggregate(front).contains_key(key) {
            let i = choose|i: int| 0 <= i < front.len() && #[trigger] front[i].key == key;
            assert(records[i].key == key);
        }
    } else {
        assert(front[at] == records[at]);
        assert forall|i: int| 0 <= i < front.len() && i != at implies front[i].key
            != front[at].key by {
            assert(front[i] == records[i]);
        }
        lemma_single_occurrence(front, at);
        assert(records.last().key != key);
    }
}

} // verus!
