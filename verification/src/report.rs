//! The text of a summary: `{key=min/mean/max, ...}`, the keys in ascending
//! order, each number with exactly one fractional digit.

use crate::decimal::{push_tenths, tenths_text};
use crate::listing::{lemma_sorted_listing_is, sorted_listing};
use crate::records::Record;
use crate::stats::{StationData, Stats};
use crate::summary::{aggregate, lemma_single_occurrence, Summary};
use crate::table::{entries_view, Table, MAX_GROUPS};
use vstd::prelude::*;
use vstd::utf8::{encode_utf8, valid_utf8};

verus! {

/// The longest key that the output buffer is laid out for.
pub const MAX_GROUP_NAME_LEN: usize = 100;

pub const OPEN_BRACE: u8 = 123;

pub const CLOSE_BRACE: u8 = 125;

pub const EQUALS: u8 = 61;

pub const SLASH: u8 = 47;

pub const COMMA: u8 = 44;

pub const SPACE: u8 = 32;

/// The text of one entry: `key=min/mean/max`.
pub open spec fn entry_text(key: Seq<u8>, stats: Stats) -> Seq<u8> {
    key + seq![EQUALS] + tenths_text(stats.min) + seq![SLASH] + tenths_text(stats.mean())
        + seq![SLASH] + tenths_text(stats.max)
}

/// The texts of the entries, with `, ` between one and the next.
pub open spec fn entries_text(listing: Seq<(Seq<u8>, Stats)>) -> Seq<u8>
    decreases listing.len(),
{
    if listing.len() == 0 {
        Seq::empty()
    } else if listing.len() == 1 {
        entry_text(listing[0].0, listing[0].1)
    } else {
        entries_text(listing.drop_last()) + seq![COMMA, SPACE] + entry_text(
            listing.last().0,
            listing.last().1,
        )
    }
}

/// The text of a listing: its entries in braces.
pub open spec fn listing_text(listing: Seq<(Seq<u8>, Stats)>) -> Seq<u8> {
    seq![OPEN_BRACE] + entries_text(listing) + seq![CLOSE_BRACE]
}

/// The text of a summary: its entries in ascending order of their keys.
pub open spec fn summary_text(summary: Summary) -> Seq<u8> {
    listing_text(sorted_listing(summary))
}

/// A key that occurs in exactly one record is written with that record's
/// value as its minimum, its mean and its maximum.
pub proof fn lemma_single_occurrence_text(records: Seq<Record>, at: int)
    requires
        0 <= at < records.len(),
        forall|i: int| 0 <= i < records.len() && i != at ==> records[i].key != records[at].key,
    ensures
        aggregate(records).contains_key(records[at].key),
        entry_text(records[at].key, aggregate(records)[records[at].key]) == records[at].key
            + seq![EQUALS] + tenths_text(records[at].value) + seq![SLASH] + tenths_text(
            records[at].value,
        ) + seq![SLASH] + tenths_text(records[at].value),
{
    lemma_single_occurrence(records, at);
}

/// Appends `bytes` to `out`.
fn push_bytes(out: &mut Vec<u8>, bytes: &[u8])
    ensures
        final(out)@ == old(out)@ + bytes@,
{
    let mut i: usize = 0;
    while i < bytes.len()
        invariant
            0 <= i <= bytes.len(),
            out@ == old(out)@ + bytes@.take(i as int),
        decreases bytes.len() - i,
    {
        out.push(bytes[i]);
        assert(bytes@.take(i + 1) =~= bytes@.take(i as int).push(bytes@[i as int]));
        i += 1;
    }
    assert(bytes@.take(i as int) =~= bytes@);
}

/// Writes the entries out in the order in which they stand, as
/// `{key=min/mean/max, ...}`.
pub fn format_result(reports_array: &Vec<(&[u8], StationData)>) -> (output: Vec<u8>)
    requires
        forall|i: int|
            0 <= i < reports_array.len() ==> (#[trigger] reports_array[i]).1.well_formed()
                && reports_array[i].1.report_count >= 1,
    ensures
        output@ == listing_text(entries_view(reports_array@)),
{
    let ghost listing = entries_view(reports_array@);
    let mut output: Vec<u8> = Vec::with_capacity((MAX_GROUP_NAME_LEN + (3 * 4)) * MAX_GROUPS + 2);
    output.push(OPEN_BRACE);
    let mut add_comma = false;
    let mut i: usize = 0;
    while i < reports_array.len()
        invariant
            0 <= i <= reports_array.len(),
            listing == entries_view(reports_array@),
            add_comma == (i > 0),
            output@ == seq![OPEN_BRACE] + entries_text(listing.take(i as int)),
            forall|i: int|
                0 <= i < reports_array.len() ==> (#[trigger] reports_array[i]).1.well_formed()
                    && reports_array[i].1.report_count >= 1,
        decreases reports_array.len() - i,
    {
        let ghost so_far = output@;
        if add_comma {
            output.push(COMMA);
            output.push(SPACE);
        } else {
            add_comma = true;
        }
        let (name, report) = reports_array[i];
        assert(reports_array[i as int].1.well_formed());
        push_bytes(&mut output, name);
        output.push(EQUALS);
        push_tenths(&mut output, report.min_report as i128);
        output.push(SLASH);
        push_tenths(&mut output, report.mean());
        output.push(SLASH);
        push_tenths(&mut output, report.max_report as i128);
        proof {
            let next = listing.take(i + 1);
            assert(next.drop_last() =~= listing.take(i as int));
            assert(next.last() == (name@, report@));
            let entry = entry_text(name@, report@);
            if i == 0 {
                assert(listing.take(0).len() == 0);
                assert(output@ =~= seq![OPEN_BRACE] + entry);
            } else {
                assert(output@ =~= so_far + seq![COMMA, SPACE] + entry);
            }
            assert(output@ =~= seq![OPEN_BRACE] + entries_text(next));
        }
        i += 1;
    }
    assert(listing.take(i as int) =~= listing);
    output.push(CLOSE_BRACE);
    output
}

/// The text of a table, as bytes: its entries in ascending order of their
/// keys.
pub fn render(table: Table) -> (output: Vec<u8>)
    requires
        table.well_formed(),
    ensures
        output@ == summary_text(table@),
{
    let ghost summary = table@;
    let reports_array = table.into_sorted();
    proof {
        lemma_sorted_listing_is(entries_view(reports_array@), summary);
    }
    format_result(&reports_array)
}

/// `String::from_utf8`: the string whose UTF-8 encoding the bytes are, where
/// they are the encoding of one, else `None`.
#[verifier::external_body]
fn string_from_utf8(bytes: Vec<u8>) -> (text: Option<String>)
    ensures
        match text {
            Some(string) => valid_utf8(bytes@) && encode_utf8(string@) == bytes@,
            None => !valid_utf8(bytes@),
        },
{
    String::from_utf8(bytes).ok()
}

/// The text of a table as a string, where the keys make it one: keys are
/// written out byte for byte, so a key that is not UTF-8 leaves no string.
pub fn render_text(table: Table) -> (output: Option<String>)
    requires
        table.well_formed(),
    ensures
        match output {
            Some(string) => valid_utf8(summary_text(table@)) && encode_utf8(string@)
                == summary_text(table@),
            None => !valid_utf8(summary_text(table@)),
        },
{
    string_from_utf8(render(table))
}

} // verus!
