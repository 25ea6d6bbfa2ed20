use station_stats::scan::{compute, FormatError};
use station_stats::stats::StationData;
use station_stats::table::Table;

fn data(min: i64, max: i64, sum: i128, count: usize) -> StationData {
    StationData { min_report: min, max_report: max, report_sum: sum, report_count: count }
}

fn scanned<'a>(text: &'a [u8], start_offset: usize, len: usize) -> Table<'a> {
    match compute(text, start_offset, len) {
        Ok(table) => table,
        Err(error) => panic!("line at {} is malformed", error.line_start),
    }
}

/// The keys that a scan of the range found, in ascending order, as text.
fn keys_in(text: &[u8], start_offset: usize, len: usize) -> Vec<String> {
    scanned(text, start_offset, len)
        .into_sorted()
        .iter()
        .map(|entry| String::from_utf8(entry.0.to_vec()).unwrap())
        .collect()
}

fn failure(text: &[u8]) -> Option<usize> {
    match compute(text, 0, text.len()) {
        Ok(_) => None,
        Err(FormatError { line_start }) => Some(line_start),
    }
}

const THREE: &[u8] = b"A;1.0\nB;2.0\nC;3.0\n";

#[test]
fn the_whole_buffer_is_one_range() {
    let table = scanned(b"Hamburg;12.0\nBremen;-3.4\nHamburg;8.0\n", 0, 37);
    assert_eq!(table.get(b"Hamburg"), Some(data(80, 120, 200, 2)));
    assert_eq!(table.get(b"Bremen"), Some(data(-34, -34, -34, 1)));
    assert_eq!(table.into_sorted().len(), 2);
}

#[test]
fn an_empty_buffer_has_no_records() {
    assert!(scanned(b"", 0, 0).into_sorted().is_empty());
}

#[test]
fn a_range_at_offset_zero_keeps_its_first_line() {
    assert_eq!(keys_in(THREE, 0, 1), vec!["A"]);
    assert_eq!(keys_in(THREE, 0, 5), vec!["A"]);
}

#[test]
fn an_empty_range_at_offset_zero_scans_nothing() {
    assert!(keys_in(THREE, 0, 0).is_empty());
}

#[test]
fn a_range_elsewhere_gives_up_the_line_it_starts_in() {
    assert_eq!(keys_in(THREE, 1, 17), vec!["B", "C"]);
    assert_eq!(keys_in(THREE, 3, 15), vec!["B", "C"]);
    assert_eq!(keys_in(THREE, 5, 13), vec!["B", "C"]);
}

#[test]
fn a_range_goes_on_to_the_newline_at_or_after_its_end() {
    assert_eq!(keys_in(THREE, 0, 8), vec!["A", "B"]);
    assert_eq!(keys_in(THREE, 0, 11), vec!["A", "B"]);
    assert_eq!(keys_in(THREE, 0, 12), vec!["A", "B", "C"]);
}

#[test]
fn a_newline_on_the_boundary_ends_the_earlier_range() {
    // the newline of the first record is at offset 5
    assert_eq!(keys_in(THREE, 0, 5), vec!["A"]);
    assert_eq!(keys_in(THREE, 5, 13), vec!["B", "C"]);
}

#[test]
fn a_separator_on_the_boundary_leaves_the_record_to_the_earlier_range() {
    // the separator of the second record is at offset 7
    assert_eq!(keys_in(THREE, 0, 7), vec!["A", "B"]);
    assert_eq!(keys_in(THREE, 7, 11), vec!["C"]);
}

#[test]
fn a_record_that_starts_on_the_boundary_belongs_to_the_earlier_range() {
    // the second record starts at offset 6
    assert_eq!(keys_in(THREE, 0, 6), vec!["A", "B"]);
    assert_eq!(keys_in(THREE, 6, 12), vec!["C"]);
}

#[test]
fn every_split_in_two_counts_each_record_once() {
    let text = b"A;1.0\nBB;-2.5\n;0.3\nA;7.7\nCCCCCCCCCC;12.3\nBB;0.0\nA;-9.9\n";
    let whole = scanned(text, 0, text.len()).into_sorted();
    assert_eq!(whole.len(), 4);
    for split in 0..=text.len() {
        let mut merged = scanned(text, 0, split);
        let second = scanned(text, split, text.len() - split);
        let first_count: usize =
            merged.clone().into_sorted().iter().map(|entry| entry.1.report_count).sum();
        let second_count: usize =
            second.clone().into_sorted().iter().map(|entry| entry.1.report_count).sum();
        assert_eq!(first_count + second_count, 7, "split at {}", split);
        merged.merge(second);
        assert_eq!(merged.into_sorted(), whole, "split at {}", split);
    }
}

#[test]
fn every_split_in_three_counts_each_record_once() {
    let text = b"x;1.0\ny;2.0\nx;3.0\n\xc3\xa9t\xc3\xa9;-4.0\ny;5.0\n";
    let whole = scanned(text, 0, text.len()).into_sorted();
    for first in 0..=text.len() {
        for second in first..=text.len() {
            let mut merged = scanned(text, 0, first);
            merged.merge(scanned(text, first, second - first));
            merged.merge(scanned(text, second, text.len() - second));
            assert_eq!(merged.into_sorted(), whole, "split at {} and {}", first, second);
        }
    }
}

#[test]
fn a_range_inside_one_line_scans_nothing() {
    let text = b"short;1.0\nquite-a-long-station-name;2.0\nlast;3.0\n";
    assert!(keys_in(text, 12, 10).is_empty());
    assert!(keys_in(text, 10, 5).is_empty());
    assert_eq!(keys_in(text, 9, 1), vec!["quite-a-long-station-name"]);
}

#[test]
fn bytes_behind_the_last_newline_are_no_record() {
    assert_eq!(keys_in(b"A;1.0\nB;2.0", 0, 11), vec!["A"]);
    assert_eq!(keys_in(b"A;1.0\nB;2", 0, 9), vec!["A"]);
    assert_eq!(keys_in(b"A;1.0\nrubbish", 0, 13), vec!["A"]);
    assert!(keys_in(b"A;1.0", 0, 5).is_empty());
    assert!(keys_in(b"A;1.0\nB;2.0", 3, 8).is_empty());
    assert!(keys_in(b"A;1.0\nB;2.0", 8, 3).is_empty());
}

#[test]
fn a_scan_ends_at_the_end_of_the_buffer() {
    assert_eq!(keys_in(THREE, 13, 5), Vec::<String>::new());
    assert_eq!(keys_in(THREE, 18, 0), Vec::<String>::new());
    assert_eq!(keys_in(THREE, 11, 7), vec!["C"]);
}

#[test]
fn an_empty_key_is_a_key() {
    let table = scanned(b";1.5\n;-0.5\n", 0, 11);
    assert_eq!(table.get(b""), Some(data(-5, 15, 10, 2)));
}

#[test]
fn a_key_may_hold_any_byte_but_separator_and_newline() {
    let text = b"a b\t=/{},.-\x00\xff;1.0\n";
    let table = scanned(text, 0, text.len());
    assert_eq!(table.get(b"a b\t=/{},.-\x00\xff"), Some(data(10, 10, 10, 1)));
}

#[test]
fn values_are_decoded_in_tenths() {
    let text = b"k;-99.9\nk;99.9\nk;0.0\nk;-0.1\nk;5.0\nk;12.3\n";
    let table = scanned(text, 0, text.len());
    assert_eq!(table.get(b"k"), Some(data(-999, 999, -1 + 50 + 123, 6)));
}

#[test]
fn a_line_without_separator_is_malformed() {
    assert_eq!(failure(b"A1.0\n"), Some(0));
    assert_eq!(failure(b"A;1.0\nB 2.0\nC;3.0\n"), Some(6));
    assert_eq!(failure(b"\n"), Some(0));
    assert_eq!(failure(b"A;1.0\n\nB;2.0\n"), Some(6));
}

#[test]
fn a_line_with_a_bad_value_is_malformed() {
    assert_eq!(failure(b"A;\n"), Some(0));
    assert_eq!(failure(b"A;1\n"), Some(0));
    assert_eq!(failure(b"A;1.23\n"), Some(0));
    assert_eq!(failure(b"A;100.0\n"), Some(0));
    assert_eq!(failure(b"A;-100.0\n"), Some(0));
    assert_eq!(failure(b"A;1,0\n"), Some(0));
    assert_eq!(failure(b"A;+1.0\n"), Some(0));
    assert_eq!(failure(b"A;1.0 \n"), Some(0));
    assert_eq!(failure(b"A;1.0\r\n"), Some(0));
    assert_eq!(failure(b"A;abc\n"), Some(0));
    assert_eq!(failure(b"ok;1.0\nA;1.x\n"), Some(7));
}

#[test]
fn a_line_with_two_separators_is_malformed() {
    assert_eq!(failure(b"A;B;1.0\n"), Some(0));
    assert_eq!(failure(b"A;1.0;\n"), Some(0));
    assert_eq!(failure(b"A;;1.0\n"), Some(0));
    assert_eq!(failure(b"ok;1.0\nok;2.0\nA;1.0;2.0\n"), Some(14));
}

#[test]
fn the_first_malformed_line_is_reported() {
    assert_eq!(failure(b"A;1.0\nbad\nB;2.0\nworse\n"), Some(6));
    assert_eq!(failure(b"bad\nworse\n"), Some(0));
}

#[test]
fn a_buffer_of_records_has_no_malformed_line() {
    assert_eq!(failure(THREE), None);
    assert_eq!(failure(b""), None);
    assert_eq!(failure(b"no newline, no line"), None);
}

#[test]
fn a_malformed_line_fails_only_the_range_it_belongs_to() {
    let text = b"A;1.0\nbad\nB;2.0\n";
    // the malformed line starts at offset 6
    assert_eq!(compute(text, 0, 5).map(|table| table.into_sorted().len()), Ok(1));
    assert_eq!(compute(text, 0, 6).err(), Some(FormatError { line_start: 6 }));
    assert_eq!(compute(text, 5, 11).err(), Some(FormatError { line_start: 6 }));
    assert_eq!(compute(text, 6, 10).map(|table| table.into_sorted().len()), Ok(1));
    assert_eq!(compute(text, 9, 7).map(|table| table.into_sorted().len()), Ok(1));
    assert_eq!(compute(text, 10, 6).map(|table| table.into_sorted().len()), Ok(0));
}
