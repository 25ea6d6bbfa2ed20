use station_stats::pipeline::{report, summarize, ReportError};
use station_stats::report::{format_result, render, render_text};
use station_stats::scan::FormatError;
use station_stats::stats::StationData;
use station_stats::table::Table;

fn data(min: i64, max: i64, sum: i128, count: usize) -> StationData {
    StationData { min_report: min, max_report: max, report_sum: sum, report_count: count }
}

fn key(bytes: &[u8]) -> &[u8] {
    bytes
}

fn text_of(input: &[u8]) -> String {
    report(input, 1).unwrap()
}

#[test]
fn entries_are_written_in_the_order_given() {
    let entries = vec![
        (key(b"B"), data(50, 50, 50, 1)),
        (key(b"A"), data(-50, 50, 0, 2)),
        (key(b"C"), data(-999, 999, 10, 4)),
    ];
    assert_eq!(
        format_result(&entries),
        b"{B=5.0/5.0/5.0, A=-5.0/0.0/5.0, C=-99.9/0.3/99.9}"
    );
}

#[test]
fn no_entries_are_written_as_empty_braces() {
    assert_eq!(format_result(&Vec::new()), b"{}");
    assert_eq!(render(Table::new()), b"{}");
    assert_eq!(render_text(Table::new()), Some(String::from("{}")));
}

#[test]
fn one_entry_is_written_without_a_comma() {
    let entries = vec![(key(b"Hamburg"), data(80, 120, 200, 2))];
    assert_eq!(format_result(&entries), b"{Hamburg=8.0/10.0/12.0}");
}

#[test]
fn a_table_is_written_with_its_keys_in_ascending_order() {
    let mut table = Table::new();
    for (name, value) in [("b", 10), ("a", 20), ("B", 30), ("ab", 40), ("A", 50), ("a", -20)] {
        table.record(name.as_bytes(), value);
    }
    assert_eq!(
        render(table.clone()),
        b"{A=5.0/5.0/5.0, B=3.0/3.0/3.0, a=-2.0/0.0/2.0, ab=4.0/4.0/4.0, b=1.0/1.0/1.0}"
    );
    assert_eq!(
        render_text(table),
        Some(String::from(
            "{A=5.0/5.0/5.0, B=3.0/3.0/3.0, a=-2.0/0.0/2.0, ab=4.0/4.0/4.0, b=1.0/1.0/1.0}"
        ))
    );
}

#[test]
fn a_key_that_occurs_once_has_its_value_three_times() {
    for literal in ["0.0", "0.1", "-0.1", "5.0", "-5.0", "12.3", "-12.3", "99.9", "-99.9"] {
        let input = format!("before;1.0\nK;{}\nafter;2.0\nbefore;3.0\n", literal);
        let expected = format!(
            "{{K={}/{}/{}, after=2.0/2.0/2.0, before=1.0/2.0/3.0}}",
            literal, literal, literal
        );
        assert_eq!(text_of(input.as_bytes()), expected);
    }
}

#[test]
fn the_mean_is_rounded_half_away_from_zero() {
    assert_eq!(text_of(b"A;0.1\nA;0.2\n"), "{A=0.1/0.2/0.2}");
    assert_eq!(text_of(b"A;-0.1\nA;-0.2\n"), "{A=-0.2/-0.2/-0.1}");
    assert_eq!(text_of(b"A;1.0\nA;1.5\n"), "{A=1.0/1.3/1.5}");
    assert_eq!(text_of(b"A;-1.0\nA;-1.5\n"), "{A=-1.5/-1.3/-1.0}");
    assert_eq!(text_of(b"A;0.0\nA;0.1\n"), "{A=0.0/0.1/0.1}");
    assert_eq!(text_of(b"A;0.0\nA;-0.1\n"), "{A=-0.1/-0.1/0.0}");
}

#[test]
fn the_mean_is_rounded_to_the_nearest_tenth() {
    assert_eq!(text_of(b"A;0.1\nA;0.0\nA;0.0\n"), "{A=0.0/0.0/0.1}");
    assert_eq!(text_of(b"A;0.1\nA;0.1\nA;0.0\n"), "{A=0.0/0.1/0.1}");
    assert_eq!(text_of(b"A;99.9\nA;99.9\nA;99.8\n"), "{A=99.8/99.9/99.9}");
    assert_eq!(text_of(b"A;99.9\nA;99.8\nA;99.8\n"), "{A=99.8/99.8/99.9}");
}

#[test]
fn a_negative_mean_that_rounds_to_zero_has_no_sign() {
    assert_eq!(text_of(b"A;-0.1\nA;0.0\nA;0.0\n"), "{A=-0.1/0.0/0.0}");
    assert_eq!(text_of(b"A;-0.0\n"), "{A=0.0/0.0/0.0}");
}

#[test]
fn literals_that_are_not_canonical_are_written_canonically() {
    assert_eq!(text_of(b"A;05.0\nB;-00.5\n"), "{A=5.0/5.0/5.0, B=-0.5/-0.5/-0.5}");
}

#[test]
fn the_report_is_the_same_for_every_number_of_workers() {
    let mut input = Vec::new();
    for i in 0..200i64 {
        let name = format!("station{}", (i * 37) % 23);
        let tenths = (i * 7919) % 1999 - 999;
        let sign = if tenths < 0 { "-" } else { "" };
        let line = format!("{};{}{}.{}\n", name, sign, tenths.abs() / 10, tenths.abs() % 10);
        input.extend_from_slice(line.as_bytes());
    }
    let expected = report(&input, 1).unwrap();
    assert!(expected.starts_with("{station0="));
    assert_eq!(expected.matches('=').count(), 23);
    for workers in 2..=300 {
        assert_eq!(report(&input, workers).unwrap(), expected, "{} workers", workers);
    }
    assert_eq!(report(&input, input.len()).unwrap(), expected);
    assert_eq!(report(&input, input.len() + 1).unwrap(), expected);
    assert_eq!(report(&input, 100_000).unwrap(), expected);
}

#[test]
fn the_scenarios_hold_for_every_number_of_workers() {
    for workers in 1..=30 {
        assert_eq!(
            report(b"Hamburg;12.0\nHamburg;8.0\n", workers),
            Ok(String::from("{Hamburg=8.0/10.0/12.0}"))
        );
        assert_eq!(
            report(b"A;-5.0\nB;5.0\nA;5.0\n", workers),
            Ok(String::from("{A=-5.0/0.0/5.0, B=5.0/5.0/5.0}"))
        );
        assert_eq!(report(b"", workers), Ok(String::from("{}")));
        assert_eq!(report(b"X;-99.9\n", workers), Ok(String::from("{X=-99.9/-99.9/-99.9}")));
    }
}

#[test]
fn keys_in_utf8_are_written_as_they_are() {
    let input = "Zürich;1.0\nÅrhus;2.0\nZagreb;3.0\n東京;4.0\n";
    assert_eq!(
        text_of(input.as_bytes()),
        "{Zagreb=3.0/3.0/3.0, Zürich=1.0/1.0/1.0, Århus=2.0/2.0/2.0, 東京=4.0/4.0/4.0}"
    );
}

#[test]
fn a_key_that_is_not_utf8_leaves_bytes_but_no_string() {
    let input = b"ok;1.0\n\xff\xfe;2.0\n";
    for workers in 1..=5 {
        assert_eq!(report(input, workers), Err(ReportError::NotText));
    }
    let table = summarize(input, 1).unwrap();
    assert_eq!(render(table.clone()), b"{ok=1.0/1.0/1.0, \xff\xfe=2.0/2.0/2.0}");
    assert_eq!(render_text(table), None);
}

#[test]
fn a_malformed_line_is_reported_for_every_number_of_workers() {
    let input = b"A;1.0\nB;2.0\nC3.0\nD;4.0\n;;\n";
    for workers in 1..=40 {
        assert_eq!(
            report(input, workers),
            Err(ReportError::Malformed { line_start: 12 }),
            "{} workers",
            workers
        );
        assert_eq!(
            summarize(input, workers).map(|table| table.into_sorted().len()),
            Err(FormatError { line_start: 12 })
        );
    }
}

#[test]
fn a_malformed_line_comes_before_a_key_that_is_not_utf8() {
    assert_eq!(report(b"\xff;1.0\nbad\n", 1), Err(ReportError::Malformed { line_start: 6 }));
}

#[test]
fn bytes_behind_the_last_newline_are_left_out_of_the_report() {
    assert_eq!(text_of(b"A;1.0\nB;2.0"), "{A=1.0/1.0/1.0}");
    assert_eq!(text_of(b"A;1.0"), "{}");
    for workers in 1..=12 {
        assert_eq!(report(b"A;1.0\nB;2.0", workers), Ok(String::from("{A=1.0/1.0/1.0}")));
    }
}

#[test]
fn summarize_gives_the_aggregates_of_all_records() {
    let table = summarize(b"A;-5.0\nB;5.0\nA;5.0\n", 2).unwrap();
    assert_eq!(table.get(b"A"), Some(data(-50, 50, 0, 2)));
    assert_eq!(table.get(b"B"), Some(data(50, 50, 50, 1)));
    assert_eq!(table.get(b"C"), None);
}
