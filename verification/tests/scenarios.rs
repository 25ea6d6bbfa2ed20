use station_stats::pipeline::{report, ReportError};

#[test]
fn hamburg_twice_with_a_single_worker() {
    let output = report(b"Hamburg;12.0\nHamburg;8.0\n", 1);
    assert_eq!(output, Ok(String::from("{Hamburg=8.0/10.0/12.0}")));
}

#[test]
fn keys_are_sorted_and_a_mean_of_opposites_is_zero() {
    let output = report(b"A;-5.0\nB;5.0\nA;5.0\n", 1);
    assert_eq!(output, Ok(String::from("{A=-5.0/0.0/5.0, B=5.0/5.0/5.0}")));
}

#[test]
fn empty_input_gives_empty_braces() {
    assert_eq!(report(b"", 1), Ok(String::from("{}")));
    assert_eq!(report(b"", 7), Ok(String::from("{}")));
}

#[test]
fn value_at_the_extreme_of_the_range() {
    assert_eq!(report(b"X;-99.9\n", 1), Ok(String::from("{X=-99.9/-99.9/-99.9}")));
}

#[test]
fn a_line_without_separator_is_reported() {
    assert_eq!(report(b"A;1.0\nB2.0\nC;3.0\n", 1), Err(ReportError::Malformed { line_start: 6 }));
}
