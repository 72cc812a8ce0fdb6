use fivepoints_calc::data::{find_data_row, scan_data_text, DataFailure, DataLineError};
use fivepoints_calc::timestamp::{Timestamp, TimestampError};

const FILLER: &str = "f5 f6 f7 f8 f9 f10 f11 f12 f13 f14";

fn row(stamp: &str, freq: &str, source: &str, amp: &str, snr: &str, mjd: &str) -> String {
    format!("{stamp} {freq} {source} x {amp} {snr} {FILLER} {mjd}")
}

#[test]
fn rows_at_the_frequency_are_read_in_order() {
    let text = format!(
        "# header\n\n{}\n{}\n{}\n",
        row("2026/191T12:34:56", "c", "3C84", "0.0461", "123.4", "60500.5"),
        row("2026/191T12:35:56", "x", "3C84", "0.0500", "99.0", "60500.6"),
        row("2026/191 12:36:56", "C", "OJ287", "0.0300", "50.0", "60500.7"),
    );
    let scan = scan_data_text(&text, "c");
    assert!(scan.failure.is_none());
    assert_eq!(scan.rows.len(), 2);
    let first = &scan.rows[0];
    assert_eq!(first.line, 3);
    assert_eq!(first.time, Timestamp { year: 26, doy: 191, seconds: 45296 });
    assert_eq!(first.source, "3C84");
    assert_eq!(first.amplitude, "0.0461");
    assert_eq!(first.snr, "123.4");
    assert_eq!(first.mjd, "60500.5");
    let second = &scan.rows[1];
    assert_eq!(second.line, 5);
    assert_eq!(second.source, "OJ287");
    assert_eq!(second.time.seconds, 12 * 3600 + 36 * 60 + 56);
}

#[test]
fn frequency_is_matched_without_case() {
    let text = row("2026/191T12:34:56", "C", "3C84", "1", "2", "3");
    let scan = scan_data_text(&text, "c");
    assert_eq!(scan.rows.len(), 1);
    let scan = scan_data_text(&text, "K");
    assert!(matches!(scan.failure, Some(DataFailure::NoRows)));
    // the first token naming the frequency counts, wherever it stands
    let scan = scan_data_text(&text, "X");
    assert!(matches!(scan.failure, Some(DataFailure::Line { line: 1, error: DataLineError::ShortRow })));
}

#[test]
fn crlf_and_indented_lines() {
    let text = format!("  {}\r\n", row("2026/191T12:34:56", "c", "3C84", "1", "2", "3"));
    let scan = scan_data_text(&text, "c");
    assert_eq!(scan.rows.len(), 1);
    assert_eq!(scan.rows[0].mjd, "3");
}

#[test]
fn short_row_stops_reading() {
    let good = row("2026/191T12:34:56", "c", "3C84", "1", "2", "3");
    let text = format!("{good}\n2026/191T12:34:56 c 3C84 x 1 2\n{good}\n");
    let scan = scan_data_text(&text, "c");
    assert_eq!(scan.rows.len(), 1);
    match scan.failure {
        Some(DataFailure::Line { line: 2, error: DataLineError::ShortRow }) => {}
        other => panic!("unexpected {:?}", other),
    }
}

#[test]
fn bad_timestamp_stops_reading() {
    let text = row("2026/191T25:00:00", "c", "3C84", "1", "2", "3");
    let scan = scan_data_text(&text, "c");
    assert!(scan.rows.is_empty());
    match scan.failure {
        Some(DataFailure::Line { line: 1, error: DataLineError::Timestamp(TimestampError::InvalidFields { hour: 25, .. }) }) => {}
        other => panic!("unexpected {:?}", other),
    }
    let text = row("c0", "c", "3C84", "1", "2", "3");
    let scan = scan_data_text(&text, "c");
    match scan.failure {
        Some(DataFailure::Line { line: 1, error: DataLineError::Timestamp(TimestampError::NeedsDateAndTime) }) => {}
        other => panic!("unexpected {:?}", other),
    }
}

#[test]
fn frequency_first_has_no_timestamp() {
    let text = format!("c 3C84 x 1 2 {FILLER} 3 4");
    let scan = scan_data_text(&text, "c");
    match scan.failure {
        Some(DataFailure::Line { line: 1, error: DataLineError::Timestamp(TimestampError::NoPrecedingTimestamp) }) => {}
        other => panic!("unexpected {:?}", other),
    }
}

#[test]
fn empty_file_has_no_rows() {
    assert!(matches!(scan_data_text("", "c").failure, Some(DataFailure::NoRows)));
    assert!(matches!(scan_data_text("# only\n\n", "c").failure, Some(DataFailure::NoRows)));
}

#[test]
fn lookup_finds_first_row_with_time_and_source() {
    let text = format!(
        "{}\n{}\n{}\n",
        row("2026/191T12:34:56", "c", "3C84", "1", "2", "3"),
        row("2026/191T12:34:56", "c", "OJ287", "4", "5", "6"),
        row("2026/191T12:34:56", "c", "OJ287", "7", "8", "9"),
    );
    let scan = scan_data_text(&text, "c");
    let t = Timestamp { year: 26, doy: 191, seconds: 45296 };
    assert_eq!(find_data_row(&scan.rows, t, &"OJ287".to_string()), Some(1));
    assert_eq!(find_data_row(&scan.rows, t, &"3C84".to_string()), Some(0));
    assert_eq!(find_data_row(&scan.rows, t, &"3c84".to_string()), None);
    let later = Timestamp { year: 26, doy: 191, seconds: 45297 };
    assert_eq!(find_data_row(&scan.rows, later, &"OJ287".to_string()), None);
}
