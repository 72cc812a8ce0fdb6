use fivepoints_calc::timestamp::{
    average_timestamp, parse_data_timestamp, parse_date_and_time, parse_schedule_timestamp, Timestamp,
    TimestampError,
};

fn ts(year: u16, doy: u16, seconds: u32) -> Timestamp {
    Timestamp { year, doy, seconds }
}

#[test]
fn new_keeps_two_digit_year_and_counts_seconds() {
    let t = Timestamp::new(2026, 191, 12, 34, 56).unwrap();
    assert_eq!(t, ts(26, 191, 12 * 3600 + 34 * 60 + 56));
}

#[test]
fn new_rejects_out_of_range_fields() {
    for (doy, h, m, s) in [(0u16, 0u32, 0u32, 0u32), (367, 0, 0, 0), (1, 24, 0, 0), (1, 0, 60, 0), (1, 0, 0, 60)] {
        match Timestamp::new(2026, doy, h, m, s) {
            Err(TimestampError::InvalidFields { doy: d, .. }) => assert_eq!(d, doy),
            other => panic!("unexpected {:?}", other),
        }
    }
    assert!(Timestamp::new(2026, 366, 23, 59, 59).is_ok());
}

#[test]
fn invalid_fields_message() {
    let e = Timestamp::new(2026, 0, 1, 2, 3).unwrap_err();
    assert_eq!(e.message(), "invalid timestamp fields: 2026/0 1:2:3");
}

#[test]
fn hms_splits_seconds() {
    assert_eq!(ts(26, 191, 45296).hms(), (12, 34, 56));
    assert_eq!(ts(26, 1, 0).hms(), (0, 0, 0));
    assert_eq!(ts(26, 1, 86399).hms(), (23, 59, 59));
}

#[test]
fn new_then_hms_gives_back_the_fields() {
    let t = Timestamp::new(1999, 5, 7, 8, 9).unwrap();
    assert_eq!(t.hms(), (7, 8, 9));
    assert_eq!(t.year, 99);
}

#[test]
fn display_text_is_zero_padded() {
    assert_eq!(ts(26, 191, 45296).to_text(), "2026/191T12:34:56");
    assert_eq!(ts(5, 7, 3723).to_text(), "2005/007T01:02:03");
    assert_eq!(ts(123, 1000, 0).to_text(), "20123/1000T00:00:00");
}

#[test]
fn parse_date_and_time_reads_fields() {
    assert_eq!(parse_date_and_time("2026/191", "12:34:56").unwrap(), ts(26, 191, 45296));
    assert_eq!(parse_date_and_time("+2026/0191", "01:02:03").unwrap(), ts(26, 191, 3723));
}

fn err_message(date: &str, time: &str) -> String {
    parse_date_and_time(date, time).unwrap_err().message()
}

#[test]
fn parse_date_and_time_errors() {
    assert_eq!(err_message("abc/1", "00:00:00"), "invalid year: abc/1");
    assert_eq!(err_message("70000/1", "00:00:00"), "invalid year: 70000/1");
    assert_eq!(err_message("2026", "00:00:00"), "invalid date: 2026");
    assert_eq!(err_message("2026/x", "00:00:00"), "invalid day of year: 2026/x");
    assert_eq!(err_message("2026/1/2", "00:00:00"), "invalid date: 2026/1/2");
    assert_eq!(err_message("2026/1", "x:1:2"), "invalid hour: x:1:2");
    assert_eq!(err_message("2026/1", "12"), "invalid time: 12");
    assert_eq!(err_message("2026/1", "12:-5"), "invalid minute: 12:-5");
    assert_eq!(err_message("2026/1", "12:30"), "invalid time: 12:30");
    assert_eq!(err_message("2026/1", "12:30:"), "invalid second: 12:30:");
    assert_eq!(err_message("2026/1", "12:30:00:00"), "invalid time: 12:30:00:00");
    assert_eq!(err_message("2026/1", "25:00:00"), "invalid timestamp fields: 2026/1 25:0:0");
}

fn strings(v: &[&str]) -> Vec<String> {
    v.iter().map(|s| s.to_string()).collect()
}

#[test]
fn data_timestamp_forms() {
    let one = strings(&["2026/191T12:34:56", "c"]);
    assert_eq!(parse_data_timestamp(&one, 1).unwrap(), ts(26, 191, 45296));
    let two = strings(&["x", "2026/191", "12:34:56", "c"]);
    assert_eq!(parse_data_timestamp(&two, 3).unwrap(), ts(26, 191, 45296));
    assert_eq!(parse_data_timestamp(&one, 0).unwrap_err().message(), "frequency has no preceding timestamp");
    let lone = strings(&["12:34:56", "c"]);
    assert_eq!(parse_data_timestamp(&lone, 1).unwrap_err().message(), "timestamp needs date and time tokens");
}

#[test]
fn schedule_timestamp_reads_eleven_digits() {
    assert_eq!(parse_schedule_timestamp("26191123456").unwrap(), ts(26, 191, 45296));
    assert_eq!(
        parse_schedule_timestamp("2619112345").unwrap_err().message(),
        "invalid schedule timestamp: 2619112345"
    );
    assert!(matches!(
        parse_schedule_timestamp("26191a23456"),
        Err(TimestampError::InvalidScheduleTimestamp(_))
    ));
    assert!(matches!(
        parse_schedule_timestamp("+2619112345"),
        Err(TimestampError::InvalidScheduleTimestamp(_))
    ));
    assert!(matches!(
        parse_schedule_timestamp("26000123456"),
        Err(TimestampError::InvalidFields { doy: 0, .. })
    ));
}

#[test]
fn tick_formula() {
    // 2026/191: 26 years of 365 days, 7 leap days (2000, 2004, ..., 2024), 190 days
    assert_eq!(ts(26, 191, 45296).tick(), (26 * 365 + 7 + 190) * 86400 + 45296);
    assert_eq!(ts(0, 1, 0).tick(), 0);
    assert_eq!(ts(1, 1, 0).tick(), 366 * 86400);
    assert_eq!(ts(2, 1, 0).tick(), 731 * 86400);
}

#[test]
fn tick_round_trip() {
    for t in [
        ts(0, 1, 0),
        ts(0, 366, 86399),
        ts(26, 191, 45296),
        ts(24, 366, 1),
        ts(25, 365, 86399),
        ts(99, 365, 86399),
        ts(65535, 200, 1),
    ] {
        assert_eq!(Timestamp::from_tick(t.tick()), t);
    }
}

#[test]
fn ticks_follow_the_calendar() {
    assert_eq!(ts(25, 365, 86399).tick() + 1, ts(26, 1, 0).tick());
    assert_eq!(ts(24, 366, 86399).tick() + 1, ts(25, 1, 0).tick());
    assert_eq!(ts(26, 10, 86399).tick() + 1, ts(26, 11, 0).tick());
}

#[test]
fn from_tick_of_negative_tick() {
    assert_eq!(Timestamp::from_tick(-1), ts(65535, 365, 86399));
    assert_eq!(Timestamp::from_tick(86400 + 5), ts(0, 2, 5));
}

#[test]
fn average_across_a_year_end() {
    let v = vec![ts(25, 365, 0), ts(26, 1, 0)];
    assert_eq!(average_timestamp(&v), Some(ts(25, 365, 43200)));
    let v = vec![ts(24, 366, 0), ts(25, 1, 0)];
    assert_eq!(average_timestamp(&v), Some(ts(24, 366, 43200)));
}

#[test]
fn average_rounds_halves_away_from_zero() {
    assert_eq!(average_timestamp(&vec![ts(26, 1, 0), ts(26, 1, 1)]), Some(ts(26, 1, 1)));
    assert_eq!(average_timestamp(&vec![ts(26, 1, 0), ts(26, 1, 1), ts(26, 1, 1)]), Some(ts(26, 1, 1)));
    assert_eq!(average_timestamp(&vec![ts(26, 5, 7)]), Some(ts(26, 5, 7)));
    assert_eq!(average_timestamp(&vec![]), None);
    // day-0 times lie before 2000/001: the ticks are -1 and -2, the mean -1.5 rounds to -2
    assert_eq!(average_timestamp(&vec![ts(0, 0, 86399), ts(0, 0, 86398)]), Some(ts(65535, 365, 86398)));
}

#[test]
fn display_text_reads_back() {
    for t in [ts(26, 191, 45296), ts(0, 1, 0), ts(99, 366, 86399)] {
        let text = t.to_text();
        let (date, time) = text.split_once('T').unwrap();
        assert_eq!(parse_date_and_time(date, time).unwrap(), t);
        let tokens = vec![text.clone(), "c".to_string()];
        assert_eq!(parse_data_timestamp(&tokens, 1).unwrap(), t);
    }
}
