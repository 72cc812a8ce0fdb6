use fivepoints_calc::data::scan_data_text;
use fivepoints_calc::schedule::{
    find_scans, match_scan, scan_schedule_text, OffsetSign, ScheduleEntry,
};
use fivepoints_calc::timestamp::Timestamp;
use OffsetSign::{Negative, Positive, Undefined, Zero};

const SKD: &str = "$EXPER I26191F\n\
$SKED\n\
* comment line\n\
3C84 26191120000 x 2.0 0.0 extra\n\
3C84 26191120100 x 0.0 0.0 extra\n\
short 26191120200 x\n\
3C84 bad-time x -2.0 0.0 extra\n\
3C84 26191120200 x -2.0 0.0 extra\n\
$HEAD\n\
3C84 26191120300 x 0.0 2.0 extra\n";

#[test]
fn schedule_reads_experiment_and_sked_entries() {
    let s = scan_schedule_text(SKD);
    assert_eq!(s.experiment.as_deref(), Some("I26191F"));
    assert_eq!(s.entries.len(), 3);
    assert_eq!(s.entries[0].line, 4);
    assert_eq!(s.entries[0].source, "3C84");
    assert_eq!(s.entries[0].time, Timestamp { year: 26, doy: 191, seconds: 12 * 3600 });
    assert_eq!(s.entries[0].az_offset, "2.0");
    assert_eq!(s.entries[0].el_offset, "0.0");
    assert_eq!(s.entries[2].line, 8);
    assert_eq!(s.entries[2].az_offset, "-2.0");
}

#[test]
fn lines_before_sked_are_ignored() {
    let s = scan_schedule_text("3C84 26191120000 x 2.0 0.0 extra\n$SKED\n");
    assert!(s.entries.is_empty());
    assert!(s.experiment.is_none());
}

#[test]
fn exper_without_name_keeps_earlier_name() {
    let s = scan_schedule_text("$EXPER A\n$EXPER\n");
    assert_eq!(s.experiment.as_deref(), Some("A"));
}

fn entry(source: &str, az: OffsetSign, el: OffsetSign, second: u32) -> ScheduleEntry {
    ScheduleEntry {
        source: source.to_string(),
        time: Timestamp { year: 26, doy: 191, seconds: second },
        az,
        el,
    }
}

fn cross(source: &str, first: OffsetSign, third: OffsetSign, fourth: OffsetSign, fifth: OffsetSign) -> Vec<ScheduleEntry> {
    vec![
        entry(source, first, Zero, 0),
        entry(source, Zero, Zero, 1),
        entry(source, third, Zero, 2),
        entry(source, Zero, fourth, 3),
        entry(source, Zero, fifth, 4),
    ]
}

#[test]
fn five_point_pattern_is_found() {
    let mut entries = vec![entry("other", Zero, Zero, 100)];
    entries.extend(cross("3C84", Positive, Negative, Positive, Negative));
    entries.extend(cross("OJ287", Negative, Positive, Negative, Positive));
    assert_eq!(find_scans(&entries), vec![1, 6]);
}

#[test]
fn pattern_needs_opposite_signs_one_source_and_numbers() {
    assert!(find_scans(&cross("3C84", Positive, Positive, Positive, Negative)).is_empty());
    assert!(find_scans(&cross("3C84", Positive, Negative, Negative, Negative)).is_empty());
    assert!(find_scans(&cross("3C84", Undefined, Negative, Positive, Negative)).is_empty());
    let mut mixed = cross("3C84", Positive, Negative, Positive, Negative);
    mixed[4].source = "OJ287".to_string();
    assert!(find_scans(&mixed).is_empty());
    let mut four = cross("3C84", Positive, Negative, Positive, Negative);
    four.pop();
    assert!(find_scans(&four).is_empty());
}

#[test]
fn match_scan_finds_rows_of_each_point() {
    let entries = cross("3C84", Positive, Negative, Positive, Negative);
    let text = "2026/001T00:00:00 c 3C84 x 1 2 f f f f f f f f f f 3\n\
                2026/001T00:00:02 c 3C84 x 1 2 f f f f f f f f f f 3\n";
    let mut shifted = entries;
    for (i, e) in shifted.iter_mut().enumerate() {
        e.time = Timestamp { year: 26, doy: 1, seconds: i as u32 };
    }
    let rows = scan_data_text(text, "c").rows;
    assert_eq!(match_scan(&rows, &shifted, 0), vec![Some(0), None, Some(1), None, None]);
}
