use bite::calendar::civil_from_days;
use bite::logging::{
    clear, clock_stamp_at, entries, error, info, iso_stamp_at, log, timestamp_clock, timestamp_iso, warn,
    Level, LogBuffer, MAX_ENTRIES,
};

#[test]
fn levels_carry_the_labels_the_log_window_shows() {
    assert_eq!(Level::Info.label(), "INFO");
    assert_eq!(Level::Warning.label(), "WARN");
    assert_eq!(Level::Error.label(), "ERROR");
}

#[test]
fn the_clock_stamp_has_hours_minutes_seconds_and_milliseconds() {
    let stamp = timestamp_clock();
    assert_eq!(stamp.len(), 12);
    assert_eq!(stamp.as_bytes()[2], b':');
    assert_eq!(stamp.as_bytes()[5], b':');
    assert_eq!(stamp.as_bytes()[8], b'.');
}

#[test]
fn the_epoch_converts_to_the_first_of_january_nineteen_seventy() {
    assert_eq!(civil_from_days(0), (1970, 1, 1));
    assert_eq!(civil_from_days(31), (1970, 2, 1));
}

#[test]
fn entries_are_recorded_in_order() {
    let mut buffer = LogBuffer::new();
    clear(&mut buffer);
    log(&mut buffer, Level::Info, "first".to_string());
    log(&mut buffer, Level::Error, "second".to_string());
    let entries = entries(&buffer);
    assert_eq!(entries.len(), 2);
    assert_eq!(entries[0].message, "first");
    assert_eq!(entries[1].level, Level::Error);
    clear(&mut buffer);
    assert!(bite::logging::entries(&buffer).is_empty());
}

#[test]
fn a_clock_stamp_wraps_at_midnight_and_pads_every_field() {
    assert_eq!(clock_stamp_at(0, 0), "00:00:00.000");
    assert_eq!(clock_stamp_at(3_723, 45), "01:02:03.045");
    assert_eq!(clock_stamp_at(86_400 + 59, 999), "00:00:59.999");
}

#[test]
fn an_iso_stamp_names_the_day_and_the_time_in_utc() {
    assert_eq!(iso_stamp_at(0, 0), "1970-01-01T00:00:00Z");
    assert_eq!(iso_stamp_at(1_000_000_000, 1_000_000_000), "2001-09-09T01:46:40Z");
    let stamp = timestamp_iso();
    assert_eq!(stamp.len(), 20);
    assert!(stamp.ends_with('Z'));
}

#[test]
fn dates_before_the_epoch_and_leap_days_convert() {
    assert_eq!(civil_from_days(-1), (1969, 12, 31));
    assert_eq!(civil_from_days(11_016), (2000, 2, 29));
    assert_eq!(civil_from_days(19_723), (2024, 1, 1));
}

#[test]
fn every_level_writes_a_line_for_the_log_file() {
    let mut buffer = LogBuffer::new();
    let line = info(&mut buffer, "ready".to_string());
    assert!(line.ends_with(" [INFO] ready"));
    assert_eq!(line.len(), 12 + " [INFO] ready".len());
    let line = warn(&mut buffer, "slow".to_string());
    assert!(line.ends_with(" [WARN] slow"));
    let line = error(&mut buffer, "failed".to_string());
    assert!(line.ends_with(" [ERROR] failed"));
    let held = entries(&buffer);
    assert_eq!(held.len(), 3);
    assert_eq!(held[1].level, Level::Warning);
}

#[test]
fn the_buffer_keeps_only_the_newest_lines() {
    let mut buffer = LogBuffer::new();
    for index in 0..MAX_ENTRIES + 5 {
        info(&mut buffer, format!("line {index}"));
    }
    let held = entries(&buffer);
    assert_eq!(held.len(), MAX_ENTRIES);
    assert_eq!(held[0].message, "line 5");
    assert_eq!(held[MAX_ENTRIES - 1].message, format!("line {}", MAX_ENTRIES + 4));
}

#[test]
fn the_clock_reads_as_a_time_of_day() {
    let (hours, minutes, seconds, milliseconds) = bite::logging::parts();
    assert!(hours < 24 && minutes < 60 && seconds < 60 && milliseconds < 1000);
    assert_eq!(bite::logging::clock_parts(90_061, 7), (1, 1, 1, 7));
}
