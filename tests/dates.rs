use veta::dates::{parse_duration, parse_human_date, relative_date, unit_seconds, ClockShift};

#[test]
fn test_sqlite_format_passthrough() {
    assert_eq!(parse_human_date("2026-01-28 12:00:00"), Some("2026-01-28 12:00:00".to_string()));
}

#[test]
fn test_date_only() {
    assert_eq!(parse_human_date("2026-01-28"), Some("2026-01-28 00:00:00".to_string()));
}

#[test]
fn test_named_dates() {
    assert!(parse_human_date("today").is_some());
    assert!(parse_human_date("yesterday").is_some());
    assert!(parse_human_date("tomorrow").is_some());
    assert!(parse_human_date("now").is_some());
}

#[test]
fn test_ago_pattern() {
    assert!(parse_human_date("2 days ago").is_some());
    assert!(parse_human_date("1 week ago").is_some());
    assert!(parse_human_date("3 hours ago").is_some());
    assert!(parse_human_date("30 minutes ago").is_some());
}

#[test]
fn test_in_future_pattern() {
    assert!(parse_human_date("in 2 days").is_some());
    assert!(parse_human_date("in 1 week").is_some());
}

#[test]
fn test_invalid() {
    assert!(parse_human_date("not a date").is_none());
    assert!(parse_human_date("blah blah").is_none());
}

#[test]
fn input_is_trimmed_and_lowercased() {
    assert_eq!(parse_human_date("  2026-01-28  "), Some("2026-01-28 00:00:00".to_string()));
    assert!(parse_human_date(" TODAY ").is_some());
    let today = parse_human_date("today").unwrap();
    assert!(today.ends_with(" 00:00:00"));
    assert_eq!(today.len(), 19);
}

#[test]
fn phrases_map_to_clock_shifts() {
    assert_eq!(relative_date("now"), Some(ClockShift::Now));
    assert_eq!(relative_date("today"), Some(ClockShift::Days(0)));
    assert_eq!(relative_date("yesterday"), Some(ClockShift::Days(-1)));
    assert_eq!(relative_date("tomorrow"), Some(ClockShift::Days(1)));
    assert_eq!(relative_date("2 days ago"), Some(ClockShift::Seconds(-172800)));
    assert_eq!(relative_date("in 1 week"), Some(ClockShift::Seconds(604800)));
    assert_eq!(relative_date("3h ago"), Some(ClockShift::Seconds(-10800)));
    assert_eq!(relative_date("in 2 months"), Some(ClockShift::Seconds(5184000)));
    assert_eq!(relative_date("2 fortnights ago"), None);
    assert_eq!(relative_date("ago"), None);
    assert_eq!(relative_date("in"), None);
}

#[test]
fn durations_and_units() {
    assert_eq!(parse_duration("30 minutes"), Some(1800));
    assert_eq!(parse_duration("1yr"), Some(31536000));
    assert_eq!(parse_duration("5"), None);
    assert_eq!(parse_duration("d5"), None);
    assert_eq!(parse_duration("1 2 3"), None);
    assert_eq!(parse_duration("99999999999999 years"), None);
    assert_eq!(unit_seconds("secs"), Some(1));
    assert_eq!(unit_seconds("hours"), Some(3600));
    assert_eq!(unit_seconds("ss"), None);
}

#[test]
fn date_only_is_written_back_in_full() {
    assert_eq!(parse_human_date("2026-1-5"), Some("2026-01-05 00:00:00".to_string()));
    assert_eq!(parse_human_date("2026-13-40"), None);
}
