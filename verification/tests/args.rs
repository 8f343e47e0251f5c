use wikip::date::{date_from_ymd, Date};
use wikip::options::{build_options, ArgError, LogLevel};

fn d(year: u16, month: u8, day: u8) -> Date {
    Date { year, month, day }
}

fn b(s: &str) -> Option<Vec<u8>> {
    Some(s.as_bytes().to_vec())
}

#[test]
fn date_from_ymd_checks_the_triple() {
    assert_eq!(date_from_ymd(2024, 3, 1), Some(d(2024, 3, 1)));
    assert_eq!(date_from_ymd(2024, 2, 29), Some(d(2024, 2, 29)));
    assert_eq!(date_from_ymd(2023, 2, 29), None);
    assert_eq!(date_from_ymd(0, 1, 1), None);
    assert_eq!(date_from_ymd(-5, 1, 1), None);
    assert_eq!(date_from_ymd(10000, 1, 1), None);
    assert_eq!(date_from_ymd(2024, 13, 1), None);
    assert_eq!(date_from_ymd(2024, 4, 31), None);
}

#[test]
fn date_flag_alone_sets_the_start() {
    let o = build_options(b("2024-03-01"), None, None, None, None, None).unwrap();
    assert_eq!(o.date_options.date, d(2024, 3, 1));
    assert_eq!(o.date_options.duration, None);
    assert_eq!(o.date_options.week, None);
    assert_eq!(o.log_level, LogLevel::Warn);
    assert_eq!(o.output, None);
}

#[test]
fn range_start_takes_priority_over_date_flag() {
    let o = build_options(
        b("2024-03-10"),
        b("2024-03-01/2024-03-05"),
        None,
        None,
        None,
        None,
    )
    .unwrap();
    assert_eq!(o.date_options.date, d(2024, 3, 1));
    assert_eq!(o.date_options.duration, Some(4));
}

#[test]
fn range_duration_is_end_minus_start() {
    let o = build_options(None, b("2024-02-27/2024-03-02"), None, None, None, None).unwrap();
    assert_eq!(o.date_options.date, d(2024, 2, 27));
    assert_eq!(o.date_options.duration, Some(4));
    let back = build_options(None, b("2024-03-02/2024-02-27"), None, None, None, None).unwrap();
    assert_eq!(back.date_options.duration, Some(-4));
}

#[test]
fn range_without_end_has_no_duration() {
    let o = build_options(None, b("2024-03-01"), None, None, None, None).unwrap();
    assert_eq!(o.date_options.date, d(2024, 3, 1));
    assert_eq!(o.date_options.duration, None);
}

#[test]
fn missing_flags_default_to_today() {
    let today = d(2026, 10, 8);
    let o = build_options(None, None, None, None, None, Some(today)).unwrap();
    assert_eq!(o.date_options.date, today);
    assert_eq!(o.date_options.duration, None);
}

#[test]
fn no_flags_and_no_clock_is_an_error() {
    assert_eq!(
        build_options(None, None, None, None, None, None).err(),
        Some(ArgError::NoStartDate)
    );
}

#[test]
fn week_applies_only_beside_a_date_or_range() {
    let gated = build_options(None, None, b("1"), None, None, Some(d(2024, 3, 1))).unwrap();
    assert_eq!(gated.date_options.week, None);
    let used = build_options(b("2024-03-01"), None, b("1"), None, None, None).unwrap();
    assert_eq!(used.date_options.week, Some(1));
}

#[test]
fn malformed_flags_report_which_value_failed() {
    assert_eq!(
        build_options(b("2024-3-1"), None, None, None, None, None).err(),
        Some(ArgError::BadDate)
    );
    assert_eq!(
        build_options(None, b("2024-03-99/2024-03-05"), None, None, None, None).err(),
        Some(ArgError::BadDateRange)
    );
    assert_eq!(
        build_options(None, b("2024-03-01/otters"), None, None, None, None).err(),
        Some(ArgError::BadDateRange)
    );
    assert_eq!(
        build_options(b("2024-03-01"), None, b("many"), None, None, None).err(),
        Some(ArgError::BadWeek)
    );
    assert_eq!(
        build_options(b("2024-03-01"), None, None, b("warn"), None, None).err(),
        Some(ArgError::BadLevel)
    );
}

#[test]
fn explicit_level_and_output_are_kept() {
    let o = build_options(
        b("2024-03-01"),
        None,
        None,
        b("Debug"),
        b("report.csv"),
        None,
    )
    .unwrap();
    assert_eq!(o.log_level, LogLevel::Debug);
    assert_eq!(o.output, Some(b"report.csv".to_vec()));
}
