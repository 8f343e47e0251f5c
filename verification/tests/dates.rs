use wikip::date::{date_at, date_succ, date_to_bytes, day_index_of, parse_date, Date};
use wikip::options::{parse_level, parse_week, DateOptions, LogLevel};
use wikip::resolve::resolve;
use wikip::week::bucket;

fn d(year: u16, month: u8, day: u8) -> Date {
    Date { year, month, day }
}

#[test]
fn day_index_of_known_dates() {
    assert_eq!(day_index_of(&d(1, 1, 1)), 0);
    assert_eq!(day_index_of(&d(1, 1, 2)), 1);
    assert_eq!(day_index_of(&d(2, 1, 1)), 365);
    // 2024-03-01: 2023 full years plus January, February of a leap year.
    assert_eq!(day_index_of(&d(2024, 3, 1)), 738945);
}

#[test]
fn date_succ_handles_month_and_year_ends() {
    assert_eq!(date_succ(&d(2024, 2, 28)), d(2024, 2, 29));
    assert_eq!(date_succ(&d(2023, 2, 28)), d(2023, 3, 1));
    assert_eq!(date_succ(&d(2024, 12, 31)), d(2025, 1, 1));
    assert_eq!(date_succ(&d(2024, 3, 1)), d(2024, 3, 2));
}

#[test]
fn date_at_inverts_day_index() {
    for probe in [d(1, 1, 1), d(2024, 3, 1), d(2000, 2, 29), d(9999, 12, 31)] {
        assert_eq!(date_at(day_index_of(&probe)), probe);
    }
}

#[test]
fn date_rendering_round_trips() {
    let day = d(2024, 3, 1);
    let bytes = date_to_bytes(&day);
    assert_eq!(bytes, b"2024-03-01".to_vec());
    assert_eq!(parse_date(&bytes), Some(day));
}

#[test]
fn parse_date_accepts_only_valid_canonical_dates() {
    assert_eq!(parse_date(&b"2024-02-29".to_vec()), Some(d(2024, 2, 29)));
    assert_eq!(parse_date(&b"2023-02-29".to_vec()), None);
    assert_eq!(parse_date(&b"2024-13-01".to_vec()), None);
    assert_eq!(parse_date(&b"2024-00-10".to_vec()), None);
    assert_eq!(parse_date(&b"0000-01-01".to_vec()), None);
    assert_eq!(parse_date(&b"2024/03/01".to_vec()), None);
    assert_eq!(parse_date(&b"2024-3-1".to_vec()), None);
    assert_eq!(parse_date(&b"".to_vec()), None);
}

#[test]
fn parse_week_reads_small_numbers() {
    assert_eq!(parse_week(&b"0".to_vec()), Some(0));
    assert_eq!(parse_week(&b"5".to_vec()), Some(5));
    assert_eq!(parse_week(&b"12".to_vec()), Some(12));
    assert_eq!(parse_week(&b"255".to_vec()), Some(255));
    assert_eq!(parse_week(&b"256".to_vec()), None);
    assert_eq!(parse_week(&b"abc".to_vec()), None);
    assert_eq!(parse_week(&b"".to_vec()), None);
    assert_eq!(parse_week(&b"1234".to_vec()), None);
}

#[test]
fn parse_level_reads_the_five_names() {
    assert_eq!(parse_level(&b"Error".to_vec()), Some(LogLevel::Error));
    assert_eq!(parse_level(&b"Warn".to_vec()), Some(LogLevel::Warn));
    assert_eq!(parse_level(&b"Info".to_vec()), Some(LogLevel::Info));
    assert_eq!(parse_level(&b"Debug".to_vec()), Some(LogLevel::Debug));
    assert_eq!(parse_level(&b"Trace".to_vec()), Some(LogLevel::Trace));
    assert_eq!(parse_level(&b"warn".to_vec()), None);
    assert_eq!(parse_level(&b"".to_vec()), None);
}

#[test]
fn bucket_starts_at_zero_on_the_first() {
    // The 1st of any month is always in bucket 0.
    for day in [d(2024, 1, 1), d(2024, 3, 1), d(2023, 2, 1), d(1999, 12, 1)] {
        assert_eq!(bucket(&day), 0);
    }
}

#[test]
fn bucket_steps_up_at_monday_boundaries() {
    // March 2024 begins on a Friday, so bucket 1 starts on Monday the 4th.
    assert_eq!(bucket(&d(2024, 3, 1)), 0);
    assert_eq!(bucket(&d(2024, 3, 3)), 0);
    assert_eq!(bucket(&d(2024, 3, 4)), 1);
    assert_eq!(bucket(&d(2024, 3, 10)), 1);
    assert_eq!(bucket(&d(2024, 3, 11)), 2);
    assert_eq!(bucket(&d(2024, 3, 31)), 4);
}

#[test]
fn bucket_is_monotone_within_a_month() {
    let mut prev = bucket(&d(2024, 3, 1));
    for day in 2..=31u8 {
        let b = bucket(&d(2024, 3, day));
        assert!(b >= prev);
        prev = b;
    }
}

#[test]
fn resolve_single_date() {
    let o = DateOptions { date: d(2024, 3, 1), duration: None, week: None };
    assert_eq!(resolve(&o), vec![d(2024, 3, 1)]);
}

#[test]
fn resolve_full_range_has_no_gaps() {
    let o = DateOptions { date: d(2024, 3, 1), duration: Some(6), week: None };
    let dates = resolve(&o);
    assert_eq!(dates.len(), 7);
    for (i, date) in dates.iter().enumerate() {
        assert_eq!(*date, d(2024, 3, 1 + i as u8));
    }
}

#[test]
fn resolve_negative_duration_swaps_the_ends() {
    let o = DateOptions { date: d(2024, 3, 1), duration: Some(-2), week: None };
    let dates = resolve(&o);
    assert_eq!(dates, vec![d(2024, 2, 28), d(2024, 2, 29), d(2024, 3, 1)]);
}

#[test]
fn resolve_week_filter_keeps_matching_days() {
    // Bucket 0 of March 2024 is the 1st through the 3rd.
    let o = DateOptions { date: d(2024, 3, 1), duration: Some(6), week: Some(0) };
    let dates = resolve(&o);
    assert_eq!(dates, vec![d(2024, 3, 1), d(2024, 3, 2), d(2024, 3, 3)]);
}

#[test]
fn resolve_week_with_no_match_is_empty() {
    let o = DateOptions { date: d(2024, 3, 1), duration: Some(6), week: Some(3) };
    assert_eq!(resolve(&o), Vec::<Date>::new());
}

#[test]
fn today_is_a_valid_date() {
    let day = wikip::clock::today().expect("the clock's year should be supported");
    assert!(1 <= day.month && day.month <= 12);
    assert!(1 <= day.day && day.day <= 31);
}
