use wikip::aggregate::{Aggregator, DateError, DateOutcome, FetchError, ParseError};
use wikip::date::Date;
use wikip::execute;
use wikip::options::{DateOptions, LogLevel, Options};
use wikip::resolve::resolve;
use wikip::OrchestrationError;

fn d(year: u16, month: u8, day: u8) -> Date {
    Date { year, month, day }
}

fn rec(title: &str, date: Date, status: &str, nominator: &str) -> wikip::records::DeletionRecord {
    wikip::records::DeletionRecord {
        title: title.as_bytes().to_vec(),
        nomination_date: date,
        status: status.as_bytes().to_vec(),
        nominator: nominator.as_bytes().to_vec(),
    }
}

fn options_for(date: Date, duration: Option<i64>, week: Option<u8>, output: Option<&str>) -> Options {
    Options {
        date_options: DateOptions { date, duration, week },
        log_level: LogLevel::Warn,
        output: output.map(|p| p.as_bytes().to_vec()),
    }
}

#[test]
fn single_date_single_record_run() {
    let opts = options_for(d(2024, 3, 1), None, None, None);
    let dates = resolve(&opts.date_options);
    assert_eq!(dates, vec![d(2024, 3, 1)]);
    let outcomes = vec![(
        d(2024, 3, 1),
        DateOutcome::Records(vec![rec("Alice", d(2024, 3, 1), "kept", "Bob")]),
    )];
    let report = execute(opts, outcomes).expect("run should succeed");
    assert_eq!(report.run.succeeded, vec![d(2024, 3, 1)]);
    assert!(report.run.failed.is_empty());
    assert_eq!(report.run.records.len(), 1);
    let expected =
        b"title,nomination_date,status,nominator\nAlice,2024-03-01,kept,Bob\n".to_vec();
    assert_eq!(report.csv, expected);
}

#[test]
fn partial_failure_still_succeeds() {
    let opts = options_for(d(2024, 3, 1), Some(6), None, None);
    let dates = resolve(&opts.date_options);
    assert_eq!(dates.len(), 7);
    let mut outcomes = Vec::new();
    for (i, date) in dates.iter().enumerate() {
        if i == 2 {
            outcomes.push((*date, DateOutcome::Failed(DateError::Fetch(FetchError::NetworkFailure))));
        } else {
            let title = format!("Person {}", i);
            outcomes.push((
                *date,
                DateOutcome::Records(vec![rec(&title, *date, "open", "Nom")]),
            ));
        }
    }
    let report = execute(opts, outcomes).expect("partial success still writes a report");
    assert_eq!(report.run.succeeded.len(), 6);
    assert_eq!(
        report.run.failed,
        vec![(d(2024, 3, 3), DateError::Fetch(FetchError::NetworkFailure))]
    );
    assert_eq!(report.run.records.len(), 6);
}

#[test]
fn all_dates_failed_is_an_error() {
    let opts = options_for(d(2024, 3, 1), Some(2), None, None);
    let dates = resolve(&opts.date_options);
    let outcomes: Vec<(Date, DateOutcome)> = dates
        .iter()
        .map(|date| {
            (
                *date,
                DateOutcome::Failed(DateError::Parse(ParseError::MalformedMarkup)),
            )
        })
        .collect();
    let r = execute(opts, outcomes);
    assert_eq!(r.err(), Some(OrchestrationError::AllDatesFailed));
}

#[test]
fn empty_resolved_set_is_a_successful_no_op() {
    // A week bucket no March 2024 date falls in: the range empties out.
    let opts = options_for(d(2024, 3, 1), Some(6), Some(5), None);
    let dates = resolve(&opts.date_options);
    assert!(dates.is_empty());
    let report = execute(opts, Vec::new()).expect("zero dates is a no-op success");
    assert!(report.run.succeeded.is_empty());
    assert!(report.run.failed.is_empty());
    assert!(report.run.records.is_empty());
    assert_eq!(
        report.csv,
        b"title,nomination_date,status,nominator\n".to_vec()
    );
}

#[test]
fn default_output_path_uses_start_date() {
    let opts = options_for(d(2024, 3, 1), None, None, None);
    let outcomes = vec![(
        d(2024, 3, 1),
        DateOutcome::Records(vec![rec("Alice", d(2024, 3, 1), "kept", "Bob")]),
    )];
    let report = execute(opts, outcomes).expect("run should succeed");
    assert_eq!(report.output_path, b"afd-bios-2024-03-01.csv".to_vec());
}

#[test]
fn explicit_output_path_is_kept() {
    let opts = options_for(d(2024, 3, 1), None, None, Some("out.csv"));
    let outcomes = vec![(
        d(2024, 3, 1),
        DateOutcome::Records(vec![rec("Alice", d(2024, 3, 1), "kept", "Bob")]),
    )];
    let report = execute(opts, outcomes).expect("run should succeed");
    assert_eq!(report.output_path, b"out.csv".to_vec());
}

#[test]
fn duplicate_keys_across_dates_collapse_to_first_seen() {
    let opts = options_for(d(2024, 3, 1), Some(1), None, None);
    let outcomes = vec![
        (
            d(2024, 3, 1),
            DateOutcome::Records(vec![rec("Alice", d(2024, 2, 20), "open", "Nom1")]),
        ),
        (
            d(2024, 3, 2),
            DateOutcome::Records(vec![rec("Alice", d(2024, 2, 20), "closed", "Nom2")]),
        ),
    ];
    let report = execute(opts, outcomes).expect("run should succeed");
    assert_eq!(report.run.records.len(), 1);
    assert_eq!(report.run.records[0], rec("Alice", d(2024, 2, 20), "open", "Nom1"));
}

#[test]
fn records_sorted_by_date_then_title() {
    let opts = options_for(d(2024, 3, 1), Some(1), None, None);
    let outcomes = vec![
        (
            d(2024, 3, 1),
            DateOutcome::Records(vec![
                rec("Zed", d(2024, 3, 1), "open", "N"),
                rec("Ann", d(2024, 3, 1), "open", "N"),
            ]),
        ),
        (
            d(2024, 3, 2),
            DateOutcome::Records(vec![rec("Mid", d(2024, 2, 28), "open", "N")]),
        ),
    ];
    let report = execute(opts, outcomes).expect("run should succeed");
    let titles: Vec<&[u8]> = report.run.records.iter().map(|r| r.title.as_slice()).collect();
    assert_eq!(titles, vec![b"Mid".as_slice(), b"Ann".as_slice(), b"Zed".as_slice()]);
}

#[test]
fn aggregation_is_order_independent() {
    let a_outcomes = [
        (d(2024, 3, 1), "Alice", "kept"),
        (d(2024, 3, 2), "Bob", "open"),
        (d(2024, 3, 3), "Carol", "closed"),
    ];
    let mut agg1 = Aggregator::new();
    for (date, title, status) in a_outcomes.iter() {
        agg1.record_success(*date, vec![rec(title, *date, status, "N")]);
    }
    let mut agg2 = Aggregator::new();
    for (date, title, status) in a_outcomes.iter().rev() {
        agg2.record_success(*date, vec![rec(title, *date, status, "N")]);
    }
    let r1 = agg1.finalize();
    let r2 = agg2.finalize();
    assert_eq!(r1, r2);
}

#[test]
fn first_outcome_per_date_wins() {
    let mut agg = Aggregator::new();
    agg.record_success(d(2024, 3, 1), vec![rec("Alice", d(2024, 3, 1), "kept", "N")]);
    agg.record_failure(d(2024, 3, 1), DateError::Fetch(FetchError::RateLimited));
    let r = agg.finalize();
    assert_eq!(r.succeeded, vec![d(2024, 3, 1)]);
    assert!(r.failed.is_empty());
    assert_eq!(r.records.len(), 1);
}

#[test]
fn every_failure_kind_is_reported_per_date() {
    let opts = options_for(d(2024, 3, 1), Some(3), None, None);
    let outcomes = vec![
        (d(2024, 3, 1), DateOutcome::Failed(DateError::Fetch(FetchError::NotFound))),
        (d(2024, 3, 2), DateOutcome::Failed(DateError::Fetch(FetchError::RateLimited))),
        (
            d(2024, 3, 3),
            DateOutcome::Failed(DateError::Parse(ParseError::UnexpectedSchema)),
        ),
        (
            d(2024, 3, 4),
            DateOutcome::Records(vec![rec("Alice", d(2024, 3, 4), "kept", "N")]),
        ),
    ];
    let report = execute(opts, outcomes).expect("one success keeps the run alive");
    assert_eq!(
        report.run.failed,
        vec![
            (d(2024, 3, 1), DateError::Fetch(FetchError::NotFound)),
            (d(2024, 3, 2), DateError::Fetch(FetchError::RateLimited)),
            (d(2024, 3, 3), DateError::Parse(ParseError::UnexpectedSchema)),
        ]
    );
    assert_eq!(report.run.succeeded, vec![d(2024, 3, 4)]);
}

#[test]
fn csv_escapes_commas_and_quotes() {
    let records = vec![rec(
        "Smith, John \"JJ\"",
        d(2024, 3, 1),
        "line\nbreak",
        "plain",
    )];
    let csv = wikip::report::csv_encode(&records);
    let expected = b"title,nomination_date,status,nominator\n\"Smith, John \"\"JJ\"\"\",2024-03-01,\"line\nbreak\",plain\n".to_vec();
    assert_eq!(csv, expected);
}
