//! Collects Wikipedia "Articles for Deletion" biography listings for a date,
//! an inclusive date range, or one week-of-month slice of either, and merges
//! the per-date results into a single ordered, deduplicated CSV report.
//!
//! The crate is organised leaves-first: `date` holds the calendar model,
//! `week` the week-of-month bucketing, `resolve` turns the user's options
//! into the ordered list of dates to process, `records` and `aggregate`
//! merge per-date outcomes, and `report` renders the CSV bytes and the
//! default output path.  `execute` at the root wires them together; the
//! caller performs the per-date fetches and hands their outcomes in, one
//! per resolved date, in date order.

use vstd::prelude::*;

pub mod aggregate;
pub mod bytes;
pub mod clock;
pub mod date;
pub mod options;
pub mod records;
pub mod report;
pub mod resolve;
pub mod week;

use crate::aggregate::{
    Aggregator, DateOutcome, entries_view, failures_of, lemma_entries_view_drop_first,
    lemma_feed_step, merged_records, outcome_dated, OutcomeV, RunResult, successes_of,
};
use crate::date::{Date, day_index, valid_date};
use crate::options::Options;
use crate::records::{recs_view, recs_dated};
use crate::report::{csv_bytes, csv_encode, default_output_path, default_path_bytes};
use crate::resolve::resolves;

verus! {

/// Why a whole run failed.
#[derive(PartialEq, Eq, Structural, Clone, Copy, Debug)]
pub enum OrchestrationError {
    AllDatesFailed,
}

/// Everything a run produces: where the report goes, its bytes, and the
/// per-date accounting behind it.
pub struct RunReport {
    pub output_path: Vec<u8>,
    pub csv: Vec<u8>,
    pub run: RunResult,
}

/// The dates of a list of per-date outcomes.
pub open spec fn entry_dates(s: Seq<(Date, OutcomeV)>) -> Seq<Date> {
    s.map_values(|e: (Date, OutcomeV)| e.0)
}

/// Did any date succeed?
pub open spec fn any_success(s: Seq<(Date, OutcomeV)>) -> bool {
    exists|i: int| 0 <= i < s.len() && (#[trigger] s[i]).1 is Records
}

/// Every successful outcome's records carry valid nomination dates.
pub open spec fn outcomes_dated(s: Seq<(Date, OutcomeV)>) -> bool {
    forall|i: int| 0 <= i < s.len() ==> outcome_dated((#[trigger] s[i]).1)
}

/// Runs the whole pipeline over the fetched outcomes, one per resolved date
/// in date order: aggregates them, and renders the CSV report and its path.
/// The run fails only when there were dates to process and every one failed;
/// per-date failures otherwise surface in the result's failure list.
#[verifier::rlimit(100)]
pub fn execute(options: Options, outcomes: Vec<(Date, DateOutcome)>) -> (r: Result<
    RunReport,
    OrchestrationError,
>)
    requires
        valid_date(options.date_options.date),
        resolves(options.date_options, entry_dates(entries_view(outcomes@))),
        outcomes_dated(entries_view(outcomes@)),
    ensures
        r is Err <==> (outcomes@.len() > 0 && !any_success(entries_view(outcomes@))),
        r matches Ok(rep) ==> {
            &&& recs_view(rep.run.records@) == merged_records(entries_view(outcomes@))
            &&& rep.run.failed@ == failures_of(entries_view(outcomes@))
            &&& rep.run.succeeded@ == successes_of(entries_view(outcomes@))
            &&& rep.csv@ == csv_bytes(merged_records(entries_view(outcomes@)))
            &&& rep.output_path@ == (match options.output {
                Some(p) => p@,
                None => default_path_bytes(options.date_options.date),
            })
        },
{
    let ghost ov = entries_view(outcomes@);
    proof {
        let dates = entry_dates(ov);
        assert forall|t: int| 0 <= t < ov.len() implies valid_date((#[trigger] ov[t]).0)
            && outcome_dated(ov[t].1) by {
            assert(dates[t] == ov[t].0);
            assert(valid_date(dates[t]));
        }
        assert forall|t: int| 0 <= t < ov.len() - 1 implies day_index((#[trigger] ov[t]).0)
            < day_index(ov[t + 1].0) by {
            assert(dates[t] == ov[t].0);
            assert(dates[t + 1] == ov[t + 1].0);
            assert(day_index(dates[t]) < day_index(dates[t + 1]));
        }
    }
    let mut found = false;
    let mut k: usize = 0;
    while k < outcomes.len()
        invariant
            k <= outcomes.len(),
            ov == entries_view(outcomes@),
            found <==> exists|t: int| 0 <= t < k && (#[trigger] ov[t]).1 is Records,
        decreases outcomes.len() - k,
    {
        let e = &outcomes[k];
        let hit = match &e.1 {
            DateOutcome::Records(_) => true,
            DateOutcome::Failed(_) => false,
        };
        proof {
            assert(ov[k as int].1 == outcomes@[k as int].1@);
            assert(hit == (ov[k as int].1 is Records));
        }
        if hit {
            found = true;
        }
        k = k + 1;
    }
    if outcomes.len() > 0 && !found {
        return Err(OrchestrationError::AllDatesFailed);
    }
    let mut agg = Aggregator::new();
    let mut rest = outcomes;
    let ghost i: int = 0;
    proof {
        assert(agg@ =~= ov.take(0));
    }
    while rest.len() > 0
        invariant
            0 <= i <= ov.len(),
            agg.wf(),
            agg@ == ov.take(i),
            entries_view(rest@) =~= ov.skip(i),
            forall|t: int| 0 <= t < ov.len() ==> valid_date((#[trigger] ov[t]).0),
            forall|t: int| 0 <= t < ov.len() ==> outcome_dated((#[trigger] ov[t]).1),
            forall|t: int|
                0 <= t < ov.len() - 1 ==> day_index((#[trigger] ov[t]).0) < day_index(ov[t + 1].0),
        decreases rest.len(),
    {
        let ghost rpre = rest@;
        proof {
            assert(entries_view(rpre).len() == rpre.len());
            assert(i < ov.len());
            assert(entries_view(rpre)[0] == ov.skip(i)[0]);
            assert(ov.skip(i)[0] == ov[i]);
        }
        let e = rest.remove(0);
        let ghost ocv = e.1@;
        let (d, oc) = e;
        proof {
            assert(d == ov[i].0 && ocv == ov[i].1);
            assert(valid_date(d));
            assert(outcome_dated(ocv));
            lemma_feed_step(ov, i);
        }
        match oc {
            DateOutcome::Records(rs) => {
                proof {
                    assert(ocv == OutcomeV::Records(recs_view(rs@)));
                    assert(recs_dated(recs_view(rs@)));
                }
                agg.record_success(d, rs);
            },
            DateOutcome::Failed(err) => {
                proof {
                    assert(ocv == OutcomeV::Failed(err));
                }
                agg.record_failure(d, err);
            },
        }
        proof {
            assert(ov[i] == (d, ocv));
            assert(agg@ == ov.take(i + 1));
            lemma_entries_view_drop_first(rpre);
            assert(rest@ == rpre.remove(0));
            assert(ov.skip(i).drop_first() =~= ov.skip(i + 1));
            assert(entries_view(rest@) =~= ov.skip(i + 1));
        }
        proof {
            i = i + 1;
        }
    }
    proof {
        assert(ov.take(i) =~= ov);
    }
    let run = agg.finalize();
    let csv = csv_encode(&run.records);
    let output_path = match options.output {
        Some(p) => p,
        None => default_output_path(&options.date_options.date),
    };
    Ok(RunReport { output_path, csv, run })
}

} // verus!
