//! The one place the library reads the clock: today's local date, used to
//! default the start date when the caller gives none.

use vstd::prelude::*;
use chrono::Datelike;
use crate::date::{Date, date_from_ymd, days_in_month, valid_date};

verus! {

/// Relies on chrono's `Local::now` and the `Datelike` accessors on it: a
/// chrono date is always a real proleptic-Gregorian calendar date, so the
/// month is in 1..=12 and the day fits that month of that year.  `Local::now`
/// itself aborts if the system clock is set before the Unix epoch.
#[verifier::external_body]
fn now_ymd() -> (r: (i32, u32, u32))
    ensures
        1 <= r.1 <= 12,
        1 <= r.2,
        r.2 <= days_in_month(r.0 as int, r.1 as int),
{
    let now = chrono::Local::now();
    (now.year(), now.month(), now.day())
}

/// Today's local date, or `None` when the clock's year falls outside the
/// supported 1..=9999.  The clock reading is only read off; the decision
/// is `date_from_ymd`'s, whose contract fixes it for every triple.
pub fn today() -> (r: Option<Date>)
    ensures
        r matches Some(d) ==> valid_date(d),
{
    let (y, m, day) = now_ymd();
    date_from_ymd(y, m, day)
}

} // verus!
