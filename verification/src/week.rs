//! Week-of-month bucketing.
//!
//! Weeks start on Monday.  Bucket 0 is the partial span from the 1st of the
//! month up to the first Monday; bucket 1 is the first full Monday-aligned
//! week, and each later bucket covers the next seven days.  Equivalently,
//! `bucket(d) == (d.day - 1 + weekday of the 1st of d's month) / 7`, with
//! Monday counted as weekday 0, so the 1st of every month is in bucket 0.

use vstd::prelude::*;
use vstd::arithmetic::div_mod::*;
use crate::date::{Date, day_index, day_index_of, days_before_month, days_before_year, valid_date};

verus! {

/// Weekday (Monday = 0) of the first day of month `m` of year `y`.
pub open spec fn first_weekday_of_month(y: int, m: int) -> int {
    (days_before_year(y) + days_before_month(y, m)) % 7
}

/// Week-of-month bucket of a valid date.
pub open spec fn week_bucket(d: Date) -> int {
    (d.day - 1 + first_weekday_of_month(d.year as int, d.month as int)) / 7
}

/// Week-of-month bucket, computed.  The result is at most 5.
pub fn bucket(d: &Date) -> (w: u8)
    requires
        valid_date(*d),
    ensures
        w == week_bucket(*d),
        w <= 5,
{
    let first = Date { year: d.year, month: d.month, day: 1 };
    let fi = day_index_of(&first) % 7;
    proof {
        lemma_mod_division_less_than_divisor(day_index(first), 7);
        lemma_div_is_ordered(d.day - 1 + fi, 36, 7);
        lemma_fundamental_div_mod_converse(36, 7, 5, 1);
        lemma_div_pos_is_pos(d.day - 1 + fi, 7);
    }
    (((d.day - 1) as u64 + fi) / 7) as u8
}

/// The 1st of every month is in bucket 0.
pub proof fn lemma_bucket_day_one(d: Date)
    requires
        valid_date(d),
        d.day == 1,
    ensures
        week_bucket(d) == 0,
{
    lemma_mod_division_less_than_divisor(
        days_before_year(d.year as int) + days_before_month(d.year as int, d.month as int),
        7,
    );
    lemma_basic_div(first_weekday_of_month(d.year as int, d.month as int), 7);
}

/// Within one month the bucket never decreases as the day grows.
pub proof fn lemma_bucket_monotone(d1: Date, d2: Date)
    requires
        valid_date(d1),
        valid_date(d2),
        d1.year == d2.year,
        d1.month == d2.month,
        d1.day <= d2.day,
    ensures
        week_bucket(d1) <= week_bucket(d2),
{
    let f = first_weekday_of_month(d1.year as int, d1.month as int);
    lemma_div_is_ordered(d1.day - 1 + f, d2.day - 1 + f, 7);
}

} // verus!
