//! Date-range resolution: turns `DateOptions` into the ordered list of
//! distinct calendar dates a run will process.
//!
//! The range runs from the start date to the start date plus the duration,
//! inclusive, normalised so the smaller end comes first; ends falling outside
//! the supported years 1..=9999 are clamped to that span.  A week filter
//! keeps only dates in the given week-of-month bucket.  Resolution is total:
//! a range that the filter empties resolves to the empty list.

use vstd::prelude::*;
use crate::date::{
    Date, date_at, date_succ, day_index, day_index_of, lemma_date_exists,
    lemma_day_index_injective, lemma_day_index_range, max_day_index, valid_date,
};
use crate::options::DateOptions;
use crate::week::{bucket, week_bucket};

verus! {

/// Does `d` pass the week-of-month filter of `o`?
pub open spec fn week_ok(o: DateOptions, d: Date) -> bool {
    match o.week {
        None => true,
        Some(w) => week_bucket(d) == w as int,
    }
}

pub open spec fn clamp_index(i: int) -> int {
    if i < 0 {
        0
    } else if i > max_day_index() {
        max_day_index()
    } else {
        i
    }
}

/// The day index of the range's far end, clamped to the supported span.
pub open spec fn end_index(o: DateOptions) -> int {
    match o.duration {
        None => day_index(o.date),
        Some(k) => clamp_index(day_index(o.date) + k),
    }
}

pub open spec fn lo_index(o: DateOptions) -> int {
    if end_index(o) < day_index(o.date) {
        end_index(o)
    } else {
        day_index(o.date)
    }
}

pub open spec fn hi_index(o: DateOptions) -> int {
    if end_index(o) < day_index(o.date) {
        day_index(o.date)
    } else {
        end_index(o)
    }
}

/// `r` is the resolved date list of `o`: valid dates, exactly those in the
/// (normalised, clamped) range that pass the week filter, strictly ascending.
pub open spec fn resolves(o: DateOptions, r: Seq<Date>) -> bool {
    &&& forall|i: int| 0 <= i < r.len() ==> valid_date(#[trigger] r[i])
    &&& forall|i: int|
        0 <= i < r.len() ==> lo_index(o) <= day_index(#[trigger] r[i]) <= hi_index(o)
    &&& forall|i: int| 0 <= i < r.len() ==> week_ok(o, #[trigger] r[i])
    &&& forall|i: int| 0 <= i < r.len() - 1 ==> day_index(#[trigger] r[i]) < day_index(r[i + 1])
    &&& forall|d: Date|
        valid_date(d) && lo_index(o) <= day_index(d) <= hi_index(o) && week_ok(o, d)
            ==> #[trigger] r.contains(d)
}

/// Resolves the options into the ordered list of dates to process.
pub fn resolve(o: &DateOptions) -> (r: Vec<Date>)
    requires
        valid_date(o.date),
    ensures
        resolves(*o, r@),
{
    proof {
        lemma_day_index_range(o.date);
    }
    let s_idx: u64 = day_index_of(&o.date);
    let max_idx: u64 = day_index_of(&Date { year: 9999, month: 12, day: 31 });
    let e_idx: u64 = match o.duration {
        None => s_idx,
        Some(k) => {
            if k >= 0 {
                let room: u64 = max_idx - s_idx;
                if (k as u64) > room {
                    max_idx
                } else {
                    s_idx + (k as u64)
                }
            } else {
                if k + (s_idx as i64) <= 0 {
                    0
                } else {
                    s_idx - ((-k) as u64)
                }
            }
        },
    };
    assert(e_idx == end_index(*o));
    let lo: u64 = if e_idx < s_idx {
        e_idx
    } else {
        s_idx
    };
    let hi: u64 = if e_idx < s_idx {
        s_idx
    } else {
        e_idx
    };
    let mut out: Vec<Date> = Vec::new();
    let mut idx: u64 = lo;
    let mut cur: Date = date_at(lo);
    while idx <= hi
        invariant
            lo == lo_index(*o),
            hi == hi_index(*o),
            lo <= idx <= hi + 1,
            hi <= max_day_index(),
            idx <= hi ==> valid_date(cur) && day_index(cur) == idx,
            forall|i: int| 0 <= i < out@.len() ==> valid_date(#[trigger] out@[i]),
            forall|i: int| 0 <= i < out@.len() ==> lo <= day_index(#[trigger] out@[i]) < idx,
            forall|i: int| 0 <= i < out@.len() ==> week_ok(*o, #[trigger] out@[i]),
            forall|i: int|
                0 <= i < out@.len() - 1 ==> day_index(#[trigger] out@[i]) < day_index(out@[i + 1]),
            forall|d: Date|
                valid_date(d) && lo <= day_index(d) < idx && week_ok(*o, d)
                    ==> #[trigger] out@.contains(d),
        decreases hi + 1 - idx,
    {
        let keep: bool = match o.week {
            None => true,
            Some(w) => bucket(&cur) == w,
        };
        let ghost old_out = out@;
        if keep {
            out.push(cur);
        }
        proof {
            assert forall|d: Date|
                valid_date(d) && lo <= day_index(d) < idx + 1 && week_ok(*o, d)
                    implies out@.contains(d) by {
                if day_index(d) == idx {
                    lemma_day_index_injective(d, cur);
                    assert(out@[out@.len() - 1] == cur);
                } else {
                    assert(old_out.contains(d));
                    let j = choose|j: int| 0 <= j < old_out.len() && old_out[j] == d;
                    assert(out@[j] == d);
                }
            }
        }
        if idx < hi {
            cur = date_succ(&cur);
        }
        idx = idx + 1;
    }
    out
}

/// Strict ascent between adjacent elements carries to any pair of positions.
proof fn lemma_ascending(r: Seq<Date>, i: int, j: int)
    requires
        forall|t: int| 0 <= t < r.len() - 1 ==> day_index(#[trigger] r[t]) < day_index(r[t + 1]),
        0 <= i < j < r.len(),
    ensures
        day_index(r[i]) < day_index(r[j]),
    decreases j - i,
{
    if i + 1 < j {
        lemma_ascending(r, i, j - 1);
    }
}

/// Each position's index is at least `lo` plus the position.
proof fn lemma_position_lower(r: Seq<Date>, lo: int, i: int)
    requires
        forall|t: int| 0 <= t < r.len() - 1 ==> day_index(#[trigger] r[t]) < day_index(r[t + 1]),
        forall|t: int| 0 <= t < r.len() ==> lo <= day_index(#[trigger] r[t]),
        0 <= i < r.len(),
    ensures
        day_index(r[i]) >= lo + i,
    decreases i,
{
    if i > 0 {
        lemma_position_lower(r, lo, i - 1);
    }
}

/// With no week filter, the resolved list walks the range day by day.
proof fn lemma_position_exact(o: DateOptions, r: Seq<Date>, i: int)
    requires
        valid_date(o.date),
        resolves(o, r),
        o.week is None,
        0 <= i < r.len(),
    ensures
        day_index(r[i]) == lo_index(o) + i,
    decreases i,
{
    let lo = lo_index(o);
    let hi = hi_index(o);
    assert(0 <= lo && hi <= max_day_index()) by {
        lemma_day_index_range(r[i]);
        lemma_date_range_bounds(o);
    }
    if i > 0 {
        lemma_position_exact(o, r, i - 1);
    }
    assert(day_index(r[i]) >= lo + i) by {
        lemma_position_lower(r, lo, i);
    }
    if day_index(r[i]) != lo + i {
        assert(lo + i <= hi);
        lemma_date_exists(lo + i);
        let d = choose|d: Date| valid_date(d) && day_index(d) == lo + i;
        assert(r.contains(d));
        let j = choose|j: int| 0 <= j < r.len() && r[j] == d;
        lemma_position_lower(r, lo, j);
        assert(j <= i);
        if j < i {
            if j < i - 1 {
                lemma_ascending(r, j, i - 1);
            }
            assert(day_index(r[j]) <= day_index(r[i - 1]));
        }
        assert(false);
    }
}

/// The range's bounds lie within the supported day span.
proof fn lemma_date_range_bounds(o: DateOptions)
    requires
        valid_date(o.date),
    ensures
        0 <= lo_index(o),
        hi_index(o) <= max_day_index(),
        lo_index(o) <= day_index(o.date) <= hi_index(o),
{
    lemma_day_index_range(o.date);
}

/// Resolution is deterministic: the characterization admits one list only.
pub proof fn lemma_resolves_unique(o: DateOptions, r1: Seq<Date>, r2: Seq<Date>)
    requires
        resolves(o, r1),
        resolves(o, r2),
    ensures
        r1 == r2,
{
    lemma_resolves_lens_equal(o, r1, r2);
    assert forall|t: int| 0 <= t < r1.len() implies r1[t] == r2[t] by {
        lemma_resolves_prefix_equal(o, r1, r2, t);
    }
    assert(r1 =~= r2);
}

/// Two resolved lists agree at every position of the first.
proof fn lemma_resolves_prefix_equal(o: DateOptions, r1: Seq<Date>, r2: Seq<Date>, i: int)
    requires
        resolves(o, r1),
        resolves(o, r2),
        0 <= i < r1.len(),
    ensures
        i < r2.len(),
        r1[i] == r2[i],
    decreases i,
{
    assert(r2.contains(r1[i]));
    let j = choose|j: int| 0 <= j < r2.len() && r2[j] == r1[i];
    if j < i {
        lemma_resolves_prefix_equal(o, r1, r2, j);
        lemma_ascending(r1, j, i);
        assert(false);
    } else if j > i {
        assert(r1.contains(r2[i]));
        let t = choose|t: int| 0 <= t < r1.len() && r1[t] == r2[i];
        lemma_ascending(r2, i, j);
        if t < i {
            lemma_resolves_prefix_equal(o, r1, r2, t);
            lemma_ascending(r2, t, i);
            assert(false);
        } else if t == i {
            assert(false);
        } else {
            lemma_ascending(r1, i, t);
            assert(false);
        }
    }
}

/// Two resolved lists are equally long.
proof fn lemma_resolves_lens_equal(o: DateOptions, r1: Seq<Date>, r2: Seq<Date>)
    requires
        resolves(o, r1),
        resolves(o, r2),
    ensures
        r1.len() == r2.len(),
{
    if r1.len() < r2.len() {
        lemma_resolves_prefix_equal(o, r2, r1, r1.len() as int);
        assert(false);
    }
    if r2.len() < r1.len() {
        lemma_resolves_prefix_equal(o, r1, r2, r2.len() as int);
        assert(false);
    }
}

/// With no duration the resolved list is exactly the start date, or empty
/// when the week filter excludes it.
pub proof fn lemma_resolve_single_date(o: DateOptions, r: Seq<Date>)
    requires
        valid_date(o.date),
        o.duration is None,
        resolves(o, r),
    ensures
        week_ok(o, o.date) ==> r == seq![o.date],
        !week_ok(o, o.date) ==> r == Seq::<Date>::empty(),
{
    lemma_day_index_range(o.date);
    assert(lo_index(o) == day_index(o.date));
    assert(hi_index(o) == day_index(o.date));
    if week_ok(o, o.date) {
        assert(r.contains(o.date));
        assert forall|i: int| 0 <= i < r.len() implies r[i] == o.date by {
            lemma_day_index_injective(r[i], o.date);
        }
        if r.len() >= 2 {
            assert(day_index(r[0]) < day_index(r[1]));
            assert(false);
        }
        let j = choose|j: int| 0 <= j < r.len() && r[j] == o.date;
        assert(r =~= seq![o.date]);
    } else {
        if r.len() > 0 {
            lemma_day_index_injective(r[0], o.date);
            assert(week_ok(o, r[0]));
            assert(false);
        }
        assert(r =~= Seq::<Date>::empty());
    }
}

/// With a non-negative in-range duration and no week filter, the resolved
/// list is every date from the start through the end, in order, no gaps.
pub proof fn lemma_resolve_full_range(o: DateOptions, r: Seq<Date>, k: i64)
    requires
        valid_date(o.date),
        o.duration == Some(k),
        0 <= k,
        day_index(o.date) + k <= max_day_index(),
        o.week is None,
        resolves(o, r),
    ensures
        r.len() == k + 1,
        forall|i: int| 0 <= i < r.len() ==> day_index(#[trigger] r[i]) == day_index(o.date) + i,
        r.len() > 0 ==> r[0] == o.date,
{
    lemma_day_index_range(o.date);
    let lo = lo_index(o);
    let hi = hi_index(o);
    assert(lo == day_index(o.date));
    assert(hi == day_index(o.date) + k);
    assert forall|i: int| 0 <= i < r.len() implies day_index(#[trigger] r[i]) == lo + i by {
        lemma_position_exact(o, r, i);
    }
    lemma_date_exists(hi);
    let dh = choose|d: Date| valid_date(d) && day_index(d) == hi;
    assert(r.contains(dh));
    let j = choose|j: int| 0 <= j < r.len() && r[j] == dh;
    assert(day_index(r[j]) == lo + j);
    assert(r.len() >= hi - lo + 1);
    if r.len() > hi - lo + 1 {
        let t = hi - lo + 1;
        assert(day_index(r[t]) == lo + t);
        assert(day_index(r[t]) <= hi);
        assert(false);
    }
    lemma_day_index_injective(r[0], o.date);
}

/// A week filter that no date in the range satisfies empties the result.
pub proof fn lemma_resolve_week_mismatch(o: DateOptions, r: Seq<Date>, w: u8)
    requires
        o.week == Some(w),
        resolves(o, r),
        forall|d: Date|
            valid_date(d) && lo_index(o) <= #[trigger] day_index(d) <= hi_index(o)
                ==> week_bucket(d) != w as int,
    ensures
        r == Seq::<Date>::empty(),
{
    if r.len() > 0 {
        assert(week_ok(o, r[0]));
        assert(lo_index(o) <= day_index(r[0]) <= hi_index(o));
        assert(false);
    }
    assert(r =~= Seq::<Date>::empty());
}

} // verus!
