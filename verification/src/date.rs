//! The calendar model: proleptic Gregorian dates with years 1 through 9999.
//!
//! A date is a plain `(year, month, day)` triple.  `day_index` maps a valid
//! date to the number of days since 0001-01-01, which orders dates and makes
//! range arithmetic plain integer arithmetic.  0001-01-01 is a Monday, so
//! `day_index % 7` is the weekday with Monday as 0.

use vstd::prelude::*;
use vstd::arithmetic::div_mod::*;
use vstd::arithmetic::mul::*;

verus! {

/// A calendar date.  Only values satisfying `valid_date` are meaningful.
#[derive(PartialEq, Eq, Structural, Clone, Copy, Debug)]
pub struct Date {
    pub year: u16,
    pub month: u8,
    pub day: u8,
}

pub open spec fn is_leap_year(y: int) -> bool {
    y % 4 == 0 && (y % 100 != 0 || y % 400 == 0)
}

pub open spec fn days_in_month(y: int, m: int) -> int {
    if m == 2 {
        if is_leap_year(y) {
            29
        } else {
            28
        }
    } else if m == 4 || m == 6 || m == 9 || m == 11 {
        30
    } else {
        31
    }
}

/// Days of year `y` that fall strictly before month `m`; `m == 13` gives the
/// length of the whole year.
pub open spec fn days_before_month(y: int, m: int) -> int {
    let f: int = if is_leap_year(y) {
        1
    } else {
        0
    };
    if m <= 1 {
        0
    } else if m == 2 {
        31
    } else if m == 3 {
        59 + f
    } else if m == 4 {
        90 + f
    } else if m == 5 {
        120 + f
    } else if m == 6 {
        151 + f
    } else if m == 7 {
        181 + f
    } else if m == 8 {
        212 + f
    } else if m == 9 {
        243 + f
    } else if m == 10 {
        273 + f
    } else if m == 11 {
        304 + f
    } else {
        334 + f
    }
}

pub open spec fn days_in_year(y: int) -> int {
    if is_leap_year(y) {
        366
    } else {
        365
    }
}

/// Leap years strictly before year `y` (for `y >= 1`).
pub open spec fn leap_years_before(y: int) -> int {
    (y - 1) / 4 - (y - 1) / 100 + (y - 1) / 400
}

/// Days strictly before year `y`, counted from 0001-01-01.
pub open spec fn days_before_year(y: int) -> int {
    365 * (y - 1) + leap_years_before(y)
}

pub open spec fn valid_date(d: Date) -> bool {
    &&& 1 <= d.year <= 9999
    &&& 1 <= d.month <= 12
    &&& 1 <= d.day <= days_in_month(d.year as int, d.month as int)
}

/// Days since 0001-01-01; the total order on valid dates.
pub open spec fn day_index(d: Date) -> int {
    days_before_year(d.year as int) + days_before_month(d.year as int, d.month as int) + d.day - 1
}

/// The last representable date.
pub open spec fn max_date() -> Date {
    Date { year: 9999, month: 12, day: 31 }
}

pub open spec fn max_day_index() -> int {
    day_index(max_date())
}

/// Lexicographic order on the `(year, month, day)` triple.
pub open spec fn date_lt(a: Date, b: Date) -> bool {
    ||| a.year < b.year
    ||| (a.year == b.year && a.month < b.month)
    ||| (a.year == b.year && a.month == b.month && a.day < b.day)
}

/// `a / k` drops by exactly one when stepping down from a multiple of `k`.
proof fn lemma_div_delta(a: int, k: int)
    requires
        1 <= a,
        1 <= k,
    ensures
        a / k - (a - 1) / k == if a % k == 0 {
            1int
        } else {
            0int
        },
{
    lemma_fundamental_div_mod(a, k);
    lemma_mod_division_less_than_divisor(a, k);
    let q = a / k;
    let r = a % k;
    if r == 0 {
        assert(k * (q - 1) == k * q - k) by {
            lemma_mul_is_distributive_sub(k, q, 1);
        }
        assert(a - 1 == (q - 1) * k + (k - 1)) by {
            lemma_mul_is_commutative(k, q - 1);
        }
        lemma_fundamental_div_mod_converse(a - 1, k, q - 1, k - 1);
    } else {
        assert(a - 1 == q * k + (r - 1)) by {
            lemma_mul_is_commutative(k, q);
        }
        lemma_fundamental_div_mod_converse(a - 1, k, q, r - 1);
    }
}

/// Divisibility by 400 implies divisibility by 100, and by 100 implies by 4.
proof fn lemma_divisibility_chain(y: int)
    requires
        1 <= y,
    ensures
        y % 400 == 0 ==> y % 100 == 0,
        y % 100 == 0 ==> y % 4 == 0,
{
    if y % 400 == 0 {
        lemma_fundamental_div_mod(y, 400);
        let q = y / 400;
        assert(y == (4 * q) * 100);
        lemma_mod_multiples_basic(4 * q, 100);
    }
    if y % 100 == 0 {
        lemma_fundamental_div_mod(y, 100);
        let q = y / 100;
        assert(y == (25 * q) * 4);
        lemma_mod_multiples_basic(25 * q, 4);
    }
}

/// The leap-year count grows by one exactly at leap years.
proof fn lemma_leap_years_before_succ(y: int)
    requires
        1 <= y,
    ensures
        leap_years_before(y + 1) - leap_years_before(y) == if is_leap_year(y) {
            1int
        } else {
            0int
        },
{
    lemma_div_delta(y, 4);
    lemma_div_delta(y, 100);
    lemma_div_delta(y, 400);
    lemma_divisibility_chain(y);
}

proof fn lemma_days_before_year_succ(y: int)
    requires
        1 <= y,
    ensures
        days_before_year(y + 1) == days_before_year(y) + days_in_year(y),
{
    lemma_leap_years_before_succ(y);
}

proof fn lemma_days_before_year_mono(y1: int, y2: int)
    requires
        1 <= y1 <= y2,
    ensures
        days_before_year(y2) >= days_before_year(y1) + 365 * (y2 - y1),
    decreases y2 - y1,
{
    if y1 < y2 {
        lemma_days_before_year_mono(y1, y2 - 1);
        lemma_days_before_year_succ(y2 - 1);
    }
}

/// A valid date's index stays within its year's span of days.
proof fn lemma_day_index_in_year(d: Date)
    requires
        valid_date(d),
    ensures
        days_before_year(d.year as int) <= day_index(d),
        day_index(d) < days_before_year(d.year as int) + days_in_year(d.year as int),
{
    assert(days_before_month(d.year as int, d.month as int) + days_in_month(
        d.year as int,
        d.month as int,
    ) <= days_in_year(d.year as int));
}

/// `day_index` respects the lexicographic order strictly.
proof fn lemma_day_index_mono(d1: Date, d2: Date)
    requires
        valid_date(d1),
        valid_date(d2),
        date_lt(d1, d2),
    ensures
        day_index(d1) < day_index(d2),
{
    if d1.year < d2.year {
        lemma_day_index_in_year(d1);
        lemma_days_before_year_succ(d1.year as int);
        lemma_days_before_year_mono(d1.year as int + 1, d2.year as int);
        lemma_day_index_in_year(d2);
    } else if d1.month < d2.month {
        assert(days_before_month(d1.year as int, d1.month as int) + days_in_month(
            d1.year as int,
            d1.month as int,
        ) <= days_before_month(d2.year as int, d2.month as int));
    }
}

/// `day_index` is injective on valid dates.
pub proof fn lemma_day_index_injective(d1: Date, d2: Date)
    requires
        valid_date(d1),
        valid_date(d2),
        day_index(d1) == day_index(d2),
    ensures
        d1 == d2,
{
    if d1 != d2 {
        if date_lt(d1, d2) {
            lemma_day_index_mono(d1, d2);
        } else {
            lemma_day_index_mono(d2, d1);
        }
    }
}

/// Every valid date's index lies in `[0, max_day_index()]`.
pub proof fn lemma_day_index_range(d: Date)
    requires
        valid_date(d),
    ensures
        0 <= day_index(d) <= max_day_index(),
{
    let y = d.year as int;
    lemma_div_is_ordered_by_denominator(y - 1, 4, 100);
    lemma_div_pos_is_pos(y - 1, 400);
    if d != max_date() {
        if date_lt(d, max_date()) {
            lemma_day_index_mono(d, max_date());
        } else {
            lemma_day_index_mono(max_date(), d);
        }
    }
}

/// The calendar successor of `d`.
pub open spec fn spec_succ(d: Date) -> Date {
    if d.day < days_in_month(d.year as int, d.month as int) {
        Date { year: d.year, month: d.month, day: (d.day + 1) as u8 }
    } else if d.month < 12 {
        Date { year: d.year, month: (d.month + 1) as u8, day: 1 }
    } else {
        Date { year: (d.year + 1) as u16, month: 1, day: 1 }
    }
}

proof fn lemma_spec_succ(d: Date)
    requires
        valid_date(d),
        day_index(d) < max_day_index(),
    ensures
        valid_date(spec_succ(d)),
        day_index(spec_succ(d)) == day_index(d) + 1,
{
    if d.day < days_in_month(d.year as int, d.month as int) {
    } else if d.month < 12 {
    } else {
        assert(d.year < 9999);
        lemma_days_before_year_succ(d.year as int);
    }
}

/// Days since 0001-01-01, computed.
pub fn day_index_of(d: &Date) -> (r: u64)
    requires
        valid_date(*d),
    ensures
        r == day_index(*d),
        r <= max_day_index(),
{
    proof {
        lemma_day_index_range(*d);
        lemma_div_is_ordered_by_denominator((d.year - 1) as int, 4, 100);
        lemma_div_pos_is_pos((d.year - 1) as int, 400);
    }
    let y: u64 = (d.year - 1) as u64;
    let leaps: u64 = y / 4 - y / 100 + y / 400;
    let dbm: u64 = days_before_month_of(d.year, d.month) as u64;
    365 * y + leaps + dbm + (d.day - 1) as u64
}

pub fn is_leap_year_of(y: u16) -> (r: bool)
    ensures
        r == is_leap_year(y as int),
{
    y % 4 == 0 && (y % 100 != 0 || y % 400 == 0)
}

pub fn days_in_month_of(y: u16, m: u8) -> (r: u8)
    ensures
        r == days_in_month(y as int, m as int),
{
    if m == 2 {
        if is_leap_year_of(y) {
            29
        } else {
            28
        }
    } else if m == 4 || m == 6 || m == 9 || m == 11 {
        30
    } else {
        31
    }
}

pub fn days_before_month_of(y: u16, m: u8) -> (r: u16)
    ensures
        r == days_before_month(y as int, m as int),
{
    let f: u16 = if is_leap_year_of(y) {
        1
    } else {
        0
    };
    if m <= 1 {
        0
    } else if m == 2 {
        31
    } else if m == 3 {
        59 + f
    } else if m == 4 {
        90 + f
    } else if m == 5 {
        120 + f
    } else if m == 6 {
        151 + f
    } else if m == 7 {
        181 + f
    } else if m == 8 {
        212 + f
    } else if m == 9 {
        243 + f
    } else if m == 10 {
        273 + f
    } else if m == 11 {
        304 + f
    } else {
        334 + f
    }
}

/// The next calendar date.
pub fn date_succ(d: &Date) -> (r: Date)
    requires
        valid_date(*d),
        day_index(*d) < max_day_index(),
    ensures
        r == spec_succ(*d),
        valid_date(r),
        day_index(r) == day_index(*d) + 1,
{
    proof {
        lemma_spec_succ(*d);
    }
    let dim = days_in_month_of(d.year, d.month);
    if d.day < dim {
        Date { year: d.year, month: d.month, day: d.day + 1 }
    } else if d.month < 12 {
        Date { year: d.year, month: d.month + 1, day: 1 }
    } else {
        proof {
            assert(d.year < 9999);
        }
        Date { year: d.year + 1, month: 1, day: 1 }
    }
}

/// The valid date whose index is `idx`.
pub fn date_at(idx: u64) -> (r: Date)
    requires
        idx <= max_day_index(),
    ensures
        valid_date(r),
        day_index(r) == idx,
{
    let mut cur = Date { year: 1, month: 1, day: 1 };
    let mut i: u64 = 0;
    while i < idx
        invariant
            valid_date(cur),
            day_index(cur) == i,
            i <= idx,
            idx <= max_day_index(),
        decreases idx - i,
    {
        cur = date_succ(&cur);
        i = i + 1;
    }
    cur
}

/// What a year-month-day triple denotes: the valid date it spells, if any.
pub open spec fn spec_date_from_ymd(y: int, m: int, day: int) -> Option<Date> {
    if 1 <= y <= 9999 && 1 <= m <= 12 && 1 <= day && day <= days_in_month(y, m) {
        Some(Date { year: y as u16, month: m as u8, day: day as u8 })
    } else {
        None
    }
}

/// The checked date constructor: `None` unless the triple is a valid date
/// with a year in 1..=9999.
pub fn date_from_ymd(y: i32, m: u32, day: u32) -> (r: Option<Date>)
    ensures
        r == spec_date_from_ymd(y as int, m as int, day as int),
{
    if y < 1 || y > 9999 || m < 1 || m > 12 || day < 1 {
        return None;
    }
    let dim = days_in_month_of(y as u16, m as u8);
    if day > dim as u32 {
        None
    } else {
        Some(Date { year: y as u16, month: m as u8, day: day as u8 })
    }
}

/// The byte for decimal digit `n`.
pub open spec fn digit_byte(n: int) -> u8 {
    (0x30 + n) as u8
}

pub open spec fn is_digit(b: u8) -> bool {
    0x30 <= b <= 0x39
}

pub open spec fn digit_val(b: u8) -> int {
    b - 0x30
}

/// The canonical `YYYY-MM-DD` rendering of a date.
pub open spec fn date_bytes(d: Date) -> Seq<u8> {
    seq![
        digit_byte(d.year as int / 1000),
        digit_byte(d.year as int / 100 % 10),
        digit_byte(d.year as int / 10 % 10),
        digit_byte(d.year as int % 10),
        45u8,
        digit_byte(d.month as int / 10),
        digit_byte(d.month as int % 10),
        45u8,
        digit_byte(d.day as int / 10),
        digit_byte(d.day as int % 10),
    ]
}

/// What a `YYYY-MM-DD` byte string denotes: the valid date it spells, if any.
pub open spec fn spec_parse_date(s: Seq<u8>) -> Option<Date> {
    if s.len() == 10 && s[4] == 45u8 && s[7] == 45u8 && is_digit(s[0]) && is_digit(s[1]) && is_digit(
        s[2],
    ) && is_digit(s[3]) && is_digit(s[5]) && is_digit(s[6]) && is_digit(s[8]) && is_digit(s[9]) {
        let y = 1000 * digit_val(s[0]) + 100 * digit_val(s[1]) + 10 * digit_val(s[2]) + digit_val(
            s[3],
        );
        let m = 10 * digit_val(s[5]) + digit_val(s[6]);
        let day = 10 * digit_val(s[8]) + digit_val(s[9]);
        let d = Date { year: y as u16, month: m as u8, day: day as u8 };
        if valid_date(d) {
            Some(d)
        } else {
            None
        }
    } else {
        None
    }
}

/// A number is recovered from its four decimal digits.
proof fn lemma_four_digits(y: int)
    requires
        0 <= y,
    ensures
        y == 1000 * (y / 1000) + 100 * (y / 100 % 10) + 10 * (y / 10 % 10) + y % 10,
{
    lemma_fundamental_div_mod(y, 10);
    lemma_fundamental_div_mod(y / 10, 10);
    lemma_fundamental_div_mod(y / 100, 10);
    lemma_div_denominator(y, 10, 10);
    lemma_div_denominator(y, 100, 10);
}

/// Digit bounds of the rendering of a valid date.
proof fn lemma_date_digit_bounds(d: Date)
    requires
        valid_date(d),
    ensures
        0 <= d.year as int / 1000 <= 9,
        0 <= d.year as int / 100 % 10 <= 9,
        0 <= d.year as int / 10 % 10 <= 9,
        0 <= d.year as int % 10 <= 9,
        0 <= d.month as int / 10 <= 9,
        0 <= d.month as int % 10 <= 9,
        0 <= d.day as int / 10 <= 9,
        0 <= d.day as int % 10 <= 9,
{
    lemma_div_is_ordered(d.year as int, 9999, 1000);
    lemma_fundamental_div_mod_converse(9999, 1000, 9, 999);
    lemma_div_pos_is_pos(d.year as int, 1000);
    lemma_div_pos_is_pos(d.month as int, 10);
    lemma_div_pos_is_pos(d.day as int, 10);
    lemma_div_is_ordered(d.month as int, 99, 10);
    lemma_fundamental_div_mod_converse(99, 10, 9, 9);
    lemma_div_is_ordered(d.day as int, 99, 10);
    lemma_mod_division_less_than_divisor(d.year as int / 100, 10);
    lemma_mod_division_less_than_divisor(d.year as int / 10, 10);
    lemma_mod_division_less_than_divisor(d.year as int, 10);
    lemma_mod_division_less_than_divisor(d.month as int, 10);
    lemma_mod_division_less_than_divisor(d.day as int, 10);
}

/// Parsing the canonical rendering of a valid date gives that date back.
pub proof fn lemma_date_round_trip(d: Date)
    requires
        valid_date(d),
    ensures
        spec_parse_date(date_bytes(d)) == Some(d),
{
    lemma_date_digit_bounds(d);
    lemma_four_digits(d.year as int);
    lemma_fundamental_div_mod(d.month as int, 10);
    lemma_fundamental_div_mod(d.day as int, 10);
}

/// A string that parses as a date is that date's canonical rendering.
pub proof fn lemma_parse_canonical(s: Seq<u8>, d: Date)
    requires
        spec_parse_date(s) == Some(d),
    ensures
        valid_date(d),
        date_bytes(d) == s,
{
    let a = digit_val(s[0]);
    let b = digit_val(s[1]);
    let c = digit_val(s[2]);
    let e = digit_val(s[3]);
    let y = 1000 * a + 100 * b + 10 * c + e;
    lemma_fundamental_div_mod_converse(y, 1000, a, 100 * b + 10 * c + e);
    lemma_fundamental_div_mod_converse(y, 100, 10 * a + b, 10 * c + e);
    lemma_fundamental_div_mod_converse(y, 10, 100 * a + 10 * b + c, e);
    lemma_fundamental_div_mod_converse(10 * a + b, 10, a, b);
    lemma_fundamental_div_mod_converse(100 * a + 10 * b + c, 10, 10 * a + b, c);
    let m = 10 * digit_val(s[5]) + digit_val(s[6]);
    lemma_fundamental_div_mod_converse(m, 10, digit_val(s[5]), digit_val(s[6]));
    let day = 10 * digit_val(s[8]) + digit_val(s[9]);
    lemma_fundamental_div_mod_converse(day, 10, digit_val(s[8]), digit_val(s[9]));
    assert(date_bytes(d) =~= s);
}

/// Renders a valid date as `YYYY-MM-DD`.
pub fn date_to_bytes(d: &Date) -> (r: Vec<u8>)
    requires
        valid_date(*d),
    ensures
        r@ == date_bytes(*d),
{
    proof {
        lemma_date_digit_bounds(*d);
    }
    let mut out: Vec<u8> = Vec::new();
    out.push(0x30 + (d.year / 1000) as u8);
    out.push(0x30 + (d.year / 100 % 10) as u8);
    out.push(0x30 + (d.year / 10 % 10) as u8);
    out.push(0x30 + (d.year % 10) as u8);
    out.push(45);
    out.push(0x30 + d.month / 10);
    out.push(0x30 + d.month % 10);
    out.push(45);
    out.push(0x30 + d.day / 10);
    out.push(0x30 + d.day % 10);
    proof {
        assert(out@ =~= date_bytes(*d));
    }
    out
}

/// Parses a `YYYY-MM-DD` byte string; `None` unless it spells a valid date
/// in canonical form.
pub fn parse_date(s: &Vec<u8>) -> (r: Option<Date>)
    ensures
        r == spec_parse_date(s@),
{
    if s.len() != 10 {
        return None;
    }
    let mut i: usize = 0;
    while i < 10
        invariant
            i <= 10,
            s@.len() == 10,
            forall|j: int| 0 <= j < i && j != 4 && j != 7 ==> is_digit(s@[j]),
            forall|j: int| 0 <= j < i && (j == 4 || j == 7) ==> s@[j] == 45u8,
        decreases 10 - i,
    {
        let b = s[i];
        if i == 4 || i == 7 {
            if b != 45 {
                return None;
            }
        } else {
            if b < 0x30 || b > 0x39 {
                return None;
            }
        }
        i = i + 1;
    }
    let y: u16 = 1000 * (s[0] - 0x30) as u16 + 100 * (s[1] - 0x30) as u16 + 10 * (s[2]
        - 0x30) as u16 + (s[3] - 0x30) as u16;
    let m: u8 = 10 * (s[5] - 0x30) + (s[6] - 0x30);
    let day: u8 = 10 * (s[8] - 0x30) + (s[9] - 0x30);
    let d = Date { year: y, month: m, day };
    if 1 <= y && 1 <= m && m <= 12 && 1 <= day && day <= days_in_month_of(y, m) {
        Some(d)
    } else {
        None
    }
}

/// There is a valid date at every index up to the maximum.
pub proof fn lemma_date_exists(n: int)
    requires
        0 <= n <= max_day_index(),
    ensures
        exists|d: Date| valid_date(d) && day_index(d) == n,
    decreases n,
{
    if n == 0 {
        let d0 = Date { year: 1, month: 1, day: 1 };
        assert(valid_date(d0) && day_index(d0) == 0);
    } else {
        lemma_date_exists(n - 1);
        let d = choose|d: Date| valid_date(d) && day_index(d) == n - 1;
        lemma_spec_succ(d);
        assert(valid_date(spec_succ(d)) && day_index(spec_succ(d)) == n);
    }
}

} // verus!
