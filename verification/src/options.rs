//! The run's configuration: which dates to process, at which log level, and
//! where the report goes, together with the parsers for the textual forms
//! the command line supplies.

use vstd::prelude::*;
use crate::date::{
    Date, day_index, day_index_of, digit_val, is_digit, parse_date, spec_parse_date, valid_date,
};

verus! {

/// Which dates a run covers.
///
/// `duration` is a signed day offset: the range runs from `date` to
/// `date + duration` inclusive (normalised so the smaller end comes first).
/// `week` restricts the range to the dates in that week-of-month bucket.
#[derive(PartialEq, Eq, Structural, Clone, Copy, Debug)]
pub struct DateOptions {
    pub date: Date,
    pub duration: Option<i64>,
    pub week: Option<u8>,
}

/// Logging verbosity, in increasing order of chattiness.
#[derive(PartialEq, Eq, Structural, Clone, Copy, Debug)]
pub enum LogLevel {
    Error,
    Warn,
    Info,
    Debug,
    Trace,
}

/// The full configuration of one run.  When `output` is `None` the report
/// path defaults to `afd-bios-<DATE>.csv` for the start date.
pub struct Options {
    pub date_options: DateOptions,
    pub log_level: LogLevel,
    pub output: Option<Vec<u8>>,
}

pub open spec fn level_name(l: LogLevel) -> Seq<u8> {
    match l {
        LogLevel::Error => seq![69u8, 114u8, 114u8, 111u8, 114u8],
        LogLevel::Warn => seq![87u8, 97u8, 114u8, 110u8],
        LogLevel::Info => seq![73u8, 110u8, 102u8, 111u8],
        LogLevel::Debug => seq![68u8, 101u8, 98u8, 117u8, 103u8],
        LogLevel::Trace => seq![84u8, 114u8, 97u8, 99u8, 101u8],
    }
}

pub open spec fn spec_parse_level(s: Seq<u8>) -> Option<LogLevel> {
    if s == level_name(LogLevel::Error) {
        Some(LogLevel::Error)
    } else if s == level_name(LogLevel::Warn) {
        Some(LogLevel::Warn)
    } else if s == level_name(LogLevel::Info) {
        Some(LogLevel::Info)
    } else if s == level_name(LogLevel::Debug) {
        Some(LogLevel::Debug)
    } else if s == level_name(LogLevel::Trace) {
        Some(LogLevel::Trace)
    } else {
        None
    }
}

/// Parses one of the five level names, capitalised as documented.
pub fn parse_level(s: &Vec<u8>) -> (r: Option<LogLevel>)
    ensures
        r == spec_parse_level(s@),
{
    let error_name: Vec<u8> = vec![69u8, 114u8, 114u8, 111u8, 114u8];
    let warn_name: Vec<u8> = vec![87u8, 97u8, 114u8, 110u8];
    let info_name: Vec<u8> = vec![73u8, 110u8, 102u8, 111u8];
    let debug_name: Vec<u8> = vec![68u8, 101u8, 98u8, 117u8, 103u8];
    let trace_name: Vec<u8> = vec![84u8, 114u8, 97u8, 99u8, 101u8];
    if crate::bytes::bytes_eq(s, &error_name) {
        Some(LogLevel::Error)
    } else if crate::bytes::bytes_eq(s, &warn_name) {
        Some(LogLevel::Warn)
    } else if crate::bytes::bytes_eq(s, &info_name) {
        Some(LogLevel::Info)
    } else if crate::bytes::bytes_eq(s, &debug_name) {
        Some(LogLevel::Debug)
    } else if crate::bytes::bytes_eq(s, &trace_name) {
        Some(LogLevel::Trace)
    } else {
        None
    }
}

/// The value of one to three decimal digits.
pub open spec fn spec_parse_week(s: Seq<u8>) -> Option<u8> {
    if 1 <= s.len() <= 3 && (forall|j: int| 0 <= j < s.len() ==> is_digit(s[j])) {
        let v = if s.len() == 1 {
            digit_val(s[0])
        } else if s.len() == 2 {
            10 * digit_val(s[0]) + digit_val(s[1])
        } else {
            100 * digit_val(s[0]) + 10 * digit_val(s[1]) + digit_val(s[2])
        };
        if v <= 255 {
            Some(v as u8)
        } else {
            None
        }
    } else {
        None
    }
}

/// Parses a week-of-month number: one to three decimal digits, at most 255.
pub fn parse_week(s: &Vec<u8>) -> (r: Option<u8>)
    ensures
        r == spec_parse_week(s@),
{
    if s.len() < 1 || s.len() > 3 {
        return None;
    }
    let mut i: usize = 0;
    while i < s.len()
        invariant
            i <= s.len(),
            forall|j: int| 0 <= j < i ==> is_digit(s@[j]),
        decreases s.len() - i,
    {
        if s[i] < 0x30 || s[i] > 0x39 {
            return None;
        }
        i = i + 1;
    }
    let v: u32 = if s.len() == 1 {
        (s[0] - 0x30) as u32
    } else if s.len() == 2 {
        10 * (s[0] - 0x30) as u32 + (s[1] - 0x30) as u32
    } else {
        100 * (s[0] - 0x30) as u32 + 10 * (s[1] - 0x30) as u32 + (s[2] - 0x30) as u32
    };
    if v <= 255 {
        Some(v as u8)
    } else {
        None
    }
}

/// A command-line value that could not be read, or a missing start date.
#[derive(PartialEq, Eq, Structural, Clone, Copy, Debug)]
pub enum ArgError {
    BadDate,
    BadDateRange,
    BadWeek,
    BadLevel,
    NoStartDate,
}

/// The mathematical shadow of `Options`.
pub ghost struct OptionsV {
    pub date_options: DateOptions,
    pub log_level: LogLevel,
    pub output: Option<Seq<u8>>,
}

impl View for Options {
    type V = OptionsV;

    open spec fn view(&self) -> OptionsV {
        OptionsV {
            date_options: self.date_options,
            log_level: self.log_level,
            output: match self.output {
                Some(v) => Some(v@),
                None => None,
            },
        }
    }
}

pub open spec fn view_opt_bytes(o: Option<Vec<u8>>) -> Option<Seq<u8>> {
    match o {
        Some(v) => Some(v@),
        None => None,
    }
}

/// The position of the first `/`, or the length when there is none.
pub open spec fn first_slash(s: Seq<u8>) -> int
    decreases s.len(),
{
    if s.len() == 0 {
        0
    } else if s[0] == 47 {
        0
    } else {
        1 + first_slash(s.drop_first())
    }
}

/// The position found by a scan is the first slash.
proof fn lemma_first_slash_at(s: Seq<u8>, j: int)
    requires
        0 <= j <= s.len(),
        forall|t: int| 0 <= t < j ==> s[t] != 47,
        j < s.len() ==> s[j] == 47,
    ensures
        first_slash(s) == j,
    decreases j,
{
    if j > 0 {
        assert forall|t: int| 0 <= t < j - 1 implies s.drop_first()[t] != 47 by {
            assert(s.drop_first()[t] == s[t + 1]);
        }
        assert(j - 1 < s.drop_first().len() ==> s.drop_first()[j - 1] == 47);
        lemma_first_slash_at(s.drop_first(), j - 1);
    }
}

fn find_slash(s: &Vec<u8>) -> (r: usize)
    ensures
        r == first_slash(s@),
        r <= s@.len(),
{
    let mut j: usize = 0;
    while j < s.len()
        invariant
            j <= s.len(),
            forall|t: int| 0 <= t < j ==> s@[t] != 47,
        decreases s.len() - j,
    {
        if s[j] == 47 {
            proof {
                lemma_first_slash_at(s@, j as int);
            }
            return j;
        }
        j = j + 1;
    }
    proof {
        lemma_first_slash_at(s@, s@.len() as int);
    }
    j
}

fn sub_bytes(v: &Vec<u8>, from: usize, to: usize) -> (r: Vec<u8>)
    requires
        from <= to <= v@.len(),
    ensures
        r@ == v@.subrange(from as int, to as int),
{
    let mut out: Vec<u8> = Vec::new();
    let mut i: usize = from;
    while i < to
        invariant
            from <= i <= to <= v@.len(),
            out@ == v@.subrange(from as int, i as int),
        decreases to - i,
    {
        out.push(v[i]);
        proof {
            assert(out@ =~= v@.subrange(from as int, i + 1));
        }
        i = i + 1;
    }
    out
}

/// The range's start: everything before the first `/`.
pub open spec fn spec_range_start(r: Seq<u8>) -> Seq<u8> {
    r.take(first_slash(r))
}

/// The range's end: everything after the first `/`, absent without one.
pub open spec fn spec_range_end(r: Seq<u8>) -> Option<Seq<u8>> {
    if first_slash(r) < r.len() {
        Some(r.skip(first_slash(r) + 1))
    } else {
        None
    }
}

/// The run's start date: the range's start when a range was given, else the
/// date flag, else today's date.
pub open spec fn spec_start_date(
    date: Option<Seq<u8>>,
    range: Option<Seq<u8>>,
    today: Option<Date>,
) -> Result<Date, ArgError> {
    match range {
        Some(r) => match spec_parse_date(spec_range_start(r)) {
            Some(d) => Ok(d),
            None => Err(ArgError::BadDateRange),
        },
        None => match date {
            Some(b) => match spec_parse_date(b) {
                Some(d) => Ok(d),
                None => Err(ArgError::BadDate),
            },
            None => match today {
                Some(t) => Ok(t),
                None => Err(ArgError::NoStartDate),
            },
        },
    }
}

/// The range's end date, when one was given.
pub open spec fn spec_end_date(range: Option<Seq<u8>>) -> Result<Option<Date>, ArgError> {
    match range {
        Some(r) => match spec_range_end(r) {
            Some(b) => match spec_parse_date(b) {
                Some(d) => Ok(Some(d)),
                None => Err(ArgError::BadDateRange),
            },
            None => Ok(None),
        },
        None => Ok(None),
    }
}

/// The week filter: read only when a date or range was explicitly given,
/// ignored otherwise.
pub open spec fn spec_week_value(
    date: Option<Seq<u8>>,
    range: Option<Seq<u8>>,
    week: Option<Seq<u8>>,
) -> Result<Option<u8>, ArgError> {
    if date is Some || range is Some {
        match week {
            Some(b) => match spec_parse_week(b) {
                Some(w) => Ok(Some(w)),
                None => Err(ArgError::BadWeek),
            },
            None => Ok(None),
        }
    } else {
        Ok(None)
    }
}

/// The log level, defaulting to `Warn`.
pub open spec fn spec_level_value(level: Option<Seq<u8>>) -> Result<LogLevel, ArgError> {
    match level {
        Some(b) => match spec_parse_level(b) {
            Some(l) => Ok(l),
            None => Err(ArgError::BadLevel),
        },
        None => Ok(LogLevel::Warn),
    }
}

/// The whole flag fan-in: checked left to right, start date before range
/// end, then week, then level.  The duration is the signed day offset from
/// the start to the range's end.
pub open spec fn spec_build_options(
    date: Option<Seq<u8>>,
    range: Option<Seq<u8>>,
    week: Option<Seq<u8>>,
    level: Option<Seq<u8>>,
    output: Option<Seq<u8>>,
    today: Option<Date>,
) -> Result<OptionsV, ArgError> {
    match spec_start_date(date, range, today) {
        Err(e) => Err(e),
        Ok(start) => match spec_end_date(range) {
            Err(e) => Err(e),
            Ok(end) => match spec_week_value(date, range, week) {
                Err(e) => Err(e),
                Ok(w) => match spec_level_value(level) {
                    Err(e) => Err(e),
                    Ok(l) => Ok(
                        OptionsV {
                            date_options: DateOptions {
                                date: start,
                                duration: match end {
                                    Some(e) => Some((day_index(e) - day_index(start)) as i64),
                                    None => None,
                                },
                                week: w,
                            },
                            log_level: l,
                            output,
                        },
                    ),
                },
            },
        },
    }
}

/// Builds the run's configuration from the raw flag values.  A range's
/// start takes priority over the date flag; with neither, the run starts
/// today.  The week filter applies only beside an explicit date or range.
pub fn build_options(
    date: Option<Vec<u8>>,
    range: Option<Vec<u8>>,
    week: Option<Vec<u8>>,
    level: Option<Vec<u8>>,
    output: Option<Vec<u8>>,
    today: Option<Date>,
) -> (r: Result<Options, ArgError>)
    requires
        today matches Some(t) ==> valid_date(t),
    ensures
        ({
            let s = spec_build_options(
                view_opt_bytes(date),
                view_opt_bytes(range),
                view_opt_bytes(week),
                view_opt_bytes(level),
                view_opt_bytes(output),
                today,
            );
            match r {
                Ok(o) => s == Ok::<OptionsV, ArgError>(o@),
                Err(e) => s == Err::<OptionsV, ArgError>(e),
            }
        }),
{
    let has_date_flag = date.is_some();
    let has_range_flag = range.is_some();
    let start: Date = match &range {
        Some(rg) => {
            let p = find_slash(rg);
            let sb = sub_bytes(rg, 0, p);
            proof {
                assert(sb@ =~= spec_range_start(rg@));
            }
            match parse_date(&sb) {
                Some(d) => d,
                None => {
                    return Err(ArgError::BadDateRange);
                },
            }
        },
        None => match &date {
            Some(b) => match parse_date(b) {
                Some(d) => d,
                None => {
                    return Err(ArgError::BadDate);
                },
            },
            None => match today {
                Some(t) => t,
                None => {
                    return Err(ArgError::NoStartDate);
                },
            },
        },
    };
    let end: Option<Date> = match &range {
        Some(rg) => {
            let p = find_slash(rg);
            if p < rg.len() {
                let eb = sub_bytes(rg, p + 1, rg.len());
                proof {
                    assert(spec_range_end(rg@) == Some(eb@));
                }
                match parse_date(&eb) {
                    Some(d) => Some(d),
                    None => {
                        return Err(ArgError::BadDateRange);
                    },
                }
            } else {
                None
            }
        },
        None => None,
    };
    let duration: Option<i64> = match &end {
        Some(e) => Some(day_index_of(e) as i64 - day_index_of(&start) as i64),
        None => None,
    };
    let week_val: Option<u8> = if has_date_flag || has_range_flag {
        match &week {
            Some(b) => match parse_week(b) {
                Some(w) => Some(w),
                None => {
                    return Err(ArgError::BadWeek);
                },
            },
            None => None,
        }
    } else {
        None
    };
    let log_level: LogLevel = match &level {
        Some(b) => match parse_level(b) {
            Some(l) => l,
            None => {
                return Err(ArgError::BadLevel);
            },
        },
        None => LogLevel::Warn,
    };
    Ok(Options { date_options: DateOptions { date: start, duration, week: week_val }, log_level, output })
}

} // verus!
