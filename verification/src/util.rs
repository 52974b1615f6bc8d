//! The error kinds, the wall-clock capability and the last-date scan.

use vstd::prelude::*;

use chrono::Datelike;

use crate::date::{days_in_month, parse_date, Date};
use crate::text::{lines_of, trim};

verus! {

/// Everything that can go wrong while loading, saving or changing a log.
#[derive(Clone, Copy, PartialEq, Eq, Structural, Debug)]
pub enum TodoError {
    /// A day block's first line is not a valid bracketed date.
    MalformedDate,
    /// A line expected to be a task does not start with the task marker.
    MalformedTask,
    /// A stored date lies strictly after today.
    ClockSkew,
    /// Nothing needs saving; not a genuine fault.
    UpToDate,
}

impl TodoError {
    /// A short description, for callers that print errors.
    pub fn message(&self) -> (r: &'static str)
        ensures
            match self {
                TodoError::MalformedDate => r@ == "unable to parse day: malformed date"@,
                TodoError::MalformedTask => r@ == "unable to parse task"@,
                TodoError::ClockSkew => r@ == "invalid date: date on file is ahead of today"@,
                TodoError::UpToDate => r@ == "file already up to date"@,
            },
    {
        match self {
            TodoError::MalformedDate => "unable to parse day: malformed date",
            TodoError::MalformedTask => "unable to parse task",
            TodoError::ClockSkew => "invalid date: date on file is ahead of today",
            TodoError::UpToDate => "file already up to date",
        }
    }
}

/// Relies on `chrono::Local::now().date_naive()` with chrono's `Datelike`
/// accessors: the triple is the wall clock's local calendar date, so its month
/// lies in 1..=12 and its day in 1..=the month's length, `NaiveDate` holding
/// only valid proleptic Gregorian dates. Like chrono itself, this aborts on a
/// clock set before 1970 or beyond chrono's representable years.
#[verifier::external_body]
fn now_ymd() -> (r: (i64, u32, u32))
    ensures
        1 <= r.1 <= 12,
        1 <= r.2 <= days_in_month(r.0 as int, r.1 as int),
{
    let d = chrono::Local::now().date_naive();
    (d.year() as i64, d.month(), d.day())
}

/// What a clock triple becomes: `Some` of the date exactly when the year fits
/// the four-digit date line, the month and day carried through unchanged.
pub open spec fn spec_date_of_ymd(y: int, m: u32, d: u32) -> Option<Date> {
    if 0 <= y <= 9999 {
        Some(Date { year: y as u32, month: m, day: d })
    } else {
        None
    }
}

/// Turns a clock triple into the library's date; `Some` exactly when the year
/// fits the four-digit date line.
pub fn date_of_ymd(y: i64, m: u32, d: u32) -> (r: Option<Date>)
    ensures
        r == spec_date_of_ymd(y as int, m, d),
{
    if 0 <= y && y <= 9999 {
        Some(Date { year: y as u32, month: m, day: d })
    } else {
        None
    }
}

/// The wall clock's local calendar date, if the four-digit date line can hold
/// its year; what comes back is always a valid date.
pub fn today() -> (r: Option<Date>)
    ensures
        match r {
            Some(d) => d.valid(),
            None => true,
        },
{
    let (y, m, d) = now_ymd();
    date_of_ymd(y, m, d)
}

/// The date of the last line of `ls` that, once trimmed, is an exact
/// bracketed date line.
pub open spec fn spec_last_day(ls: Seq<Seq<char>>) -> Option<Date>
    decreases ls.len(),
{
    if ls.len() == 0 {
        None
    } else {
        match parse_date(trim(ls.last())) {
            Some(d) => Some(d),
            None => spec_last_day(ls.drop_last()),
        }
    }
}

/// Scans the text from the end for a line that, once trimmed, is an exact
/// bracketed date line, and returns that date.
pub fn get_last_day(content: &str) -> (r: Option<Date>)
    ensures
        r == spec_last_day(lines_of(content@)),
{
    let lines = crate::text::split_lines(content);
    let ghost ls = lines_of(content@);
    let mut i: usize = lines.len();
    proof {
        assert(ls.subrange(0, i as int) =~= ls);
    }
    while i > 0
        invariant
            0 <= i <= lines.len(),
            lines.deep_view() == ls,
            spec_last_day(ls) == spec_last_day(ls.subrange(0, i as int)),
        decreases i,
    {
        let line = &lines[i - 1];
        let r = crate::date::parse_date_line(crate::text::trim_str(line.as_str()));
        proof {
            let pre = ls.subrange(0, i as int);
            assert(pre.last() == ls[i - 1]);
            assert(pre.drop_last() =~= ls.subrange(0, i - 1));
        }
        if let Some(d) = r {
            return Some(d);
        }
        i = i - 1;
    }
    proof {
        assert(ls.subrange(0, 0) =~= Seq::<Seq<char>>::empty());
    }
    None
}

} // verus!
