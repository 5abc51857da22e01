//! Calendar dates and months as plain numbers.
//!
//! A `Date` is a proleptic-Gregorian calendar date (UTC); a `Month` is a
//! calendar month. Ordering on both is lexicographic on the fields, stated
//! over integer triples/pairs so that contracts elsewhere can reuse it.
//! The one conversion the library cannot compute itself — the UTC calendar
//! date of an epoch-seconds instant — is obtained from chrono behind a
//! trusted wrapper.

use vstd::prelude::*;

verus! {

/// A calendar date (UTC, proleptic Gregorian), held as plain numbers.
#[derive(Clone, Copy, PartialEq, Eq, Structural, Debug)]
pub struct Date {
    pub year: i32,
    pub month: u8,
    pub day: u8,
}

/// A calendar month, held as plain numbers.
#[derive(Clone, Copy, PartialEq, Eq, Structural, Debug)]
pub struct Month {
    pub year: i32,
    pub month: u8,
}

/// The mathematical value of a `Date`: a (year, month, day) triple.
pub open spec fn date_key(d: Date) -> (int, int, int) {
    (d.year as int, d.month as int, d.day as int)
}

/// Lexicographic order on (year, month, day) triples: on-or-before.
pub open spec fn triple_le(a: (int, int, int), b: (int, int, int)) -> bool {
    a.0 < b.0 || (a.0 == b.0 && (a.1 < b.1 || (a.1 == b.1 && a.2 <= b.2)))
}

/// Lexicographic order on (year, month, day) triples: strictly before.
pub open spec fn triple_lt(a: (int, int, int), b: (int, int, int)) -> bool {
    triple_le(a, b) && a != b
}

/// `a` is on or before `b` in calendar order.
pub fn date_le(a: &Date, b: &Date) -> (r: bool)
    ensures
        r == triple_le(date_key(*a), date_key(*b)),
{
    a.year < b.year || (a.year == b.year && (a.month < b.month || (a.month == b.month
        && a.day <= b.day)))
}

/// `a` is strictly before `b` in calendar order.
pub fn date_lt(a: &Date, b: &Date) -> (r: bool)
    ensures
        r == triple_lt(date_key(*a), date_key(*b)),
{
    a.year < b.year || (a.year == b.year && (a.month < b.month || (a.month == b.month
        && a.day < b.day)))
}

/// Smallest epoch-seconds instant the library accepts.
pub const MIN_TIMESTAMP: i64 = -8_000_000_000_000;

/// Largest epoch-seconds instant the library accepts.
pub const MAX_TIMESTAMP: i64 = 8_000_000_000_000;

/// An instant the library accepts: one whose calendar date exists. The bounds
/// lie strictly inside the range chrono can represent (years around
/// -251,000 to 255,000, against chrono's -262,143 to 262,142).
pub open spec fn valid_timestamp(ts: i64) -> bool {
    MIN_TIMESTAMP <= ts <= MAX_TIMESTAMP
}

/// The (year, month, day) triple of the UTC calendar date containing an
/// epoch-seconds instant: a function of the instant alone, computed by chrono.
pub uninterp spec fn date_of_timestamp(ts: int) -> (int, int, int);

/// Relies on chrono's `DateTime::<Utc>::from_timestamp` and the
/// `Datelike` accessors `year`/`month`/`day`: they return the UTC calendar
/// date of an epoch-seconds instant, a function of the instant alone, with
/// the month in 1..=12 and the day in 1..=31; every instant in
/// `MIN_TIMESTAMP..=MAX_TIMESTAMP` has a representable date.
#[verifier::external_body]
pub(crate) fn date_from_timestamp(ts: i64) -> (r: Date)
    requires
        valid_timestamp(ts),
    ensures
        date_key(r) == date_of_timestamp(ts as int),
        1 <= r.month <= 12,
        1 <= r.day <= 31,
{
    let dt = chrono::DateTime::<chrono::Utc>::from_timestamp(ts, 0).unwrap();
    let d = dt.date_naive();
    Date {
        year: chrono::Datelike::year(&d),
        month: chrono::Datelike::month(&d) as u8,
        day: chrono::Datelike::day(&d) as u8,
    }
}

/// A well-formed month: the month number is a calendar month.
pub open spec fn month_wf(m: Month) -> bool {
    1 <= m.month <= 12
}

/// The mathematical value of a `Month`: a (year, month) pair.
pub open spec fn month_key(m: Month) -> (int, int) {
    (m.year as int, m.month as int)
}

/// Months since the start of year zero; orders months chronologically.
pub open spec fn month_index(m: (int, int)) -> int {
    m.0 * 12 + m.1 - 1
}

/// The month after `m`.
pub open spec fn month_succ(m: (int, int)) -> (int, int) {
    if m.1 == 12 {
        (m.0 + 1, 1)
    } else {
        (m.0, m.1 + 1)
    }
}

/// The month before `m`.
pub open spec fn month_pred(m: (int, int)) -> (int, int) {
    if m.1 == 1 {
        (m.0 - 1, 12)
    } else {
        (m.0, m.1 - 1)
    }
}

/// `m` stepped forward by `k` calendar months.
pub open spec fn month_plus(m: (int, int), k: nat) -> (int, int)
    decreases k,
{
    if k == 0 {
        m
    } else {
        month_succ(month_plus(m, (k - 1) as nat))
    }
}

/// The first day of month `m`, as a date triple.
pub open spec fn first_day(m: (int, int)) -> (int, int, int) {
    (m.0, m.1, 1)
}

/// The month after `m`; the caller keeps the year in range.
pub fn next_month(m: &Month) -> (r: Month)
    requires
        month_wf(*m),
        m.month == 12 ==> m.year < i32::MAX,
    ensures
        month_wf(r),
        month_key(r) == month_succ(month_key(*m)),
{
    if m.month == 12 {
        Month { year: m.year + 1, month: 1 }
    } else {
        Month { year: m.year, month: m.month + 1 }
    }
}

/// The month before `m`; the caller keeps the year in range.
pub fn prev_month(m: &Month) -> (r: Month)
    requires
        month_wf(*m),
        m.month == 1 ==> m.year > i32::MIN,
    ensures
        month_wf(r),
        month_key(r) == month_pred(month_key(*m)),
{
    if m.month == 1 {
        Month { year: m.year - 1, month: 12 }
    } else {
        Month { year: m.year, month: m.month - 1 }
    }
}

} // verus!
