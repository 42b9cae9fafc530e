//! The local wall clock and the civil calendar, as plain values.

use chrono::Datelike;
use chrono::Timelike;
use vstd::prelude::*;

verus! {

/// A local date and time of day, to the minute.
#[derive(Clone, Copy, Debug, PartialEq, Eq)]
pub struct LocalMoment {
    pub year: i32,
    pub month: u32,
    pub day: u32,
    /// Day of the week, Monday = 1 to Sunday = 7.
    pub weekday: u32,
    pub hour: u32,
    pub minute: u32,
}

impl LocalMoment {
    /// Every field lies in its calendar range.
    pub open spec fn wf(&self) -> bool {
        &&& 1 <= self.month <= 12
        &&& 1 <= self.day <= 31
        &&& 1 <= self.weekday <= 7
        &&& self.hour < 24
        &&& self.minute < 60
    }
}

/// Relies on `chrono::Local::now` and the `Datelike` / `Timelike` accessors,
/// whose values chrono keeps in their calendar ranges.
#[verifier::external_body]
pub(crate) fn local_now() -> (r: LocalMoment)
    ensures
        r.wf(),
{
    let now = chrono::Local::now();
    LocalMoment {
        year: now.year(),
        month: now.month(),
        day: now.day(),
        weekday: now.weekday().number_from_monday(),
        hour: now.hour(),
        minute: now.minute(),
    }
}

/// A leap year of the proleptic Gregorian calendar.
pub open spec fn is_leap_year(year: int) -> bool {
    (year % 4 == 0 && year % 100 != 0) || year % 400 == 0
}

/// The number of days of `month` in `year`.
pub open spec fn days_in_month(year: int, month: int) -> int {
    if month == 2 {
        if is_leap_year(year) { 29 } else { 28 }
    } else if month == 4 || month == 6 || month == 9 || month == 11 {
        30
    } else {
        31
    }
}

/// Days of `year` before the first of `month`.
pub open spec fn days_before_month(year: int, month: int) -> int
    decreases month,
{
    if month <= 1 {
        0
    } else {
        days_before_month(year, month - 1) + days_in_month(year, month - 1)
    }
}

/// The date exists in the calendar, within the years a chrono date can hold.
pub open spec fn date_exists(year: i32, month: u32, day: u32) -> bool {
    &&& -262_143 <= year <= 262_142
    &&& 1 <= month <= 12
    &&& 1 <= day <= days_in_month(year as int, month as int)
}

/// The number of the day in the proleptic Gregorian calendar, 0001-01-01
/// being day 1: 365 days a year, one more in each leap year before it.
pub open spec fn days_from_ce(year: i32, month: u32, day: u32) -> int {
    let y = year - 1;
    365 * y + y / 4 - y / 100 + y / 400 + days_before_month(year as int, month as int) + day
}

/// Relies on `chrono::NaiveDate::from_ymd_opt`, which gives `None` exactly
/// for a day that does not exist, an invalid month or day, or a year out of
/// its range, and on `Datelike::num_days_from_ce` on the date it makes.
#[verifier::external_body]
pub(crate) fn day_number(year: i32, month: u32, day: u32) -> (r: Option<i32>)
    ensures
        r is Some <==> date_exists(year, month, day),
        r matches Some(n) ==> n == days_from_ce(year, month, day),
{
    chrono::NaiveDate::from_ymd_opt(year, month, day).map(|d| d.num_days_from_ce())
}

} // verus!
