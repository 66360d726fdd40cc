//! Calendar dates as day numbers.

use chrono::Datelike;
use vstd::prelude::*;

verus! {

/// The day number of the calendar date with this year, month and day of
/// the month, as the calendar library counts it; `None` where there is no
/// such date, or none that it can represent.
pub uninterp spec fn day_number(year: i32, month: u32, day: u32) -> Option<i32>;

/// Asks the calendar library for a date's day number:
/// `chrono::NaiveDate::from_ymd_opt` makes the date, or `None` where the
/// day does not exist or the year is out of range, and
/// `Datelike::num_days_from_ce` counts its days, with 1 January of the
/// year 1 as day 1. Every date that the library makes lies between its
/// `NaiveDate::MIN` and `NaiveDate::MAX`, whose day numbers are `MIN_DAYS`
/// and `MAX_DAYS`.
#[verifier::external_body]
fn calendar_day_number(year: i32, month: u32, day: u32) -> (r: Option<i32>)
    ensures
        r == day_number(year, month, day),
        r matches Some(n) ==> MIN_DAYS <= n <= MAX_DAYS,
{
    match chrono::NaiveDate::from_ymd_opt(year, month, day) {
        Some(date) => Some(date.num_days_from_ce()),
        None => None,
    }
}

/// The day number of the earliest date that can be represented:
/// 1 January of the year -262143.
pub const MIN_DAYS: i32 = -95_746_129;

/// The day number of the latest date that can be represented:
/// 31 December of the year 262142.
pub const MAX_DAYS: i32 = 95_745_399;

/// A day of the proleptic Gregorian calendar, held as its day number:
/// 1 January of the year 1 is day 1, and later days have greater numbers.
#[derive(Clone, Copy, Debug, PartialEq, Eq, Structural)]
pub struct Date {
    pub days: i32,
}

impl Date {
    /// Whether the day number lies in the range of dates that have a
    /// calendar form.
    pub open spec fn in_range(self) -> bool {
        MIN_DAYS <= self.days <= MAX_DAYS
    }

    /// The date with this year, month and day of the month; `None` where
    /// the calendar has no such date.
    pub fn from_ymd_opt(year: i32, month: u32, day: u32) -> (r: Option<Date>)
        ensures
            r == Date::of_day_number(day_number(year, month, day)),
            r matches Some(date) ==> date.in_range(),
    {
        match calendar_day_number(year, month, day) {
            Some(days) => Some(Date { days }),
            None => None,
        }
    }

    /// The date with the given day number, where there is one.
    pub open spec fn of_day_number(n: Option<i32>) -> Option<Date> {
        match n {
            Some(days) => Some(Date { days }),
            None => None,
        }
    }

    /// The earliest date.
    pub fn min_value() -> (r: Date)
        ensures
            r.days == MIN_DAYS,
            r.in_range(),
    {
        Date { days: MIN_DAYS }
    }

    /// The latest date.
    pub fn max_value() -> (r: Date)
        ensures
            r.days == MAX_DAYS,
            r.in_range(),
    {
        Date { days: MAX_DAYS }
    }
}

} // verus!
