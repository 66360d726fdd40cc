//! Reading a date that a user has typed: a whole date, a month and a day
//! of the year of the date shown, or a day of the month of the date shown.

use chrono::{Datelike, NaiveDate};
use vstd::prelude::*;
use crate::date::Date;

verus! {

/// The day number of the date that the text gives in the form year, month
/// and day with hyphens between them, as the calendar library reads it;
/// `None` where it reads no date.
pub uninterp spec fn parsed_date(text: Seq<char>) -> Option<i32>;

/// The number that the text gives in decimal digits, as the standard
/// library reads it; `None` where it reads no number of 32 bits.
pub uninterp spec fn parsed_number(text: Seq<char>) -> Option<u32>;

/// The year of the date with the day number `days`, as the calendar
/// library counts it; `None` where it has no such date.
pub uninterp spec fn year_of(days: i32) -> Option<i32>;

/// The day number of the date that has the month and the day of the date
/// with the day number `days`, in the year `year`; `None` where the
/// calendar library has no such date.
pub uninterp spec fn moved_to_year(days: i32, year: i32) -> Option<i32>;

/// The day number of the date that has the year and the month of the date
/// with the day number `days`, on the day `day` of the month; `None` where
/// the calendar library has no such date.
pub uninterp spec fn moved_to_day(days: i32, day: u32) -> Option<i32>;

/// Reads a date with the calendar library's `NaiveDate::from_str`, which
/// takes the form year, month and day with hyphens between them, and
/// counts its days with `Datelike::num_days_from_ce`.
#[verifier::external_body]
fn parse_date(text: &str) -> (r: Option<i32>)
    ensures
        r == parsed_date(text@),
{
    match text.parse::<NaiveDate>() {
        Ok(date) => Some(date.num_days_from_ce()),
        Err(_) => None,
    }
}

/// Reads a number with the standard library's `str::parse` for `u32`.
#[verifier::external_body]
fn parse_number(text: &str) -> (r: Option<u32>)
    ensures
        r == parsed_number(text@),
{
    match text.parse::<u32>() {
        Ok(number) => Some(number),
        Err(_) => None,
    }
}

/// Puts the year 2000 and a hyphen before the text, with `format!`.
#[verifier::external_body]
fn in_year_2000(text: &str) -> (r: String)
    ensures
        r@ == "2000-"@ + text@,
{
    format!("2000-{}", text)
}

/// The year of a date, by the calendar library's `Datelike::year`, on the
/// date that `NaiveDate::from_num_days_from_ce_opt` makes of the day
/// number.
#[verifier::external_body]
fn calendar_year(days: i32) -> (r: Option<i32>)
    ensures
        r == year_of(days),
{
    match NaiveDate::from_num_days_from_ce_opt(days) {
        Some(date) => Some(date.year()),
        None => None,
    }
}

/// Moves a date to another year, by the calendar library's
/// `Datelike::with_year`, which keeps the month and the day and returns
/// `None` where the year has no such day.
#[verifier::external_body]
fn calendar_with_year(days: i32, year: i32) -> (r: Option<i32>)
    ensures
        r == moved_to_year(days, year),
{
    match NaiveDate::from_num_days_from_ce_opt(days) {
        Some(date) => match date.with_year(year) {
            Some(moved) => Some(moved.num_days_from_ce()),
            None => None,
        },
        None => None,
    }
}

/// Moves a date to another day of its month, by the calendar library's
/// `Datelike::with_day`, which returns `None` where the month has no such
/// day.
#[verifier::external_body]
fn calendar_with_day(days: i32, day: u32) -> (r: Option<i32>)
    ensures
        r == moved_to_day(days, day),
{
    match NaiveDate::from_num_days_from_ce_opt(days) {
        Some(date) => match date.with_day(day) {
            Some(moved) => Some(moved.num_days_from_ce()),
            None => None,
        },
        None => None,
    }
}

/// The date that the readings of a text give: the whole date where the
/// text is one; else, where the text is a month and a day, that day in the
/// year of the date shown, if the year has it; else the day of the shown
/// date's month that the text numbers, if the month has it.
pub open spec fn resolved(
    whole: Option<i32>,
    month_and_day: Option<Option<i32>>,
    day_of_month: Option<i32>,
) -> Option<Date> {
    match whole {
        Some(days) => Some(Date { days }),
        None => match month_and_day {
            Some(in_year) => Date::of_day_number(in_year),
            None => Date::of_day_number(day_of_month),
        },
    }
}

/// The three readings of a typed text, beside the date shown: as a whole
/// date; as a month and a day, moved to the year of the date shown
/// (`None` where the text is no month and day, `Some(None)` where that
/// year has no such day); and as a day of the month of the date shown.
pub open spec fn month_and_day_reading(text: Seq<char>, shown: Date) -> Option<Option<i32>> {
    match parsed_date("2000-"@ + text) {
        Some(in_2000) => Some(
            match year_of(shown.days) {
                Some(year) => moved_to_year(in_2000, year),
                None => None,
            },
        ),
        None => None,
    }
}

/// The reading of a text as a day of the month of the date shown.
pub open spec fn day_reading(text: Seq<char>, shown: Date) -> Option<i32> {
    match parsed_number(text) {
        Some(day) => moved_to_day(shown.days, day),
        None => None,
    }
}

/// Picks the date among the readings: see `resolved`.
pub fn resolve(
    whole: Option<i32>,
    month_and_day: Option<Option<i32>>,
    day_of_month: Option<i32>,
) -> (r: Option<Date>)
    ensures
        r == resolved(whole, month_and_day, day_of_month),
{
    match whole {
        Some(days) => Some(Date { days }),
        None => match month_and_day {
            Some(Some(days)) => Some(Date { days }),
            Some(None) => None,
            None => match day_of_month {
                Some(days) => Some(Date { days }),
                None => None,
            },
        },
    }
}

/// The date that a typed text means, beside the date `shown` that is
/// shown: the text read as a whole date; failing that, as a month and a
/// day of the year of `shown`; failing that, as a day of the month of
/// `shown`. `None` where the text can be read in none of these ways,
/// or names a day that the year or the month does not have.
pub fn parse_date_input(text: &str, shown: Date) -> (r: Option<Date>)
    ensures
        r == resolved(
            parsed_date(text@),
            month_and_day_reading(text@, shown),
            day_reading(text@, shown),
        ),
{
    let whole = parse_date(text);
    if whole.is_some() {
        return resolve(whole, None, None);
    }
    let prefixed = in_year_2000(text);
    match parse_date(prefixed.as_str()) {
        Some(in_2000) => {
            let in_year = match calendar_year(shown.days) {
                Some(year) => calendar_with_year(in_2000, year),
                None => None,
            };
            resolve(None, Some(in_year), None)
        },
        None => {
            let day_of_month = match parse_number(text) {
                Some(day) => calendar_with_day(shown.days, day),
                None => None,
            };
            resolve(None, None, day_of_month)
        },
    }
}

} // verus!
