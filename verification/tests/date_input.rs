use ebbify::date::Date;
use ebbify::date_input::{parse_date_input, resolve};

fn day(year: i32, month: u32, day: u32) -> Date {
    Date::from_ymd_opt(year, month, day).unwrap()
}

#[test]
fn a_whole_date_is_read_as_it_stands() {
    let shown = day(2021, 7, 4);
    assert_eq!(parse_date_input("2024-03-15", shown), Some(day(2024, 3, 15)));
    assert_eq!(parse_date_input("2024-3-5", shown), Some(day(2024, 3, 5)));
    assert_eq!(parse_date_input("1999-12-31", shown), Some(day(1999, 12, 31)));
}

#[test]
fn a_month_and_day_are_read_in_the_year_of_the_date_shown() {
    assert_eq!(parse_date_input("3-15", day(2021, 7, 4)), Some(day(2021, 3, 15)));
    assert_eq!(parse_date_input("12-01", day(1987, 1, 31)), Some(day(1987, 12, 1)));
    assert_eq!(parse_date_input("02-29", day(2024, 5, 5)), Some(day(2024, 2, 29)));
}

#[test]
fn a_month_and_day_that_the_year_lacks_give_nothing() {
    assert_eq!(parse_date_input("02-29", day(2023, 5, 5)), None);
}

#[test]
fn a_number_is_read_as_a_day_of_the_month_of_the_date_shown() {
    assert_eq!(parse_date_input("15", day(2021, 7, 4)), Some(day(2021, 7, 15)));
    assert_eq!(parse_date_input("1", day(2021, 7, 4)), Some(day(2021, 7, 1)));
    assert_eq!(parse_date_input("31", day(2021, 7, 4)), Some(day(2021, 7, 31)));
    assert_eq!(parse_date_input("29", day(2024, 2, 1)), Some(day(2024, 2, 29)));
}

#[test]
fn a_day_that_the_month_lacks_gives_nothing() {
    assert_eq!(parse_date_input("31", day(2021, 6, 4)), None);
    assert_eq!(parse_date_input("29", day(2023, 2, 1)), None);
    assert_eq!(parse_date_input("0", day(2021, 6, 4)), None);
    assert_eq!(parse_date_input("4000000000", day(2021, 6, 4)), None);
}

#[test]
fn a_text_that_is_no_date_gives_nothing() {
    let shown = day(2021, 7, 4);
    assert_eq!(parse_date_input("", shown), None);
    assert_eq!(parse_date_input("tomorrow", shown), None);
    assert_eq!(parse_date_input("2024-13-01", shown), None);
    assert_eq!(parse_date_input("2024-02-30", shown), None);
    assert_eq!(parse_date_input("-5", shown), None);
    assert_eq!(parse_date_input("99999999999", shown), None);
}

#[test]
fn a_date_shown_that_the_calendar_lacks_gives_nothing_but_whole_dates() {
    let nowhere = Date { days: i32::MAX };
    assert_eq!(parse_date_input("2024-03-15", nowhere), Some(day(2024, 3, 15)));
    assert_eq!(parse_date_input("3-15", nowhere), None);
    assert_eq!(parse_date_input("15", nowhere), None);
}

#[test]
fn the_first_reading_that_is_there_decides() {
    assert_eq!(resolve(Some(5), Some(Some(6)), Some(7)), Some(Date { days: 5 }));
    assert_eq!(resolve(Some(5), None, None), Some(Date { days: 5 }));
    assert_eq!(resolve(None, Some(Some(6)), Some(7)), Some(Date { days: 6 }));
    assert_eq!(resolve(None, Some(None), Some(7)), None);
    assert_eq!(resolve(None, None, Some(7)), Some(Date { days: 7 }));
    assert_eq!(resolve(None, None, None), None);
}
