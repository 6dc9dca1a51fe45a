use toro::date::{format_date_on, parse_date_on, Date};
use toro::error::ToroError;

fn day(y: i32, m: u32, d: u32) -> Date {
    Date::from_ymd(y, m, d).unwrap()
}

#[test]
fn plain_dates_are_read() {
    let today = day(2024, 5, 10);
    let d = parse_date_on("2024-02-29", today).unwrap();
    assert_eq!(d.ymd(), (2024, 2, 29));
    assert_eq!(parse_date_on("1999-12-31", today).unwrap().ymd(), (1999, 12, 31));
}

#[test]
fn impossible_dates_are_refused() {
    let today = day(2024, 5, 10);
    assert_eq!(
        parse_date_on("2023-02-29", today),
        Err(ToroError::DateInputError("2023-02-29".to_string()))
    );
    assert_eq!(
        parse_date_on("2024-13-01", today),
        Err(ToroError::DateInputError("2024-13-01".to_string()))
    );
    assert_eq!(parse_date_on("soon", today), Err(ToroError::DateInputError("soon".to_string())));
    assert_eq!(parse_date_on("-2d", today), Err(ToroError::DateInputError("-2d".to_string())));
}

#[test]
fn relative_dates_count_from_today() {
    let today = day(2024, 5, 10);
    assert_eq!(parse_date_on("today", today).unwrap().ymd(), (2024, 5, 10));
    assert_eq!(parse_date_on("tomorrow", today).unwrap().ymd(), (2024, 5, 11));
    assert_eq!(parse_date_on("yesterday", today).unwrap().ymd(), (2024, 5, 9));
    assert_eq!(parse_date_on("3d", today).unwrap().ymd(), (2024, 5, 13));
    assert_eq!(parse_date_on("2w", today).unwrap().ymd(), (2024, 5, 24));
    assert_eq!(parse_date_on("0d", today).unwrap().ymd(), (2024, 5, 10));
}

#[test]
fn dates_beyond_the_range_overflow() {
    let last = day(262142, 12, 31);
    assert_eq!(parse_date_on("tomorrow", last), Err(ToroError::DateOverflowError));
    assert_eq!(parse_date_on("1d", last), Err(ToroError::DateOverflowError));
    assert_eq!(parse_date_on("0d", last).unwrap().ymd(), (262142, 12, 31));
    let first = day(-262143, 1, 1);
    assert_eq!(parse_date_on("yesterday", first), Err(ToroError::DateOverflowError));
    assert_eq!(parse_date_on("3000000000000000000w", first), Err(ToroError::DateOverflowError));
    assert!(Date::from_ymd(262143, 1, 1).is_none());
}

#[test]
fn dates_are_written_plainly() {
    let today = day(2024, 5, 10);
    assert_eq!(format_date_on(day(2024, 3, 7), false, today), "2024-03-07");
    assert_eq!(format_date_on(day(987, 1, 2), false, today), "0987-01-02");
    assert_eq!(format_date_on(day(2024, 5, 10), false, today), "2024-05-10");
}

#[test]
fn dates_are_written_relative_to_today() {
    let today = day(2024, 5, 10);
    assert_eq!(format_date_on(day(2024, 5, 10), true, today), "today");
    assert_eq!(format_date_on(day(2024, 5, 11), true, today), "tomorrow");
    assert_eq!(format_date_on(day(2024, 5, 9), true, today), "yesterday");
    assert_eq!(format_date_on(day(2024, 5, 15), true, today), "5d");
    assert_eq!(format_date_on(day(2024, 5, 1), true, today), "-9d");
    assert_eq!(format_date_on(day(2024, 5, 31), true, today), "3w");
    assert_eq!(format_date_on(day(2024, 4, 1), true, today), "-5w");
    assert_eq!(format_date_on(day(2024, 9, 1), true, today), "2024-09-01");
}

#[test]
fn a_written_date_reads_back() {
    let today = day(2024, 5, 10);
    for (y, m, d) in [(2024, 1, 31), (1, 1, 1), (9999, 12, 31), (2000, 2, 29)] {
        let date = day(y, m, d);
        let text = format_date_on(date, false, today);
        assert_eq!(parse_date_on(&text, today).unwrap(), date);
    }
}

#[test]
fn day_numbers_count_days() {
    assert_eq!(day(1, 1, 1).day_number(), 1);
    assert_eq!(day(1970, 1, 1).day_number(), 719163);
    assert_eq!(day(2024, 5, 11).day_number() - day(2024, 5, 10).day_number(), 1);
    assert!(day(2024, 5, 11).is_after(&day(2024, 5, 10)));
    assert!(day(2024, 5, 10).same_day(&day(2024, 5, 10)));
}
