use db_sample::date::{Date, ParseError};
use std::cmp::Ordering;

fn test_date() -> Date {
    Date::new(2018, 8, 31)
}

#[test]
fn create_date_from_string() {
    assert_eq!(Date::from_str("2018-8-31").unwrap(), test_date());
}

#[test]
fn format_date_string() {
    assert_eq!("2018-8-31", test_date().to_string());
}

#[test]
fn date_is_string() {
    assert_eq!("2018-8-31", format!("{}", test_date().to_string()));
}

#[test]
fn date_leading_zeros_format_without_padding() {
    let d = Date::from_str("2018-06-28").unwrap();
    assert_eq!(d, Date::new(2018, 6, 28));
    assert_eq!(d.to_string(), "2018-6-28");
}

#[test]
fn date_parse_errors() {
    assert_eq!(Date::from_str("2018-6"), Err(ParseError));
    assert_eq!(Date::from_str("2018-6-28-1"), Err(ParseError));
    assert_eq!(Date::from_str("2018-x-28"), Err(ParseError));
    assert_eq!(Date::from_str("2018-256-28"), Err(ParseError));
    assert_eq!(Date::from_str("4294967296-1-1"), Err(ParseError));
    assert_eq!(Date::from_str(""), Err(ParseError));
    assert_eq!(Date::from_str("2018--28"), Err(ParseError));
}

#[test]
fn date_without_calendar_check() {
    assert_eq!(Date::from_str("2018-13-40").unwrap(), Date::new(2018, 13, 40));
    assert_eq!(Date::from_str("+2018-1-1").unwrap(), Date::new(2018, 1, 1));
}

#[test]
fn date_order() {
    let a = Date::new(2018, 6, 28);
    assert_eq!(a.compare(&Date::new(2019, 1, 1)), Ordering::Less);
    assert_eq!(a.compare(&Date::new(2018, 5, 30)), Ordering::Greater);
    assert_eq!(a.compare(&Date::new(2018, 6, 29)), Ordering::Less);
    assert_eq!(a.compare(&Date::new(2018, 6, 28)), Ordering::Equal);
    assert!(a < Date::new(2018, 6, 29));
    assert_eq!(a.cmp(&Date::new(2018, 5, 30)), a.compare(&Date::new(2018, 5, 30)));
}
