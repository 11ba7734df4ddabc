use pintail_exec::numbers::{
    group_thousands, has_numeric_start, mysql_number_prefix, year_from_number, year_of_date_text,
};

/// A string's number as MySQL reads it: its numeric prefix as a double,
/// 0 without one.
fn parse_mysql_number(value: &str) -> f64 {
    mysql_number_prefix(value).map_or(0.0, |prefix| prefix.parse().unwrap_or(0.0))
}

#[test]
fn parses_mysql_numeric_prefixes() {
    assert!((parse_mysql_number("  -12.5xyz") - -12.5).abs() < f64::EPSILON);
    assert!((parse_mysql_number("1.25e2 trailing") - 125.0).abs() < f64::EPSILON);
    assert!(parse_mysql_number("not a number").abs() < f64::EPSILON);
    assert!((parse_mysql_number("1e") - 1.0).abs() < f64::EPSILON);
}

#[test]
fn numeric_prefixes_stop_where_a_number_cannot_continue() {
    assert_eq!(mysql_number_prefix("  -12.5xyz").as_deref(), Some("-12.5"));
    assert_eq!(mysql_number_prefix("1.25e2 trailing").as_deref(), Some("1.25e2"));
    assert_eq!(mysql_number_prefix("not a number"), None);
    assert_eq!(mysql_number_prefix("1e").as_deref(), Some("1"));
    assert_eq!(mysql_number_prefix("1e+").as_deref(), Some("1"));
    assert_eq!(mysql_number_prefix("1e-3x").as_deref(), Some("1e-3"));
    assert_eq!(mysql_number_prefix(".5").as_deref(), Some(".5"));
    assert_eq!(mysql_number_prefix("+-5"), None);
    assert_eq!(mysql_number_prefix("1.2.3").as_deref(), Some("1.2"));
    assert_eq!(mysql_number_prefix("12e3.4").as_deref(), Some("12e3"));
    assert_eq!(mysql_number_prefix(""), None);
}

#[test]
fn format_groups_integer_digits_in_threes() {
    assert_eq!(group_thousands("1234567.891"), "1,234,567.891");
    assert_eq!(group_thousands("-1234"), "-1,234");
    assert_eq!(group_thousands("123"), "123");
    assert_eq!(group_thousands("0.50"), "0.50");
    assert_eq!(group_thousands("1000."), "1,000");
    assert_eq!(group_thousands("123456"), "123,456");
}

#[test]
fn year_conversions_follow_mysql_windows() {
    assert!(has_numeric_start(" -.5x"));
    assert!(has_numeric_start("+7"));
    assert!(!has_numeric_start("abc"));
    assert!(!has_numeric_start("+"));
    assert!(!has_numeric_start("."));
    assert_eq!(year_from_number(0, true), Some(2000));
    assert_eq!(year_from_number(0, false), Some(0));
    assert_eq!(year_from_number(5, false), Some(2005));
    assert_eq!(year_from_number(70, true), Some(1970));
    assert_eq!(year_from_number(1901, false), Some(1901));
    assert_eq!(year_from_number(100, false), None);
    assert_eq!(year_from_number(2156, false), None);
    assert_eq!(year_of_date_text("2024-05-06"), Some(2024));
    assert_eq!(year_of_date_text("0000-01-01"), None);
    assert_eq!(year_of_date_text("20é4-01-01"), None);
    assert_eq!(year_of_date_text("12"), None);
}
