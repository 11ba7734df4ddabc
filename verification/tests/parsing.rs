use pintail_exec::str_to_date::{short_year, str_to_date, TargetType};
use pintail_exec::time_text::{cast_mysql_time, format_mysql_time, parse_u64};

#[test]
fn str_to_date_reads_numeric_and_named_fields() {
    let date = Some(TargetType::Date32);
    assert_eq!(str_to_date("01,5,2013", "%d,%m,%Y", date, 0).as_deref(), Some("2013-05-01"));
    assert_eq!(str_to_date("May 1, 2013", "%M %d,%Y", date, 0).as_deref(), Some("2013-05-01"));
    assert_eq!(str_to_date("Jan 5 2020", "%b %e %Y", date, 0).as_deref(), Some("2020-01-05"));
    assert_eq!(str_to_date("Ju 5 2020", "%b %e %Y", date, 0), None);
    assert_eq!(str_to_date("70-01-01", "%y-%m-%d", date, 0).as_deref(), Some("1970-01-01"));
    assert_eq!(str_to_date("69-01-01", "%y-%m-%d", date, 0).as_deref(), Some("2069-01-01"));
    assert_eq!(str_to_date("2023-02-30", "%Y-%m-%d", date, 0), None);
}

#[test]
fn str_to_date_completes_dates_from_ordinals_and_weeks() {
    let date = Some(TargetType::Date32);
    assert_eq!(str_to_date("2013 60", "%Y %j", date, 0).as_deref(), Some("2013-03-01"));
    assert_eq!(str_to_date("200442 Monday", "%X%V %W", date, 0).as_deref(), Some("2004-10-18"));
    assert_eq!(str_to_date("200442", "%X%V", date, 0), None);
}

#[test]
fn str_to_date_renders_times_and_fractions() {
    let time = Some(TargetType::Time64 { fsp: 0 });
    assert_eq!(str_to_date("a09:30:17", "a%h:%i:%s", time, 0).as_deref(), Some("09:30:17"));
    assert_eq!(str_to_date("09:30:17a", "%h:%i:%s", time, 0).as_deref(), Some("09:30:17"));
    assert_eq!(str_to_date("1 10:00", "%d %H:%i", time, 0).as_deref(), Some("34:00:00"));
    assert_eq!(
        str_to_date("2013-05-01 13:14:15.25", "%Y-%m-%d %H:%i:%s.%f", Some(TargetType::DateTime64 { fsp: 3 }), 0)
            .as_deref(),
        Some("2013-05-01 13:14:15.250")
    );
    assert_eq!(str_to_date("02:30 PM", "%h:%i %p", None, 0).as_deref(), Some("0000-00-00 14:30:00"));
    assert_eq!(str_to_date("13:00", "%h:%i", None, 0), None);
    assert_eq!(
        str_to_date("1999-2-3", "%Y-%m-%d", Some(TargetType::DateTime64 { fsp: 0 }), 0).as_deref(),
        Some("1999-02-03 00:00:00")
    );
}

#[test]
fn str_to_date_policy_bits_refuse_zero_parts() {
    let date = Some(TargetType::Date32);
    assert_eq!(str_to_date("0000-00-00", "%Y-%m-%d", date, 0).as_deref(), Some("0000-00-00"));
    assert_eq!(str_to_date("0000-00-00", "%Y-%m-%d", date, 2).as_deref(), Some("0000-00-00"));
    assert_eq!(str_to_date("0000-00-00", "%Y-%m-%d", date, 1), None);
    assert_eq!(str_to_date("2020-00-10", "%Y-%m-%d", date, 2), None);
    assert_eq!(str_to_date("02:30 PM", "%h:%i %p", None, 1), None);
    assert_eq!(short_year(69), 2069);
    assert_eq!(short_year(70), 1970);
}

#[test]
fn time_casts_fold_days_and_round_fractions() {
    assert_eq!(cast_mysql_time("12:34:56", 0).as_deref(), Some("12:34:56"));
    assert_eq!(cast_mysql_time("2024-02-29 01:02:03.5", 1).as_deref(), Some("01:02:03.5"));
    assert_eq!(cast_mysql_time("-1 02:03:04.5678", 2).as_deref(), Some("-26:03:04.57"));
    assert_eq!(cast_mysql_time("123456", 0).as_deref(), Some("12:34:56"));
    assert_eq!(cast_mysql_time("839:00:00", 0).as_deref(), Some("838:59:59"));
    assert_eq!(cast_mysql_time("12:60:00", 0), None);
    assert_eq!(cast_mysql_time("1.99999999", 0).as_deref(), Some("00:00:02"));
    assert_eq!(cast_mysql_time("12:34", 0).as_deref(), Some("12:34:00"));
    assert_eq!(cast_mysql_time("abc", 0), None);
    assert_eq!(cast_mysql_time("1:2:3:4", 0), None);
}

#[test]
fn time_rendering_rounds_then_clamps() {
    assert_eq!(format_mysql_time(false, 838, 59, 59, "5", 0).as_deref(), Some("838:59:59"));
    assert_eq!(format_mysql_time(true, 0, 0, 0, "0", 1).as_deref(), Some("00:00:00.0"));
    assert_eq!(format_mysql_time(false, 1, 2, 3, "4", 3).as_deref(), Some("01:02:03.400"));
    assert_eq!(format_mysql_time(false, 1, 2, 3, "x", 1), None);
    assert_eq!(format_mysql_time(false, u64::MAX, 0, 0, "", 0), None);
    assert_eq!(parse_u64(&['+', '7']), Some(7));
    assert_eq!(parse_u64(&['-', '0']), None);
    assert_eq!(parse_u64(&"18446744073709551616".chars().collect::<Vec<_>>()), None);
}
