use pintail_exec::calendar::{CivilDate, DateTime};
use pintail_exec::decimal::ExecError;
use pintail_exec::interval::{
    apply_interval, checked_shift_temporal_value, complete_months, parse_mysql_datetime,
    shift_temporal_value, timestamp_diff, IntervalUnit,
};
use pintail_exec::parts::{ascii_decimal, date_part, direct_date_part, DatePart};
use pintail_exec::temporal::{chrono_parse_format, mysql_calc_week, mysql_week_mode0, mysql_yearweek};

fn moment(year: i32, month: u32, day: u32, hour: u32, minute: u32, second: u32) -> DateTime {
    DateTime { date: CivilDate { year, month, day }, hour, minute, second, nanos: 0 }
}

#[test]
fn week_modes_match_mysql_mode_inventory() {
    let value = moment(2008, 2, 20, 0, 0, 0);
    let weeks = (0..=7).map(|mode| date_part(value, DatePart::WeekMode(mode))).collect::<Vec<_>>();
    assert_eq!(weeks, [7, 8, 7, 8, 8, 7, 8, 7]);
}

#[test]
fn date_parts_of_a_leap_day() {
    let value = moment(2024, 2, 29, 1, 2, 3);
    assert_eq!(date_part(value, DatePart::Year), 2024);
    assert_eq!(date_part(value, DatePart::Quarter), 1);
    assert_eq!(date_part(value, DatePart::Month), 2);
    assert_eq!(date_part(value, DatePart::Day), 29);
    assert_eq!(date_part(value, DatePart::Hour), 1);
    assert_eq!(date_part(value, DatePart::Minute), 2);
    assert_eq!(date_part(value, DatePart::Second), 3);
    // A Thursday: DAYOFWEEK counts Sunday as 1, WEEKDAY counts Monday as 0.
    assert_eq!(date_part(value, DatePart::DayOfWeek), 5);
    assert_eq!(date_part(value, DatePart::WeekDay), 3);
    assert_eq!(date_part(value, DatePart::DayOfYear), 60);
    assert_eq!(date_part(value, DatePart::Week), 8);
    assert_eq!(date_part(value, DatePart::IsoWeek), 9);
    assert_eq!(date_part(moment(-5, 1, 1, 0, 0, 0), DatePart::Year), 0);
}

#[test]
fn iso_weeks_cross_year_boundaries() {
    assert_eq!(date_part(moment(2021, 1, 1, 0, 0, 0), DatePart::IsoWeek), 53);
    assert_eq!(date_part(moment(2024, 12, 30, 0, 0, 0), DatePart::IsoWeek), 1);
}

#[test]
fn week_zero_reports_the_previous_years_last_week() {
    let january_first = CivilDate { year: 2021, month: 1, day: 1 };
    assert_eq!(mysql_week_mode0(january_first), 0);
    assert_eq!(mysql_yearweek(january_first), 202052);
    assert_eq!(mysql_calc_week(january_first, 3), (2020, 53));
    assert_eq!(mysql_yearweek(CivilDate { year: 2024, month: 2, day: 29 }), 202408);
}

#[test]
fn direct_date_parts_read_canonical_text() {
    assert_eq!(direct_date_part("2024-02-29", DatePart::Year), Some(Ok(2024)));
    assert_eq!(direct_date_part("2024-02-29", DatePart::Day), Some(Ok(29)));
    assert_eq!(direct_date_part("2024-02-30", DatePart::Day), Some(Err(ExecError::InvalidDateTime)));
    assert_eq!(direct_date_part("2024-02-29 13:14:15", DatePart::Hour), Some(Ok(13)));
    assert_eq!(direct_date_part("2024-02-29T13:14:15", DatePart::Second), Some(Ok(15)));
    assert_eq!(direct_date_part("2024-02-29 24:00:00", DatePart::Hour), Some(Err(ExecError::InvalidDateTime)));
    assert_eq!(direct_date_part("2024-02-29", DatePart::Hour), None);
    assert_eq!(direct_date_part("2024-02-29", DatePart::Quarter), None);
    assert_eq!(direct_date_part("2024/02/29", DatePart::Year), None);
    assert_eq!(direct_date_part("20x4-02-29", DatePart::Year), None);
    assert_eq!(ascii_decimal(b"0042"), Some(42));
    assert_eq!(ascii_decimal(b""), Some(0));
    assert_eq!(ascii_decimal(b"4a"), None);
}

#[test]
fn timestamp_differences_truncate_toward_zero() {
    let from = moment(2024, 3, 1, 0, 0, 0);
    let to = moment(2024, 3, 2, 12, 0, 0);
    assert_eq!(timestamp_diff(from, to, IntervalUnit::Day), 1);
    assert_eq!(timestamp_diff(from, to, IntervalUnit::Hour), 36);
    assert_eq!(timestamp_diff(from, to, IntervalUnit::Minute), 2160);
    assert_eq!(timestamp_diff(from, to, IntervalUnit::Second), 129600);
    assert_eq!(timestamp_diff(to, from, IntervalUnit::Day), -1);
    let mut later = to;
    later.nanos = 500_000_000;
    assert_eq!(timestamp_diff(to, later, IntervalUnit::Second), 0);
    assert_eq!(timestamp_diff(later, to, IntervalUnit::Second), 0);
}

#[test]
fn complete_months_follow_the_day_and_time_boundary() {
    // January 31 to February 29 is not yet a month.
    assert_eq!(complete_months(moment(2024, 1, 31, 0, 0, 0), moment(2024, 2, 29, 0, 0, 0)), 0);
    assert_eq!(complete_months(moment(2024, 3, 31, 0, 0, 0), moment(2024, 2, 29, 0, 0, 0)), -1);
    assert_eq!(complete_months(moment(2024, 1, 15, 10, 0, 0), moment(2024, 3, 15, 9, 59, 59)), 1);
    assert_eq!(timestamp_diff(moment(2024, 1, 1, 0, 0, 0), moment(2025, 1, 1, 0, 0, 0), IntervalUnit::Year), 1);
    assert_eq!(timestamp_diff(moment(2024, 1, 1, 0, 0, 0), moment(2024, 12, 31, 0, 0, 0), IntervalUnit::Year), 0);
}

#[test]
fn intervals_clamp_days_and_carry_clocks() {
    let add = |value, amount, unit| apply_interval(value, amount, unit, false);
    assert_eq!(add(moment(2024, 1, 31, 10, 0, 0), 1, IntervalUnit::Month), Ok(moment(2024, 2, 29, 10, 0, 0)));
    assert_eq!(apply_interval(moment(2024, 3, 31, 0, 0, 0), 1, IntervalUnit::Month, true), Ok(moment(2024, 2, 29, 0, 0, 0)));
    assert_eq!(add(moment(2024, 2, 29, 0, 0, 0), 1, IntervalUnit::Year), Ok(moment(2025, 2, 28, 0, 0, 0)));
    assert_eq!(add(moment(2024, 12, 31, 23, 59, 59), 1, IntervalUnit::Second), Ok(moment(2025, 1, 1, 0, 0, 0)));
    assert_eq!(apply_interval(moment(2024, 1, 1, 0, 0, 0), 90, IntervalUnit::Minute, true), Ok(moment(2023, 12, 31, 22, 30, 0)));
    assert_eq!(add(moment(2024, 1, 1, 0, 0, 0), 0, IntervalUnit::Day), Ok(moment(2024, 1, 1, 0, 0, 0)));
}

#[test]
fn interval_errors_name_overflow_and_range() {
    let base = moment(2024, 1, 1, 0, 0, 0);
    assert_eq!(apply_interval(base, i64::MIN, IntervalUnit::Day, true), Err(ExecError::NumericOverflow));
    assert_eq!(apply_interval(base, i64::MAX, IntervalUnit::Year, false), Err(ExecError::NumericOverflow));
    assert_eq!(apply_interval(base, 4_294_967_296, IntervalUnit::Month, false), Err(ExecError::NumericOverflow));
    assert_eq!(apply_interval(base, 3_000_000_000, IntervalUnit::Month, false), Err(ExecError::InvalidDateTime));
    assert_eq!(apply_interval(base, 300_000, IntervalUnit::Year, false), Err(ExecError::InvalidDateTime));
    assert_eq!(apply_interval(base, 10_000_000_000_000, IntervalUnit::Second, false), Err(ExecError::InvalidDateTime));
}

#[test]
fn a_leap_second_moves_like_chrono_moves_it() {
    let mut leap = moment(2016, 12, 31, 23, 59, 59);
    leap.nanos = 1_000_000_000;
    assert_eq!(apply_interval(leap, 1, IntervalUnit::Second, false), Ok(moment(2017, 1, 1, 0, 0, 0)));
    assert_eq!(apply_interval(leap, 1, IntervalUnit::Second, true), Ok(moment(2016, 12, 31, 23, 59, 59)));
}

#[test]
fn shifted_texts_keep_a_bare_date_bare() {
    assert_eq!(shift_temporal_value("2024-01-31", 1, IntervalUnit::Month, true), Ok("2024-02-29".to_owned()));
    assert_eq!(shift_temporal_value("2024-01-31 10:00:00", 1, IntervalUnit::Day, true), Ok("2024-02-01 10:00:00".to_owned()));
    assert_eq!(shift_temporal_value("2024-01-31", 1, IntervalUnit::Hour, true), Ok("2024-01-31 01:00:00".to_owned()));
    assert_eq!(shift_temporal_value("2024-03-01", 1, IntervalUnit::Day, false), Ok("2024-02-29".to_owned()));
    assert_eq!(shift_temporal_value("bad", 1, IntervalUnit::Day, true), Err(ExecError::InvalidDateTime));
    assert_eq!(shift_temporal_value("2024-01-31", u64::MAX, IntervalUnit::Day, true), Err(ExecError::NumericOverflow));
    assert_eq!(checked_shift_temporal_value("2024-01-31", 100_000_000_000_000_000, IntervalUnit::Second, true), None);
    assert_eq!(
        checked_shift_temporal_value("bad", 100_000_000_000_000_000, IntervalUnit::Second, true),
        Some(Err(ExecError::InvalidDateTime))
    );
}

#[test]
fn mysql_datetime_texts_parse_in_every_accepted_form() {
    let mut fractional = moment(2024, 2, 29, 1, 2, 3);
    fractional.nanos = 500_000_000;
    assert_eq!(parse_mysql_datetime("2024-02-29T01:02:03.5"), Ok(fractional));
    assert_eq!(parse_mysql_datetime("2024-02-29 01:02:03"), Ok(moment(2024, 2, 29, 1, 2, 3)));
    assert_eq!(parse_mysql_datetime("2024-02-29"), Ok(moment(2024, 2, 29, 0, 0, 0)));
    assert_eq!(parse_mysql_datetime("2024-02-30"), Err(ExecError::InvalidDateTime));
}

#[test]
fn parse_formats_translate_only_mapped_directives() {
    assert_eq!(chrono_parse_format("%Y-%m-%d %r").as_deref(), Some("%Y-%m-%d %I:%M:%S %p"));
    assert_eq!(chrono_parse_format("%e.%c %k").as_deref(), Some("%-d.%-m %-H"));
    assert_eq!(chrono_parse_format("100%%").as_deref(), Some("100%%"));
    assert_eq!(chrono_parse_format("%q"), None);
    assert_eq!(chrono_parse_format("50%"), None);
}
