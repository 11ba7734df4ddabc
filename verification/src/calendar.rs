//! The proleptic Gregorian calendar that chrono implements: civil dates,
//! their day numbers and weekdays, and the chrono calls the temporal
//! functions make, each with the contract chrono documents.
use chrono::{Datelike, Months, NaiveDate, NaiveDateTime, Timelike};
use crate::chars::padded;
use vstd::prelude::*;

verus! {

/// A civil date of the proleptic Gregorian calendar.
#[derive(Clone, Copy, Debug, PartialEq, Eq, Structural)]
pub struct CivilDate {
    pub year: i32,
    pub month: u32,
    pub day: u32,
}

/// A civil date and a wall-clock time of day. `nanos` reaches past one
/// second only for a leap second.
#[derive(Clone, Copy, Debug, PartialEq, Eq, Structural)]
pub struct DateTime {
    pub date: CivilDate,
    pub hour: u32,
    pub minute: u32,
    pub second: u32,
    pub nanos: u32,
}

/// The earliest year chrono represents.
pub const MIN_YEAR: i32 = -262143;

/// The latest year chrono represents.
pub const MAX_YEAR: i32 = 262142;

/// Leap years: every fourth, but not every hundredth unless every 400th.
pub open spec fn is_leap(year: int) -> bool {
    (year % 4 == 0 && year % 100 != 0) || year % 400 == 0
}

/// The days of a year.
pub open spec fn year_length(year: int) -> int {
    if is_leap(year) { 366 } else { 365 }
}

/// The days of a month.
pub open spec fn month_length(year: int, month: int) -> int {
    if month == 2 {
        if is_leap(year) { 29 } else { 28 }
    } else if month == 4 || month == 6 || month == 9 || month == 11 {
        30
    } else {
        31
    }
}

/// The days of the months before `month` in `year`.
pub open spec fn days_before_month(year: int, month: int) -> int
    decreases month,
{
    if month <= 1 {
        0
    } else {
        days_before_month(year, month - 1) + month_length(year, month - 1)
    }
}

/// A date chrono can hold.
pub open spec fn valid_date(d: CivilDate) -> bool {
    &&& MIN_YEAR <= d.year <= MAX_YEAR
    &&& 1 <= d.month <= 12
    &&& 1 <= d.day <= month_length(d.year as int, d.month as int)
}

/// A date and time chrono can hold.
pub open spec fn valid_datetime(t: DateTime) -> bool {
    &&& valid_date(t.date)
    &&& t.hour < 24
    &&& t.minute < 60
    &&& t.second < 60
    &&& t.nanos < 2_000_000_000
}

/// A date chrono can hold, given by its parts.
pub open spec fn valid_ymd(year: i32, month: u32, day: u32) -> bool {
    valid_date(CivilDate { year, month, day })
}

/// The day of the year, 1 for January 1.
pub open spec fn ordinal(d: CivilDate) -> int {
    days_before_month(d.year as int, d.month as int) + d.day
}

/// Days before January 1 of `year`, counted from January 1 of year 1.
pub open spec fn days_before_year(year: int) -> int {
    let y = year - 1;
    365 * y + y / 4 - y / 100 + y / 400
}

/// chrono's day number: January 1 of year 1 is day 1.
pub open spec fn days_from_ce(d: CivilDate) -> int {
    days_before_year(d.year as int) + ordinal(d)
}

/// The weekday counted from Monday as 0; January 1 of year 1 was a Monday.
pub open spec fn weekday_from_monday(d: CivilDate) -> int {
    (days_from_ce(d) + 6) % 7
}

/// The weekday counted from Sunday as 0.
pub open spec fn weekday_from_sunday(d: CivilDate) -> int {
    days_from_ce(d) % 7
}

/// Seconds of the day, ignoring the fraction.
pub open spec fn seconds_of_day(t: DateTime) -> int {
    t.hour * 3600 + t.minute * 60 + t.second
}

/// A datetime as whole seconds counted from the start of the era.
pub open spec fn era_seconds(t: DateTime) -> int {
    days_from_ce(t.date) * 86400 + seconds_of_day(t)
}

/// The earliest date chrono holds.
pub open spec fn first_date() -> CivilDate {
    CivilDate { year: MIN_YEAR, month: 1, day: 1 }
}

/// The latest date chrono holds.
pub open spec fn last_date() -> CivilDate {
    CivilDate { year: MAX_YEAR, month: 12, day: 31 }
}

/// The date `months` months after `d` (before it when negative), its day
/// clamped to the last day of the target month.
pub open spec fn months_shifted(d: CivilDate, months: int) -> CivilDate {
    let index = d.year * 12 + d.month - 1 + months;
    let year = index / 12;
    let month = index % 12 + 1;
    let day = if d.day > month_length(year, month) { month_length(year, month) } else { d.day as int };
    CivilDate { year: year as i32, month: month as u32, day: day as u32 }
}

/// A count of months, negated when it moves backwards.
pub open spec fn month_delta(months: u32, backwards: bool) -> int {
    if backwards { -months } else { months as int }
}

/// Whether the shifted year, before narrowing to `i32`, lies in chrono's
/// range.
pub open spec fn months_shifted_year_fits(d: CivilDate, months: int) -> bool {
    year_in_range((d.year * 12 + d.month - 1 + months) / 12)
}

/// Whether a year lies in chrono's range.
pub open spec fn year_in_range(year: int) -> bool {
    MIN_YEAR <= year <= MAX_YEAR
}

/// chrono's `NaiveDate::num_days_from_ce`.
#[verifier::external_body]
pub(crate) fn day_number(d: CivilDate) -> (r: i32)
    requires
        valid_date(d),
    ensures
        r == days_from_ce(d),
{
    NaiveDate::from_ymd_opt(d.year, d.month, d.day).unwrap_or(NaiveDate::MIN).num_days_from_ce()
}

/// chrono's `Weekday::num_days_from_monday` of a date.
#[verifier::external_body]
pub(crate) fn weekday_monday_first(d: CivilDate) -> (r: u32)
    requires
        valid_date(d),
    ensures
        r == weekday_from_monday(d),
{
    NaiveDate::from_ymd_opt(d.year, d.month, d.day).unwrap_or(NaiveDate::MIN).weekday().num_days_from_monday()
}

/// chrono's `Weekday::num_days_from_sunday` of a date.
#[verifier::external_body]
pub(crate) fn weekday_sunday_first(d: CivilDate) -> (r: u32)
    requires
        valid_date(d),
    ensures
        r == weekday_from_sunday(d),
{
    NaiveDate::from_ymd_opt(d.year, d.month, d.day).unwrap_or(NaiveDate::MIN).weekday().num_days_from_sunday()
}

/// chrono's `Datelike::ordinal`: the day of the year.
#[verifier::external_body]
pub(crate) fn day_of_year(d: CivilDate) -> (r: u32)
    requires
        valid_date(d),
    ensures
        r == ordinal(d),
{
    NaiveDate::from_ymd_opt(d.year, d.month, d.day).unwrap_or(NaiveDate::MIN).ordinal()
}

/// The date chrono's `NaiveDate::from_num_days_from_ce_opt` gives for a
/// day number.
pub uninterp spec fn date_at_day_number(days: int) -> Option<CivilDate>;

/// chrono's `NaiveDate::from_num_days_from_ce_opt`: the date of a day
/// number, `None` outside chrono's range.
#[verifier::external_body]
pub(crate) fn date_of_day_number(days: i32) -> (r: Option<CivilDate>)
    ensures
        r == date_at_day_number(days as int),
        r matches Some(d) ==> valid_date(d) && days_from_ce(d) == days,
        r is None <==> !(days_from_ce(first_date()) <= days <= days_from_ce(last_date())),
{
    match NaiveDate::from_num_days_from_ce_opt(days) {
        Some(date) => Some(CivilDate { year: date.year(), month: date.month(), day: date.day() }),
        None => None,
    }
}

/// chrono's `NaiveDate::from_ymd_opt`, as the test whether a date exists.
#[verifier::external_body]
pub(crate) fn date_exists(year: i32, month: u32, day: u32) -> (r: bool)
    ensures
        r == valid_ymd(year, month, day),
{
    NaiveDate::from_ymd_opt(year, month, day).is_some()
}

/// chrono's `NaiveDate::checked_add_months`: the day clamps to the target
/// month's end, and the result is `None` outside chrono's range.
#[verifier::external_body]
pub(crate) fn date_add_months(d: CivilDate, months: u32) -> (r: Option<CivilDate>)
    requires
        valid_date(d),
    ensures
        months == 0 ==> r == Some(d),
        months != 0 && months > i32::MAX ==> r is None,
        months != 0 && months <= i32::MAX ==> (r is Some <==> months_shifted_year_fits(d, month_delta(months, false))),
        months != 0 && months <= i32::MAX && r is Some ==> r == Some(months_shifted(d, month_delta(months, false))),
        r matches Some(m) ==> valid_date(m),
{
    let date = NaiveDate::from_ymd_opt(d.year, d.month, d.day).unwrap_or(NaiveDate::MIN);
    date.checked_add_months(Months::new(months)).map(|m| CivilDate { year: m.year(), month: m.month(), day: m.day() })
}

/// chrono's `NaiveDate::checked_sub_months`: the day clamps to the target
/// month's end, and the result is `None` outside chrono's range.
#[verifier::external_body]
pub(crate) fn date_sub_months(d: CivilDate, months: u32) -> (r: Option<CivilDate>)
    requires
        valid_date(d),
    ensures
        months == 0 ==> r == Some(d),
        months != 0 && months > i32::MAX ==> r is None,
        months != 0 && months <= i32::MAX ==> (r is Some <==> months_shifted_year_fits(d, month_delta(months, true))),
        months != 0 && months <= i32::MAX && r is Some ==> r == Some(months_shifted(d, month_delta(months, true))),
        r matches Some(m) ==> valid_date(m),
{
    let date = NaiveDate::from_ymd_opt(d.year, d.month, d.day).unwrap_or(NaiveDate::MIN);
    date.checked_sub_months(Months::new(months)).map(|m| CivilDate { year: m.year(), month: m.month(), day: m.day() })
}

/// The date chrono's `NaiveDate::from_yo_opt` gives for a year and a day
/// of the year.
pub uninterp spec fn date_at_ordinal(year: int, day: int) -> Option<CivilDate>;

/// chrono's `NaiveDate::from_yo_opt`: the `day`-th day of `year`, `None` for
/// a day the year lacks or a year outside chrono's range.
#[verifier::external_body]
pub(crate) fn date_from_ordinal(year: i32, day: u32) -> (r: Option<CivilDate>)
    ensures
        r == date_at_ordinal(year as int, day as int),
        r is Some <==> (year_in_range(year as int) && 1 <= day <= year_length(year as int)),
        r matches Some(d) ==> valid_date(d) && d.year == year && ordinal(d) == day,
{
    match NaiveDate::from_yo_opt(year, day) {
        Some(date) => Some(CivilDate { year: date.year(), month: date.month(), day: date.day() }),
        None => None,
    }
}

/// What chrono's `NaiveDateTime::parse_from_str` reads from a text under a
/// format.
pub uninterp spec fn parsed_datetime(text: Seq<char>, format: Seq<char>) -> Option<DateTime>;

/// What chrono's `NaiveDate::parse_from_str` reads from a text under a
/// format.
pub uninterp spec fn parsed_date(text: Seq<char>, format: Seq<char>) -> Option<CivilDate>;

/// chrono's `NaiveDateTime::parse_from_str`. What it accepts is chrono's
/// format grammar, named rather than stated; what it gives back is a
/// datetime chrono can hold, a leap second only at second 59 (chrono's
/// `NaiveTime` keeps no other).
#[verifier::external_body]
pub(crate) fn parse_datetime(text: &str, format: &str) -> (r: Option<DateTime>)
    ensures
        r == parsed_datetime(text@, format@),
        r matches Some(t) ==> buildable(t),
{
    match NaiveDateTime::parse_from_str(text, format) {
        Ok(v) => Some(DateTime {
            date: CivilDate { year: v.year(), month: v.month(), day: v.day() },
            hour: v.hour(),
            minute: v.minute(),
            second: v.second(),
            nanos: v.nanosecond(),
        }),
        Err(_) => None,
    }
}

/// chrono's `NaiveDate::parse_from_str`, named as `parse_datetime` is.
#[verifier::external_body]
pub(crate) fn parse_date(text: &str, format: &str) -> (r: Option<CivilDate>)
    ensures
        r == parsed_date(text@, format@),
        r matches Some(d) ==> valid_date(d),
{
    match NaiveDate::parse_from_str(text, format) {
        Ok(v) => Some(CivilDate { year: v.year(), month: v.month(), day: v.day() }),
        Err(_) => None,
    }
}

/// Whether a year is a leap year.
pub fn leap_year(year: i32) -> (r: bool)
    ensures
        r == is_leap(year as int),
{
    // A multiple of 400 added makes the year non-negative without moving it
    // within the leap cycle.
    let shifted: i64 = year as i64 + 2_400_000_000;
    assert(shifted % 4 == year % 4 && shifted % 100 == year % 100 && shifted % 400 == year % 400);
    (shifted % 4 == 0 && shifted % 100 != 0) || shifted % 400 == 0
}

/// chrono's `%Y`: four zero-padded digits within 0..=9999, otherwise a
/// sign and at least four digits.
pub open spec fn chrono_year(year: int) -> Seq<char> {
    if 0 <= year <= 9999 {
        padded(year as nat, 4)
    } else if year < 0 {
        seq!['-'] + padded((-year) as nat, 4)
    } else {
        seq!['+'] + padded(year as nat, 4)
    }
}

/// chrono's `%Y-%m-%d`.
pub open spec fn chrono_date_text(d: CivilDate) -> Seq<char> {
    chrono_year(d.year as int) + seq!['-'] + padded(d.month as nat, 2) + seq!['-'] + padded(
        d.day as nat,
        2,
    )
}

/// chrono's `%Y-%m-%d %H:%M:%S`; a leap second shows as second 60.
pub open spec fn chrono_datetime_text(t: DateTime) -> Seq<char> {
    chrono_date_text(t.date) + seq![' '] + padded(t.hour as nat, 2) + seq![':'] + padded(
        t.minute as nat,
        2,
    ) + seq![':'] + padded((t.second + t.nanos / 1_000_000_000) as nat, 2)
}

/// Whether chrono can build the datetime from its parts: a leap second
/// sits at the end of a minute.
pub open spec fn buildable(t: DateTime) -> bool {
    valid_datetime(t) && (t.nanos < 1_000_000_000 || t.second == 59)
}

/// chrono's `format("%Y-%m-%d %H:%M:%S")` of a datetime, or
/// `format("%Y-%m-%d")` of its date.
#[verifier::external_body]
pub(crate) fn format_datetime(t: DateTime, with_time: bool) -> (r: String)
    requires
        buildable(t),
    ensures
        with_time ==> r@ == chrono_datetime_text(t),
        !with_time ==> r@ == chrono_date_text(t.date),
{
    let date = NaiveDate::from_ymd_opt(t.date.year, t.date.month, t.date.day).unwrap_or(NaiveDate::MIN);
    let naive = date.and_hms_nano_opt(t.hour, t.minute, t.second, t.nanos).unwrap_or(NaiveDateTime::MIN);
    if with_time {
        naive.format("%Y-%m-%d %H:%M:%S").to_string()
    } else {
        naive.format("%Y-%m-%d").to_string()
    }
}

/// Leap years, as `MySQL`'s `calc_week` counts them.
pub fn days_in_year(year: i32) -> (r: i32)
    ensures
        r == year_length(year as int),
{
    if leap_year(year) {
        366
    } else {
        365
    }
}

/// The days of a month.
pub fn days_in_month(year: i32, month: u32) -> (r: u32)
    requires
        1 <= month <= 12,
    ensures
        r == month_length(year as int, month as int),
{
    if month == 2 {
        if leap_year(year) {
            29
        } else {
            28
        }
    } else if month == 4 || month == 6 || month == 9 || month == 11 {
        30
    } else {
        31
    }
}

/// A datetime moved by `delta` whole seconds, its fraction kept.
pub open spec fn shifted(t: DateTime, delta: int) -> Option<DateTime> {
    let total = era_seconds(t) + delta;
    let day = total / 86400;
    let rest = total % 86400;
    if day < i32::MIN || day > i32::MAX {
        None
    } else {
        match date_at_day_number(day) {
            Some(date) => Some(
                DateTime {
                    date,
                    hour: (rest / 3600) as u32,
                    minute: ((rest % 3600) / 60) as u32,
                    second: (rest % 60) as u32,
                    nanos: t.nanos,
                },
            ),
            None => None,
        }
    }
}

/// `datetime` moved by `delta` whole seconds, its fraction kept; `None`
/// when the result leaves chrono's range.
pub fn shift_seconds(t: DateTime, delta: i64) -> (r: Option<DateTime>)
    requires
        valid_datetime(t),
        -9_300_000_000_000_000 <= delta <= 9_300_000_000_000_000,
    ensures
        r == shifted(t, delta as int),
        r matches Some(u) ==> valid_datetime(u) && era_seconds(u) == era_seconds(t) + delta
            && u.nanos == t.nanos,
        r is None <==> !(days_from_ce(first_date()) * 86400 <= era_seconds(t) + delta
            < (days_from_ce(last_date()) + 1) * 86400),
{
    let day = day_number(t.date) as i64;
    let total: i64 = day * 86400 + (t.hour as i64) * 3600 + (t.minute as i64) * 60 + (t.second as i64) + delta;
    let new_day: i64 = if total >= 0 { total / 86400 } else { -((-total + 86399) / 86400) };
    let rest: i64 = total - new_day * 86400;
    assert(new_day == (era_seconds(t) + delta) / 86400 && rest == (era_seconds(t) + delta) % 86400) by (nonlinear_arith)
        requires
            total == era_seconds(t) + delta,
            total >= 0 ==> new_day == total / 86400,
            total < 0 ==> new_day == -((-total + 86399) / 86400),
            rest == total - new_day * 86400,
    ;
    proof {
        lemma_chrono_range();
    }
    if new_day < i32::MIN as i64 || new_day > i32::MAX as i64 {
        return None;
    }
    match date_of_day_number(new_day as i32) {
        None => None,
        Some(date) => {
            let hour = (rest / 3600) as u32;
            let minute = ((rest % 3600) / 60) as u32;
            let second = (rest % 60) as u32;
            Some(DateTime { date, hour, minute, second, nanos: t.nanos })
        },
    }
}

/// The months before `month` hold between 0 and 31 days each.
pub proof fn lemma_days_before_month_bounds(year: int, month: int)
    ensures
        0 <= days_before_month(year, month),
        month >= 1 ==> days_before_month(year, month) <= 31 * (month - 1),
    decreases month,
{
    if month > 1 {
        lemma_days_before_month_bounds(year, month - 1);
    }
}

/// The ordinal of a valid date lies in 1..=372.
pub proof fn lemma_ordinal_bounds(d: CivilDate)
    requires
        valid_date(d),
    ensures
        1 <= ordinal(d) <= 372,
{
    lemma_days_before_month_bounds(d.year as int, d.month as int);
}

/// The day numbers of chrono's first and last dates.
pub proof fn lemma_chrono_range()
    ensures
        days_from_ce(first_date()) == -95746129,
        days_from_ce(last_date()) == 95745399,
{
    reveal_with_fuel(days_before_month, 13);
    assert(days_before_month(MAX_YEAR as int, 12) == 334);
    assert(days_before_year(MIN_YEAR as int) == -95746130);
    assert(days_before_year(MAX_YEAR as int) == 95745034);
}

} // verus!
