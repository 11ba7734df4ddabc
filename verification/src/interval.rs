//! `MySQL` interval arithmetic on datetimes: `TIMESTAMPDIFF`, `DATE_ADD`
//! and `DATE_SUB`, and the datetime texts they read and write.
use crate::calendar::{
    days_before_month, days_before_year, is_leap, month_length, ordinal, valid_date, year_length, CivilDate,
    buildable, date_add_months, date_sub_months, day_number, days_from_ce, era_seconds, format_datetime,
    months_shifted, months_shifted_year_fits, parse_date, parse_datetime, parsed_date,
    parsed_datetime, seconds_of_day, shift_seconds, shifted, valid_datetime, chrono_date_text,
    chrono_datetime_text, DateTime,
};
use crate::decimal::{magnitude, trunc_div, ExecError};
use crate::temporal::midnight;
use chrono::NaiveDate;
use vstd::prelude::*;
use vstd::string::StringSliceAdditionalSpecFns;

verus! {

/// The unit of a simple `MySQL` interval.
#[derive(Clone, Copy, Debug, PartialEq, Eq, Structural)]
pub enum IntervalUnit {
    Year,
    Month,
    Day,
    Hour,
    Minute,
    Second,
}

/// Whole seconds in one clock unit; 0 for the calendar units.
pub open spec fn unit_seconds(unit: IntervalUnit) -> int {
    match unit {
        IntervalUnit::Day => 86400,
        IntervalUnit::Hour => 3600,
        IntervalUnit::Minute => 60,
        IntervalUnit::Second => 1,
        _ => 0,
    }
}

/// Whether `a` falls strictly before `b`.
pub open spec fn earlier(a: DateTime, b: DateTime) -> bool {
    era_seconds(a) < era_seconds(b) || (era_seconds(a) == era_seconds(b) && a.nanos < b.nanos)
}

/// Whether the day of month and time of `late` fall short of those of
/// `early`, times ordered by their seconds and then their fraction.
pub open spec fn short_of(late: DateTime, early: DateTime) -> bool {
    ||| late.date.day < early.date.day
    ||| late.date.day == early.date.day && seconds_of_day(late) < seconds_of_day(early)
    ||| late.date.day == early.date.day && seconds_of_day(late) == seconds_of_day(early)
        && late.nanos < early.nanos
}

/// Calendar months fully elapsed from `from` to `to`, negative when `to`
/// comes first: the month delta, less one when the later day and time have
/// not reached the earlier ones.
pub open spec fn months_between(from: DateTime, to: DateTime) -> int {
    let forward = !earlier(to, from);
    let early = if forward { from } else { to };
    let late = if forward { to } else { from };
    let months = (late.date.year - early.date.year) * 12 + late.date.month - early.date.month
        - if short_of(late, early) { 1int } else { 0int };
    if forward { months } else { -months }
}

/// The span from `from` to `to` in nanoseconds, as chrono's
/// `signed_duration_since` measures it: a leap second counts when the span
/// leaves it.
pub open spec fn elapsed_nanos(from: DateTime, to: DateTime) -> int {
    let leap = if seconds_of_day(to) > seconds_of_day(from) && from.nanos >= 1_000_000_000 {
        1int
    } else if seconds_of_day(to) < seconds_of_day(from) && to.nanos >= 1_000_000_000 {
        -1int
    } else {
        0int
    };
    (days_from_ce(to.date) - days_from_ce(from.date)) * 86_400_000_000_000
        + (seconds_of_day(to) - seconds_of_day(from) + leap) * 1_000_000_000 + to.nanos - from.nanos
}

/// `TIMESTAMPDIFF(unit, from, to)`: complete units, truncated toward zero.
pub open spec fn timestamp_diff_value(from: DateTime, to: DateTime, unit: IntervalUnit) -> int {
    let seconds = trunc_div(elapsed_nanos(from, to), 1_000_000_000);
    match unit {
        IntervalUnit::Second => seconds,
        IntervalUnit::Minute => trunc_div(seconds, 60),
        IntervalUnit::Hour => trunc_div(seconds, 3600),
        IntervalUnit::Day => trunc_div(seconds, 86400),
        IntervalUnit::Month => months_between(from, to),
        IntervalUnit::Year => trunc_div(months_between(from, to), 12),
    }
}

/// chrono's `NaiveDateTime::signed_duration_since`, read by
/// `TimeDelta::num_seconds` as whole seconds truncated toward zero.
#[verifier::external_body]
fn seconds_between(from: DateTime, to: DateTime) -> (r: i64)
    requires
        buildable(from),
        buildable(to),
    ensures
        r == trunc_div(elapsed_nanos(from, to), 1_000_000_000),
{
    let a = NaiveDate::from_ymd_opt(from.date.year, from.date.month, from.date.day).unwrap_or(NaiveDate::MIN);
    let b = NaiveDate::from_ymd_opt(to.date.year, to.date.month, to.date.day).unwrap_or(NaiveDate::MIN);
    let a = a.and_hms_nano_opt(from.hour, from.minute, from.second, from.nanos).unwrap_or_default();
    let b = b.and_hms_nano_opt(to.hour, to.minute, to.second, to.nanos).unwrap_or_default();
    b.signed_duration_since(a).num_seconds()
}

/// Whether `a` falls strictly before `b`.
fn is_earlier(a: DateTime, b: DateTime) -> (r: bool)
    requires
        valid_datetime(a),
        valid_datetime(b),
    ensures
        r == earlier(a, b),
{
    let ea: i64 = day_number(a.date) as i64 * 86400 + a.hour as i64 * 3600 + a.minute as i64 * 60 + a.second as i64;
    let eb: i64 = day_number(b.date) as i64 * 86400 + b.hour as i64 * 3600 + b.minute as i64 * 60 + b.second as i64;
    ea < eb || (ea == eb && a.nanos < b.nanos)
}

/// Calendar months fully elapsed between two datetimes (`MySQL`'s boundary
/// rule: January 31 to February 29 is no month).
pub fn complete_months(from: DateTime, to: DateTime) -> (r: i64)
    requires
        valid_datetime(from),
        valid_datetime(to),
    ensures
        r == months_between(from, to),
{
    let forward = !is_earlier(to, from);
    let (early, late) = if forward { (from, to) } else { (to, from) };
    let mut months: i64 = (late.date.year as i64 - early.date.year as i64) * 12 + late.date.month as i64
        - early.date.month as i64;
    let late_clock: i64 = late.hour as i64 * 3600 + late.minute as i64 * 60 + late.second as i64;
    let early_clock: i64 = early.hour as i64 * 3600 + early.minute as i64 * 60 + early.second as i64;
    if late.date.day < early.date.day || (late.date.day == early.date.day && (late_clock < early_clock
        || (late_clock == early_clock && late.nanos < early.nanos))) {
        months = months - 1;
    }
    if forward { months } else { -months }
}

/// `MySQL` `TIMESTAMPDIFF`: complete units from `from` to `to`, truncated
/// toward zero (negative when `to` precedes `from`).
pub fn timestamp_diff(from: DateTime, to: DateTime, unit: IntervalUnit) -> (r: i64)
    requires
        buildable(from),
        buildable(to),
    ensures
        r == timestamp_diff_value(from, to, unit),
{
    match unit {
        IntervalUnit::Second => seconds_between(from, to),
        IntervalUnit::Minute => seconds_between(from, to) / 60,
        IntervalUnit::Hour => seconds_between(from, to) / 3600,
        IntervalUnit::Day => seconds_between(from, to) / 86400,
        IntervalUnit::Month => complete_months(from, to),
        IntervalUnit::Year => complete_months(from, to) / 12,
    }
}

/// A leap second read as the second before it, its fraction kept.
pub open spec fn leap_free(t: DateTime) -> DateTime {
    DateTime {
        date: t.date,
        hour: t.hour,
        minute: t.minute,
        second: t.second,
        nanos: (t.nanos - 1_000_000_000) as u32,
    }
}

/// `t` moved by `k` whole seconds as chrono's `checked_add_signed` moves
/// it: a leap second counts as the second before it when moving forward and
/// as the second after it when moving back.
pub open spec fn clock_shifted(t: DateTime, k: int) -> Option<DateTime> {
    if k == 0 {
        Some(t)
    } else if t.nanos < 1_000_000_000 {
        shifted(t, k)
    } else if k > 0 {
        shifted(leap_free(t), k)
    } else {
        shifted(leap_free(t), k + 1)
    }
}

/// The amount of an interval with its direction applied.
pub open spec fn signed_amount(amount: i64, subtract: bool) -> int {
    if subtract { -amount } else { amount as int }
}

/// chrono's bound on a duration in whole seconds.
pub open spec fn duration_fits(seconds: int) -> bool {
    -9_223_372_036_854_775 <= seconds <= 9_223_372_036_854_775
}

/// Whether a clock interval stays within chrono's durations, which panic
/// past that bound; calendar units and a refused negation always do.
pub open spec fn interval_in_bounds(amount: i64, unit: IntervalUnit, subtract: bool) -> bool {
    ||| subtract && amount == i64::MIN
    ||| unit_seconds(unit) == 0
    ||| duration_fits(signed_amount(amount, subtract) * unit_seconds(unit))
}

/// `DATE_ADD`/`DATE_SUB` of one simple interval.
pub open spec fn interval_applied(t: DateTime, amount: i64, unit: IntervalUnit, subtract: bool) -> Result<DateTime, ExecError> {
    let a = signed_amount(amount, subtract);
    if subtract && amount == i64::MIN {
        Err(ExecError::NumericOverflow)
    } else if unit == IntervalUnit::Year || unit == IntervalUnit::Month {
        let months = if unit == IntervalUnit::Year { a * 12 } else { a };
        if months < i64::MIN || months > i64::MAX || magnitude(months) > u32::MAX {
            Err(ExecError::NumericOverflow)
        } else if months == 0 {
            Ok(t)
        } else if magnitude(months) > i32::MAX || !months_shifted_year_fits(t.date, months) {
            Err(ExecError::InvalidDateTime)
        } else {
            Ok(DateTime {
                date: months_shifted(t.date, months),
                hour: t.hour,
                minute: t.minute,
                second: t.second,
                nanos: t.nanos,
            })
        }
    } else {
        match clock_shifted(t, a * unit_seconds(unit)) {
            Some(u) => Ok(u),
            None => Err(ExecError::InvalidDateTime),
        }
    }
}

/// `DATE_ADD` (`DATE_SUB` when `subtract`) of one simple interval:
/// calendar units clamp the day to the target month, clock units move the
/// instant; `InvalidDateTime` when the result leaves chrono's range.
pub fn apply_interval(value: DateTime, amount: i64, unit: IntervalUnit, subtract: bool) -> (r: Result<DateTime, ExecError>)
    requires
        buildable(value),
        interval_in_bounds(amount, unit, subtract),
    ensures
        r == interval_applied(value, amount, unit, subtract),
        r matches Ok(u) ==> buildable(u),
{
    if subtract && amount == i64::MIN {
        return Err(ExecError::NumericOverflow);
    }
    let a: i64 = if subtract { -amount } else { amount };
    match unit {
        IntervalUnit::Year | IntervalUnit::Month => {
            let months: i64 = if unit == IntervalUnit::Year {
                match a.checked_mul(12) {
                    Some(m) => m,
                    None => return Err(ExecError::NumericOverflow),
                }
            } else {
                a
            };
            if months < -4294967295 || months > 4294967295 {
                return Err(ExecError::NumericOverflow);
            }
            let count: u32 = if months < 0 { (-months) as u32 } else { months as u32 };
            let moved = if months < 0 {
                date_sub_months(value.date, count)
            } else {
                date_add_months(value.date, count)
            };
            match moved {
                Some(date) => Ok(DateTime {
                    date,
                    hour: value.hour,
                    minute: value.minute,
                    second: value.second,
                    nanos: value.nanos,
                }),
                None => Err(ExecError::InvalidDateTime),
            }
        },
        _ => {
            let secs: i64 = match unit {
                IntervalUnit::Day => 86400,
                IntervalUnit::Hour => 3600,
                IntervalUnit::Minute => 60,
                _ => 1,
            };
            assert(-9_223_372_036_854_775 <= a * secs <= 9_223_372_036_854_775);
            let k: i64 = a * secs;
            if k == 0 {
                return Ok(value);
            }
            let moved = if value.nanos < 1_000_000_000 {
                shift_seconds(value, k)
            } else {
                let base = DateTime {
                    date: value.date,
                    hour: value.hour,
                    minute: value.minute,
                    second: value.second,
                    nanos: value.nanos - 1_000_000_000,
                };
                shift_seconds(base, if k > 0 { k } else { k + 1 })
            };
            match moved {
                Some(u) => Ok(u),
                None => Err(ExecError::InvalidDateTime),
            }
        },
    }
}

/// The texts `MySQL` reads as a datetime, tried in turn: date and time
/// with or without a fraction, separated by a space or a `T`, and a bare
/// date read as its midnight.
pub open spec fn mysql_datetime_of(t: Seq<char>) -> Result<DateTime, ExecError> {
    match parsed_datetime(t, "%Y-%m-%d %H:%M:%S%.f"@) {
        Some(v) => Ok(v),
        None => match parsed_datetime(t, "%Y-%m-%dT%H:%M:%S%.f"@) {
            Some(v) => Ok(v),
            None => match parsed_datetime(t, "%Y-%m-%d %H:%M:%S"@) {
                Some(v) => Ok(v),
                None => match parsed_datetime(t, "%Y-%m-%dT%H:%M:%S"@) {
                    Some(v) => Ok(v),
                    None => match parsed_date(t, "%Y-%m-%d"@) {
                        Some(d) => Ok(midnight(d)),
                        None => Err(ExecError::InvalidDateTime),
                    },
                },
            },
        },
    }
}

/// Reads a `MySQL` datetime text; `InvalidDateTime` when no form fits.
pub fn parse_mysql_datetime(value: &str) -> (r: Result<DateTime, ExecError>)
    ensures
        r == mysql_datetime_of(value@),
        r matches Ok(t) ==> buildable(t),
{
    if let Some(v) = parse_datetime(value, "%Y-%m-%d %H:%M:%S%.f") {
        return Ok(v);
    }
    if let Some(v) = parse_datetime(value, "%Y-%m-%dT%H:%M:%S%.f") {
        return Ok(v);
    }
    if let Some(v) = parse_datetime(value, "%Y-%m-%d %H:%M:%S") {
        return Ok(v);
    }
    if let Some(v) = parse_datetime(value, "%Y-%m-%dT%H:%M:%S") {
        return Ok(v);
    }
    match parse_date(value, "%Y-%m-%d") {
        Some(d) => Ok(DateTime { date: d, hour: 0, minute: 0, second: 0, nanos: 0 }),
        None => Err(ExecError::InvalidDateTime),
    }
}

/// Whether a shift of a parsed datetime by `amount` units stays within
/// chrono's durations.
pub open spec fn shift_in_bounds(amount: u64, unit: IntervalUnit) -> bool {
    amount > i64::MAX || unit_seconds(unit) == 0 || duration_fits(amount * unit_seconds(unit))
}

/// One `MySQL` interval applied to a datetime text and rendered back, as a
/// bare date when the text held at most ten bytes and the unit is a
/// calendar one or days.
pub open spec fn shifted_text(input: Seq<char>, byte_len: int, amount: u64, unit: IntervalUnit, add: bool) -> Result<Seq<char>, ExecError> {
    match mysql_datetime_of(input) {
        Err(e) => Err(e),
        Ok(t) => if amount > i64::MAX {
            Err(ExecError::NumericOverflow)
        } else {
            match interval_applied(t, amount as i64, unit, !add) {
                Err(e) => Err(e),
                Ok(u) => if byte_len <= 10 && (unit == IntervalUnit::Year || unit == IntervalUnit::Month || unit == IntervalUnit::Day) {
                    Ok(chrono_date_text(u.date))
                } else {
                    Ok(chrono_datetime_text(u))
                },
            }
        },
    }
}

/// Applies one simple `MySQL` interval to a datetime text, as window
/// `RANGE` bounds do with the calendar arithmetic of `DATE_ADD`/`DATE_SUB`.
pub fn shift_temporal_value(input: &str, amount: u64, unit: IntervalUnit, add: bool) -> (r: Result<String, ExecError>)
    requires
        mysql_datetime_of(input@) is Ok ==> shift_in_bounds(amount, unit),
    ensures
        r matches Ok(s) ==> shifted_text(input@, input.spec_bytes().len() as int, amount, unit, add) == Ok::<Seq<char>, ExecError>(s@),
        r matches Err(e) ==> shifted_text(input@, input.spec_bytes().len() as int, amount, unit, add) == Err::<Seq<char>, ExecError>(e),
{
    let datetime = match parse_mysql_datetime(input) {
        Ok(t) => t,
        Err(e) => return Err(e),
    };
    if amount > 9223372036854775807 {
        return Err(ExecError::NumericOverflow);
    }
    let moved = match apply_interval(datetime, amount as i64, unit, !add) {
        Ok(u) => u,
        Err(e) => return Err(e),
    };
    let date_only = input.as_bytes().len() <= 10 && (unit == IntervalUnit::Year || unit == IntervalUnit::Month
        || unit == IntervalUnit::Day);
    Ok(format_datetime(moved, !date_only))
}

/// `shift_temporal_value` where chrono would accept the duration; `None`
/// for a parsed datetime and a clock amount past chrono's bound, on which
/// chrono panics.
pub fn checked_shift_temporal_value(input: &str, amount: u64, unit: IntervalUnit, add: bool) -> (r: Option<Result<String, ExecError>>)
    ensures
        r is None <==> (mysql_datetime_of(input@) is Ok && !shift_in_bounds(amount, unit)),
        r matches Some(Ok(s)) ==> shifted_text(input@, input.spec_bytes().len() as int, amount, unit, add) == Ok::<Seq<char>, ExecError>(s@),
        r matches Some(Err(e)) ==> shifted_text(input@, input.spec_bytes().len() as int, amount, unit, add) == Err::<Seq<char>, ExecError>(e),
{
    if parse_mysql_datetime(input).is_ok() {
        let secs: u64 = match unit {
            IntervalUnit::Day => 86400,
            IntervalUnit::Hour => 3600,
            IntervalUnit::Minute => 60,
            IntervalUnit::Second => 1,
            _ => 0,
        };
        if amount <= 9223372036854775807 && secs > 0 && amount > 9_223_372_036_854_775 / secs {
            assert(amount * secs > 9_223_372_036_854_775) by (nonlinear_arith)
                requires
                    secs > 0,
                    amount > 9_223_372_036_854_775u64 / secs,
            ;
            return None;
        }
        assert(secs == 0 || amount > i64::MAX || amount * secs <= 9_223_372_036_854_775) by (nonlinear_arith)
            requires
                secs == 0 || amount > i64::MAX || amount <= 9_223_372_036_854_775u64 / secs,
        ;
    }
    Some(shift_temporal_value(input, amount, unit, add))
}

/// The months after `m1` start at least a whole month after it.
proof fn lemma_days_before_month_step(year: int, m1: int, m2: int)
    requires
        1 <= m1 < m2,
    ensures
        days_before_month(year, m2) >= days_before_month(year, m1) + month_length(year, m1),
    decreases m2,
{
    if m2 > m1 + 1 {
        lemma_days_before_month_step(year, m1, m2 - 1);
    }
}

/// The months of a year add up to the year.
proof fn lemma_year_of_months(year: int)
    ensures
        days_before_month(year, 12) + month_length(year, 12) == year_length(year),
{
    reveal_with_fuel(days_before_month, 13);
}

/// `(y / d) - ((y - 1) / d)` is 1 exactly when `d` divides `y`.
proof fn lemma_floor_step(y: int, d: int)
    requires
        d > 0,
    ensures
        y / d - (y - 1) / d == (if y % d == 0 { 1int } else { 0int }),
{
    let q = y / d;
    let r = y % d;
    vstd::arithmetic::div_mod::lemma_fundamental_div_mod(y, d);
    if r == 0 {
        assert(y - 1 == (q - 1) * d + (d - 1)) by (nonlinear_arith)
            requires
                y == d * q + r,
                r == 0,
        ;
        vstd::arithmetic::div_mod::lemma_fundamental_div_mod_converse(y - 1, d, q - 1, d - 1);
    } else {
        assert(y - 1 == q * d + (r - 1)) by (nonlinear_arith)
            requires
                y == d * q + r,
        ;
        vstd::arithmetic::div_mod::lemma_fundamental_div_mod_converse(y - 1, d, q, r - 1);
    }
}

/// Each year starts a year's length after the one before.
proof fn lemma_days_before_year_step(year: int)
    ensures
        days_before_year(year + 1) == days_before_year(year) + year_length(year),
{
    lemma_floor_step(year, 4);
    lemma_floor_step(year, 100);
    lemma_floor_step(year, 400);
    let q = year / 400;
    vstd::arithmetic::div_mod::lemma_fundamental_div_mod(year, 400);
    vstd::arithmetic::div_mod::lemma_fundamental_div_mod(year, 100);
    if year % 400 == 0 {
        assert(year == (4 * q) * 100 + 0) by (nonlinear_arith)
            requires
                year == 400 * q + year % 400,
                year % 400 == 0,
        ;
        vstd::arithmetic::div_mod::lemma_fundamental_div_mod_converse(year, 100, 4 * q, 0);
    }
    if year % 100 == 0 {
        let h = year / 100;
        assert(year == (25 * h) * 4 + 0) by (nonlinear_arith)
            requires
                year == 100 * h + year % 100,
                year % 100 == 0,
        ;
        vstd::arithmetic::div_mod::lemma_fundamental_div_mod_converse(year, 4, 25 * h, 0);
    }
}

/// Later years start later.
proof fn lemma_days_before_year_grows(y1: int, y2: int)
    requires
        y1 < y2,
    ensures
        days_before_year(y2) >= days_before_year(y1) + year_length(y1),
    decreases y2 - y1,
{
    lemma_days_before_year_step(y1);
    if y2 > y1 + 1 {
        lemma_days_before_year_grows(y1 + 1, y2);
    }
}

/// A valid date's ordinal lies within its year.
proof fn lemma_ordinal_in_year(d: CivilDate)
    requires
        valid_date(d),
    ensures
        1 <= ordinal(d) <= year_length(d.year as int),
{
    crate::calendar::lemma_days_before_month_bounds(d.year as int, d.month as int);
    lemma_year_of_months(d.year as int);
    if d.month < 12 {
        lemma_days_before_month_step(d.year as int, d.month as int, 12);
    }
}

/// Day numbers follow calendar order: a date earlier by year, month and
/// day has the smaller day number.
proof fn lemma_day_number_order(a: CivilDate, b: CivilDate)
    requires
        valid_date(a),
        valid_date(b),
        a.year < b.year || (a.year == b.year && (a.month < b.month || (a.month == b.month && a.day < b.day))),
    ensures
        days_from_ce(a) < days_from_ce(b),
{
    lemma_ordinal_in_year(a);
    lemma_ordinal_in_year(b);
    if a.year < b.year {
        lemma_days_before_year_grows(a.year as int, b.year as int);
    } else if a.month < b.month {
        lemma_days_before_month_step(a.year as int, a.month as int, b.month as int);
    }
}

/// The count of calendar months from one month to another.
pub open spec fn month_index(d: CivilDate) -> int {
    d.year * 12 + d.month
}

/// `TIMESTAMPDIFF(MONTH, ..)` between two datetimes on the same day of the
/// month at the same time of day is the number of calendar months between
/// them (one month later on the same day counts as exactly 1, whatever the
/// month's length), and `YEAR` is that count divided by 12, truncated.
pub proof fn law_months_between_same_day_and_time(from: DateTime, to: DateTime)
    requires
        valid_datetime(from),
        valid_datetime(to),
        to.date.day == from.date.day,
        to.hour == from.hour,
        to.minute == from.minute,
        to.second == from.second,
        to.nanos == from.nanos,
    ensures
        timestamp_diff_value(from, to, IntervalUnit::Month) == month_index(to.date) - month_index(from.date),
        timestamp_diff_value(from, to, IntervalUnit::Year) == trunc_div(
            month_index(to.date) - month_index(from.date),
            12,
        ),
{
    let k = month_index(to.date) - month_index(from.date);
    if k < 0 {
        lemma_day_number_order(to.date, from.date);
        assert(earlier(to, from));
    } else if k > 0 {
        lemma_day_number_order(from.date, to.date);
        assert(!earlier(to, from));
    } else {
        assert(to.date == from.date);
        assert(!earlier(to, from));
    }
    assert(!short_of(to, from) && !short_of(from, to));
}

/// `TIMESTAMPDIFF` in years is the count in months divided by 12,
/// truncated toward zero.
pub proof fn law_years_are_twelve_months(from: DateTime, to: DateTime)
    ensures
        timestamp_diff_value(from, to, IntervalUnit::Year) == trunc_div(
            timestamp_diff_value(from, to, IntervalUnit::Month),
            12,
        ),
{
}

/// A span that reaches the next calendar month but falls short of the
/// starting day of the month and time is no complete month: January 31 to
/// February 29 counts 0 in months.
pub proof fn law_short_of_a_month_is_none(from: DateTime, to: DateTime)
    requires
        valid_datetime(from),
        valid_datetime(to),
        month_index(to.date) == month_index(from.date) + 1,
        short_of(to, from),
    ensures
        timestamp_diff_value(from, to, IntervalUnit::Month) == 0,
{
    lemma_day_number_order(from.date, to.date);
    assert(!earlier(to, from));
}

/// Two instants neither of which is earlier than the other are the same
/// date and time of day.
proof fn lemma_same_instant(a: DateTime, b: DateTime)
    requires
        valid_datetime(a),
        valid_datetime(b),
        !earlier(a, b),
        !earlier(b, a),
    ensures
        a.date == b.date,
        seconds_of_day(a) == seconds_of_day(b),
        !short_of(a, b),
        !short_of(b, a),
{
    let (da, db) = (days_from_ce(a.date), days_from_ce(b.date));
    assert(0 <= seconds_of_day(a) < 86400 && 0 <= seconds_of_day(b) < 86400);
    assert(da == db);
    if a.date != b.date {
        if a.date.year < b.date.year || (a.date.year == b.date.year && (a.date.month < b.date.month || (
        a.date.month == b.date.month && a.date.day < b.date.day))) {
            lemma_day_number_order(a.date, b.date);
        } else {
            lemma_day_number_order(b.date, a.date);
        }
    }
}

/// Swapping the ends of a span negates its count of complete months.
pub proof fn law_months_swap_sign(from: DateTime, to: DateTime)
    requires
        valid_datetime(from),
        valid_datetime(to),
    ensures
        timestamp_diff_value(to, from, IntervalUnit::Month) == -timestamp_diff_value(from, to, IntervalUnit::Month),
{
    if !earlier(to, from) && !earlier(from, to) {
        lemma_same_instant(from, to);
    }
}

} // verus!
