//! `MySQL`'s date parts (`YEAR`, `QUARTER`, `WEEK`, ...) of a datetime,
//! and the fast path that reads them straight from canonical date text.
use crate::calendar::{
    date_exists, day_of_year, is_leap, ordinal, valid_date, valid_datetime, valid_ymd,
    weekday_from_monday, weekday_from_sunday, weekday_monday_first, weekday_sunday_first, CivilDate,
    DateTime,
};
use crate::chars::pow10;
use crate::decimal::ExecError;
use crate::temporal::{calc_week, mysql_calc_week, mysql_week_mode0, week_mode0};
use chrono::{Datelike, NaiveDate};
use vstd::prelude::*;
use vstd::string::StringSliceAdditionalSpecFns;

verus! {

/// A part of a date or datetime that `EXTRACT` and its kin read.
#[derive(Clone, Copy, Debug, PartialEq, Eq, Structural)]
pub enum DatePart {
    Year,
    Quarter,
    Month,
    Day,
    Hour,
    Minute,
    Second,
    DayOfWeek,
    WeekDay,
    DayOfYear,
    Week,
    IsoWeek,
    WeekMode(u8),
}

/// The ISO 8601 weeks of a year: 53 when it starts on a Thursday, or on a
/// Wednesday in a leap year.
pub open spec fn iso_weeks_in_year(year: int) -> int {
    let jan1 = weekday_from_monday(CivilDate { year: year as i32, month: 1, day: 1 });
    if jan1 == 3 || (is_leap(year) && jan1 == 2) { 53 } else { 52 }
}

/// The ISO 8601 week of a date: weeks start on Monday and week 1 holds the
/// year's first Thursday.
pub open spec fn iso_week(d: CivilDate) -> int {
    let w = (ordinal(d) - (weekday_from_monday(d) + 1) + 10) / 7;
    if w < 1 {
        iso_weeks_in_year(d.year - 1)
    } else if w > iso_weeks_in_year(d.year as int) {
        1
    } else {
        w
    }
}

/// chrono's `NaiveDate::iso_week().week()`: the ISO 8601 week number.
#[verifier::external_body]
fn iso_week_number(d: CivilDate) -> (r: u32)
    requires
        valid_date(d),
    ensures
        r == iso_week(d),
{
    NaiveDate::from_ymd_opt(d.year, d.month, d.day).unwrap_or(NaiveDate::MIN).iso_week().week()
}

/// The value of a date part: a negative year reads as 0, `DAYOFWEEK` counts
/// Sunday as 1, `WEEKDAY` counts Monday as 0.
pub open spec fn date_part_value(t: DateTime, part: DatePart) -> int {
    match part {
        DatePart::Year => if t.date.year >= 0 { t.date.year as int } else { 0 },
        DatePart::Month => t.date.month as int,
        DatePart::Day => t.date.day as int,
        DatePart::Hour => t.hour as int,
        DatePart::Minute => t.minute as int,
        DatePart::Second => t.second as int,
        DatePart::Quarter => (t.date.month - 1) / 3 + 1,
        DatePart::DayOfWeek => weekday_from_sunday(t.date) + 1,
        DatePart::WeekDay => weekday_from_monday(t.date),
        DatePart::DayOfYear => ordinal(t.date),
        DatePart::Week => week_mode0(t.date),
        DatePart::IsoWeek => iso_week(t.date),
        DatePart::WeekMode(mode) => calc_week(t.date, mode as u32).1,
    }
}

/// A date part of a datetime.
pub fn date_part(value: DateTime, part: DatePart) -> (r: u64)
    requires
        valid_datetime(value),
    ensures
        r == date_part_value(value, part),
{
    match part {
        DatePart::Year => if value.date.year >= 0 { value.date.year as u64 } else { 0 },
        DatePart::Month => value.date.month as u64,
        DatePart::Day => value.date.day as u64,
        DatePart::Hour => value.hour as u64,
        DatePart::Minute => value.minute as u64,
        DatePart::Second => value.second as u64,
        DatePart::Quarter => ((value.date.month - 1) / 3 + 1) as u64,
        DatePart::DayOfWeek => weekday_sunday_first(value.date) as u64 + 1,
        DatePart::WeekDay => weekday_monday_first(value.date) as u64,
        DatePart::DayOfYear => day_of_year(value.date) as u64,
        DatePart::Week => mysql_week_mode0(value.date),
        DatePart::IsoWeek => iso_week_number(value.date) as u64,
        DatePart::WeekMode(mode) => mysql_calc_week(value.date, mode as u32).1 as u64,
    }
}

/// The value of a run of ASCII digits; `None` when any byte is another.
pub open spec fn ascii_value(s: Seq<u8>) -> Option<nat>
    decreases s.len(),
{
    if s.len() == 0 {
        Some(0)
    } else {
        match ascii_value(s.drop_last()) {
            None => None,
            Some(v) => if 48 <= s.last() <= 57 {
                Some(v * 10 + (s.last() - 48) as nat)
            } else {
                None
            },
        }
    }
}

proof fn lemma_ascii_value_bound(s: Seq<u8>)
    ensures
        ascii_value(s) matches Some(v) ==> v < pow10(s.len()),
    decreases s.len(),
{
    if s.len() > 0 {
        lemma_ascii_value_bound(s.drop_last());
        if let Some(v) = ascii_value(s) {
            let p = pow10((s.len() - 1) as nat);
            let w = ascii_value(s.drop_last()).unwrap();
            assert(v < p * 10) by (nonlinear_arith)
                requires
                    v == w * 10 + (s.last() - 48),
                    w < p,
                    s.last() - 48 <= 9,
            ;
        }
    }
}

proof fn lemma_pow10_grows(a: nat, b: nat)
    requires
        a <= b,
    ensures
        pow10(a) <= pow10(b),
    decreases b,
{
    if a < b {
        lemma_pow10_grows(a, (b - 1) as nat);
    }
}

/// The value of an ASCII decimal byte run; `None` when any byte is not a
/// digit. At most 19 digits, so that the value fits.
pub fn ascii_decimal(bytes: &[u8]) -> (r: Option<u64>)
    requires
        bytes@.len() <= 19,
    ensures
        r matches Some(v) ==> ascii_value(bytes@) == Some(v as nat),
        r is None ==> ascii_value(bytes@) is None,
{
    let mut value: u64 = 0;
    let mut i: usize = 0;
    while i < bytes.len()
        invariant
            i <= bytes@.len() <= 19,
            ascii_value(bytes@.subrange(0, i as int)) == Some(value as nat),
        decreases bytes@.len() - i,
    {
        let b = bytes[i];
        proof {
            assert(bytes@.subrange(0, i + 1).drop_last() =~= bytes@.subrange(0, i as int));
        }
        if b < 48 || b > 57 {
            proof {
                lemma_none_extends(bytes@, i as int + 1);
            }
            return None;
        }
        proof {
            lemma_ascii_value_bound(bytes@.subrange(0, i as int));
            lemma_pow10_grows(i as nat, 18);
            assert(pow10(18) == 1_000_000_000_000_000_000) by {
                reveal_with_fuel(pow10, 19);
            }
        }
        value = value * 10 + (b - 48) as u64;
        i = i + 1;
    }
    assert(bytes@.subrange(0, bytes@.len() as int) =~= bytes@);
    Some(value)
}

proof fn lemma_none_extends(s: Seq<u8>, k: int)
    requires
        0 <= k <= s.len(),
        ascii_value(s.subrange(0, k)) is None,
    ensures
        ascii_value(s) is None,
    decreases s.len() - k,
{
    if k < s.len() {
        assert(s.subrange(0, k + 1).drop_last() =~= s.subrange(0, k));
        lemma_none_extends(s, k + 1);
    } else {
        assert(s.subrange(0, k) =~= s);
    }
}

/// The date parts readable straight from canonical `YYYY-MM-DD` text
/// (with `hh:mm:ss` after a space or `T` for the clock parts): `None` when
/// the text or the part needs the general path, `InvalidDateTime` for an
/// impossible date or clock.
pub open spec fn direct_part_value(b: Seq<u8>, part: DatePart) -> Option<Result<u64, ExecError>> {
    if b.len() < 10 || b[4] != 45 || b[7] != 45 {
        None
    } else {
        match (ascii_value(b.subrange(0, 4)), ascii_value(b.subrange(5, 7)), ascii_value(b.subrange(8, 10))) {
            (Some(year), Some(month), Some(day)) => if !valid_ymd(year as i32, month as u32, day as u32) {
                Some(Err(ExecError::InvalidDateTime))
            } else {
                match part {
                    DatePart::Year => Some(Ok(year as u64)),
                    DatePart::Month => Some(Ok(month as u64)),
                    DatePart::Day => Some(Ok(day as u64)),
                    DatePart::Hour | DatePart::Minute | DatePart::Second => if b.len() < 19 || (b[10] != 32
                        && b[10] != 84) || b[13] != 58 || b[16] != 58 {
                        None
                    } else {
                        match (ascii_value(b.subrange(11, 13)), ascii_value(b.subrange(14, 16)), ascii_value(b.subrange(17, 19))) {
                            (Some(h), Some(m), Some(s)) => if h > 23 || m > 59 || s > 59 {
                                Some(Err(ExecError::InvalidDateTime))
                            } else {
                                Some(Ok((if part == DatePart::Hour { h } else if part == DatePart::Minute { m } else { s }) as u64))
                            },
                            _ => None,
                        }
                    },
                    _ => None,
                }
            },
            _ => None,
        }
    }
}

/// Reads a date part straight from canonical date or datetime text.
pub fn direct_date_part(value: &str, part: DatePart) -> (r: Option<Result<u64, ExecError>>)
    ensures
        r == direct_part_value(value.spec_bytes(), part),
{
    let bytes = value.as_bytes();
    if bytes.len() < 10 || bytes[4] != 45 || bytes[7] != 45 {
        return None;
    }
    let year = match ascii_decimal(&bytes[0..4]) {
        Some(v) => v,
        None => return None,
    };
    let month = match ascii_decimal(&bytes[5..7]) {
        Some(v) => v,
        None => return None,
    };
    let day = match ascii_decimal(&bytes[8..10]) {
        Some(v) => v,
        None => return None,
    };
    proof {
        lemma_ascii_value_bound(bytes@.subrange(0, 4));
        lemma_ascii_value_bound(bytes@.subrange(5, 7));
        lemma_ascii_value_bound(bytes@.subrange(8, 10));
        assert(pow10(4) == 10000) by {
            reveal_with_fuel(pow10, 5);
        }
        assert(pow10(2) == 100) by {
            reveal_with_fuel(pow10, 3);
        }
    }
    if !date_exists(year as i32, month as u32, day as u32) {
        return Some(Err(ExecError::InvalidDateTime));
    }
    match part {
        DatePart::Year => Some(Ok(year)),
        DatePart::Month => Some(Ok(month)),
        DatePart::Day => Some(Ok(day)),
        DatePart::Hour | DatePart::Minute | DatePart::Second => {
            if bytes.len() < 19 || (bytes[10] != 32 && bytes[10] != 84) || bytes[13] != 58 || bytes[16] != 58 {
                return None;
            }
            let hour = match ascii_decimal(&bytes[11..13]) {
                Some(v) => v,
                None => return None,
            };
            let minute = match ascii_decimal(&bytes[14..16]) {
                Some(v) => v,
                None => return None,
            };
            let second = match ascii_decimal(&bytes[17..19]) {
                Some(v) => v,
                None => return None,
            };
            if hour > 23 || minute > 59 || second > 59 {
                return Some(Err(ExecError::InvalidDateTime));
            }
            Some(Ok(if part == DatePart::Hour { hour } else if part == DatePart::Minute { minute } else { second }))
        },
        _ => None,
    }
}

/// `QUARTER` names the quarter holding the month: 1 for January to March,
/// 2 for April to June, 3 for July to September, 4 for October to
/// December.
pub proof fn law_quarter_holds_the_month(t: DateTime)
    requires
        valid_datetime(t),
    ensures
        1 <= date_part_value(t, DatePart::Quarter) <= 4,
        3 * date_part_value(t, DatePart::Quarter) - 2 <= date_part_value(t, DatePart::Month) <= 3
            * date_part_value(t, DatePart::Quarter),
{
}

} // verus!
