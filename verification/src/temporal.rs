//! `MySQL` temporal semantics: the week modes of `WEEK` and `YEARWEEK`,
//! `DATE_FORMAT`, `CONVERT_TZ`, and the chrono parse format `STR_TO_DATE`
//! formats once translated to.
use crate::calendar::{
    day_number, day_of_year, days_from_ce, days_in_year, ordinal, valid_date, weekday_from_monday,
    weekday_from_sunday, weekday_monday_first, weekday_sunday_first, year_length, CivilDate,
    lemma_ordinal_bounds, buildable, chrono_datetime_text, format_datetime, parse_date,
    parse_datetime, parsed_date, parsed_datetime, shift_seconds, shifted, valid_datetime, DateTime,
    MIN_YEAR, days_before_month,
};
use crate::chars::{
    chars_of, decimal, padded, push_all, push_decimal, push_padded, push_signed_padded,
    signed_padded, slice_chars, string_of, trim, trimmed,
};
use crate::zone::{
    timezone_spec, tz_local_offset, tz_utc_offset, zone_offset_at_local, zone_offset_at_utc,
    zone_spec_of, ZoneSpec, ZoneView,
};
use vstd::prelude::*;

verus! {

/// `MySQL`'s week flag: weeks start on Monday.
pub const WEEK_MONDAY_FIRST: u32 = 1;

/// `MySQL`'s week flag: the week belongs to the year that holds most of it.
pub const WEEK_YEAR: u32 = 2;

/// `MySQL`'s week flag: week 1 is the first week with the first weekday.
pub const WEEK_FIRST_WEEKDAY: u32 = 4;

/// `MySQL`'s mode-to-flag mapping: a mode without `WEEK_MONDAY_FIRST`
/// flips `WEEK_FIRST_WEEKDAY`, which is why modes 0/2 and 1/3 pair up.
pub open spec fn week_flags(mode: u32) -> u32 {
    let format = mode & 7;
    if format & WEEK_MONDAY_FIRST == 0 { format ^ WEEK_FIRST_WEEKDAY } else { format }
}

/// `MySQL`'s mode-to-flag mapping.
pub fn week_mode(mode: u32) -> (r: u32)
    ensures
        r == week_flags(mode),
        r < 8,
{
    let format = mode & 7;
    let r = if format & WEEK_MONDAY_FIRST == 0 { format ^ WEEK_FIRST_WEEKDAY } else { format };
    assert(r < 8) by (bit_vector)
        requires
            format == mode & 7,
            r == (if format & 1 == 0 { format ^ 4 } else { format }),
    ;
    r
}

/// January 1 of a date's year.
pub open spec fn january_first(d: CivilDate) -> CivilDate {
    CivilDate { year: d.year, month: 1, day: 1 }
}

/// Whether week 1 starts late under the flags: with the first weekday as
/// its start and the year not starting on it, or, when four days suffice,
/// with fewer than four days of the new year in its first week.
pub open spec fn starts_late(first_weekday: bool, weekday: int) -> bool {
    (first_weekday && weekday != 0) || (!first_weekday && weekday >= 4)
}

/// `MySQL`'s `calc_week`: the week-numbering year and week of a date under
/// a mode.
pub open spec fn calc_week(d: CivilDate, mode: u32) -> (int, int) {
    let flags = week_flags(mode);
    let monday_first = flags & WEEK_MONDAY_FIRST != 0;
    let week_year = flags & WEEK_YEAR != 0;
    let first_weekday = flags & WEEK_FIRST_WEEKDAY != 0;
    let daynr = days_from_ce(d);
    let jan1 = january_first(d);
    let weekday0 = if monday_first { weekday_from_monday(jan1) } else { weekday_from_sunday(jan1) };
    let rolls = d.month == 1 && d.day <= 7 - weekday0;
    if rolls && !week_year && starts_late(first_weekday, weekday0) {
        (d.year as int, 0)
    } else {
        let year = if rolls { d.year - 1 } else { d.year as int };
        let first = if rolls { days_from_ce(jan1) - year_length(year) } else { days_from_ce(jan1) };
        let weekday = if rolls { (weekday0 + 53 * 7 - year_length(year)) % 7 } else { weekday0 };
        let days = if starts_late(first_weekday, weekday) {
            daynr - (first + (7 - weekday))
        } else {
            daynr - (first - weekday)
        };
        let next_weekday = (weekday + year_length(year)) % 7;
        if (week_year || rolls) && days >= 52 * 7 && ((!first_weekday && next_weekday < 4) || (
        first_weekday && next_weekday == 0)) {
            (year + 1, 1)
        } else {
            (year, days / 7 + 1)
        }
    }
}

/// Day numbers within one year differ by their ordinals.
proof fn lemma_same_year_days(d: CivilDate)
    ensures
        days_from_ce(d) - days_from_ce(january_first(d)) == ordinal(d) - 1,
{
}

/// The months before a later month hold at least 31 days.
proof fn lemma_days_before_month_grows(year: int, month: int)
    requires
        2 <= month,
    ensures
        days_before_month(year, month) >= 31,
    decreases month,
{
    if month > 2 {
        lemma_days_before_month_grows(year, month - 1);
    } else {
        reveal_with_fuel(days_before_month, 3);
    }
}

/// `MySQL`'s `calc_week`, returning `(year, week)`.
///
/// The four modes disagree about both the first day of the week and whether
/// week 1 must hold four days of the new year; the paired year (`%X`, `%x`)
/// is why this returns the year too.
pub fn mysql_calc_week(date: CivilDate, mode: u32) -> (r: (i32, u32))
    requires
        valid_date(date),
    ensures
        r.0 as int == calc_week(date, mode).0,
        r.1 as int == calc_week(date, mode).1,
{
    let flags = week_mode(mode);
    let monday_first = flags & WEEK_MONDAY_FIRST != 0;
    let mut week_year = flags & WEEK_YEAR != 0;
    let first_weekday = flags & WEEK_FIRST_WEEKDAY != 0;
    let daynr = day_number(date) as i64;
    let mut year = date.year;
    let first = CivilDate { year, month: 1, day: 1 };
    let mut first_daynr = day_number(first) as i64;
    let mut weekday: u32 = if monday_first {
        weekday_monday_first(first)
    } else {
        weekday_sunday_first(first)
    };
    let ghost weekday0 = weekday;
    let rolls = date.month == 1 && date.day <= 7 - weekday;
    proof {
        lemma_same_year_days(date);
        if date.month > 1 {
            lemma_days_before_month_grows(date.year as int, date.month as int);
        }
        assert(ordinal(date) == days_before_month(date.year as int, date.month as int) + date.day);
    }
    if rolls {
        if !week_year && ((first_weekday && weekday != 0) || (!first_weekday && weekday >= 4)) {
            return (year, 0);
        }
        week_year = true;
        year = year - 1;
        let length = days_in_year(year);
        first_daynr = first_daynr - length as i64;
        weekday = (weekday + 53 * 7 - length as u32) % 7;
    }
    let offset = weekday as i64;
    let days: i64 = if (first_weekday && weekday != 0) || (!first_weekday && weekday >= 4) {
        daynr - (first_daynr + (7 - offset))
    } else {
        daynr - (first_daynr - offset)
    };
    if week_year && days >= 52 * 7 {
        let next = (weekday + days_in_year(year) as u32) % 7;
        if (!first_weekday && next < 4) || (first_weekday && next == 0) {
            return (year + 1, 1);
        }
    }
    assert(days >= 0);
    (year, (days / 7 + 1) as u32)
}

/// `MySQL` `WEEK` in its default mode 0: Sunday-start weeks numbered 0 to
/// 53; days before the year's first Sunday are week 0.
pub open spec fn week_mode0(d: CivilDate) -> int {
    let offset = weekday_from_sunday(january_first(d));
    let week = (ordinal(d) - 1 + offset) / 7;
    if offset == 0 { week + 1 } else { week }
}

/// `MySQL` `WEEK` in its default mode 0.
pub fn mysql_week_mode0(date: CivilDate) -> (r: u64)
    requires
        valid_date(date),
    ensures
        r == week_mode0(date),
        r <= 60,
{
    let january_first = CivilDate { year: date.year, month: 1, day: 1 };
    let offset = weekday_sunday_first(january_first) as u64;
    proof {
        lemma_ordinal_bounds(date);
    }
    let week = (day_of_year(date) as u64 - 1 + offset) / 7;
    if offset == 0 {
        week + 1
    } else {
        week
    }
}

/// `MySQL` `YEARWEEK` in its default mode 0: `year * 100 + week`, where a
/// date in week 0 reports the previous year's final week instead.
pub open spec fn yearweek_mode0(d: CivilDate) -> int {
    let week = week_mode0(d);
    if week > 0 {
        (if d.year >= 0 { d.year as int } else { 0 }) * 100 + week
    } else {
        let previous = CivilDate { year: (d.year - 1) as i32, month: 12, day: 31 };
        let offset = weekday_from_sunday(january_first(previous));
        let days = ordinal(previous) + ordinal(d) - 1;
        let w = (days + offset) / 7 + (if offset == 0 { 1int } else { 0int });
        (if d.year - 1 >= 0 { d.year - 1 } else { 0 }) * 100 + w
    }
}

/// `MySQL` `YEARWEEK` in its default mode 0. Negative years count as zero.
pub fn mysql_yearweek(date: CivilDate) -> (r: u64)
    requires
        valid_date(date),
        date.year > MIN_YEAR || week_mode0(date) > 0,
    ensures
        r == yearweek_mode0(date),
{
    let week = mysql_week_mode0(date);
    assert(week <= 60);
    if week > 0 {
        let year: u64 = if date.year >= 0 { date.year as u64 } else { 0 };
        return year * 100 + week;
    }
    let previous_december = CivilDate { year: date.year - 1, month: 12, day: 31 };
    let january_first = CivilDate { year: date.year - 1, month: 1, day: 1 };
    let offset = weekday_sunday_first(january_first) as u64;
    proof {
        lemma_ordinal_bounds(date);
        lemma_ordinal_bounds(previous_december);
    }
    let days = day_of_year(previous_december) as u64 + day_of_year(date) as u64 - 1;
    let week = (days + offset) / 7 + if offset == 0 { 1u64 } else { 0u64 };
    let year: u64 = if date.year - 1 >= 0 { (date.year - 1) as u64 } else { 0 };
    year * 100 + week
}


/// English month names, January first.
pub open spec fn month_name(month: int) -> Seq<char> {
    if month == 1 { "January"@ }
    else if month == 2 { "February"@ }
    else if month == 3 { "March"@ }
    else if month == 4 { "April"@ }
    else if month == 5 { "May"@ }
    else if month == 6 { "June"@ }
    else if month == 7 { "July"@ }
    else if month == 8 { "August"@ }
    else if month == 9 { "September"@ }
    else if month == 10 { "October"@ }
    else if month == 11 { "November"@ }
    else { "December"@ }
}

/// English weekday names, Monday as 0.
pub open spec fn weekday_name(weekday: int) -> Seq<char> {
    if weekday == 0 { "Monday"@ }
    else if weekday == 1 { "Tuesday"@ }
    else if weekday == 2 { "Wednesday"@ }
    else if weekday == 3 { "Thursday"@ }
    else if weekday == 4 { "Friday"@ }
    else if weekday == 5 { "Saturday"@ }
    else { "Sunday"@ }
}

/// The name of a month.
fn month_name_text(month: u32) -> (r: &'static str)
    ensures
        r@ == month_name(month as int),
        r@.len() >= 3,
{
    proof {
        reveal_strlit("January");
        reveal_strlit("February");
        reveal_strlit("March");
        reveal_strlit("April");
        reveal_strlit("May");
        reveal_strlit("June");
        reveal_strlit("July");
        reveal_strlit("August");
        reveal_strlit("September");
        reveal_strlit("October");
        reveal_strlit("November");
        reveal_strlit("December");
    }
    if month == 1 { "January" }
    else if month == 2 { "February" }
    else if month == 3 { "March" }
    else if month == 4 { "April" }
    else if month == 5 { "May" }
    else if month == 6 { "June" }
    else if month == 7 { "July" }
    else if month == 8 { "August" }
    else if month == 9 { "September" }
    else if month == 10 { "October" }
    else if month == 11 { "November" }
    else { "December" }
}

/// The name of a weekday.
fn weekday_name_text(weekday: u32) -> (r: &'static str)
    ensures
        r@ == weekday_name(weekday as int),
        r@.len() >= 3,
{
    proof {
        reveal_strlit("Monday");
        reveal_strlit("Tuesday");
        reveal_strlit("Wednesday");
        reveal_strlit("Thursday");
        reveal_strlit("Friday");
        reveal_strlit("Saturday");
        reveal_strlit("Sunday");
    }
    if weekday == 0 { "Monday" }
    else if weekday == 1 { "Tuesday" }
    else if weekday == 2 { "Wednesday" }
    else if weekday == 3 { "Thursday" }
    else if weekday == 4 { "Friday" }
    else if weekday == 5 { "Saturday" }
    else { "Sunday" }
}

/// `MySQL`'s ordinal suffix for `%D`: 11th, 12th and 13th are the
/// exceptions to the last-digit rule.
pub open spec fn suffix_of(day: int) -> Seq<char> {
    if 11 <= day % 100 <= 13 { "th"@ }
    else if day % 10 == 1 { "st"@ }
    else if day % 10 == 2 { "nd"@ }
    else if day % 10 == 3 { "rd"@ }
    else { "th"@ }
}

/// `MySQL`'s ordinal suffix for `%D`.
pub fn ordinal_suffix(day: u32) -> (r: &'static str)
    ensures
        r@ == suffix_of(day as int),
{
    let hundreds = day % 100;
    let tens = day % 10;
    if 11 <= hundreds && hundreds <= 13 {
        "th"
    } else if tens == 1 {
        "st"
    } else if tens == 2 {
        "nd"
    } else if tens == 3 {
        "rd"
    } else {
        "th"
    }
}

/// The hour on a twelve-hour clock.
pub open spec fn hour12(hour: int) -> int {
    if hour % 12 == 0 { 12 } else { hour % 12 }
}

/// The meridiem of an hour.
pub open spec fn meridiem(hour: int) -> Seq<char> {
    if hour < 12 { "AM"@ } else { "PM"@ }
}

/// The text one `DATE_FORMAT` directive writes. Unknown directives copy
/// the bare character, as `MySQL` documents: `%q` is `q`.
pub open spec fn directive(v: DateTime, c: char) -> Seq<char> {
    let d = v.date;
    if c == 'a' { weekday_name(weekday_from_monday(d)).take(3) }
    else if c == 'b' { month_name(d.month as int).take(3) }
    else if c == 'c' { decimal(d.month as nat) }
    else if c == 'D' { decimal(d.day as nat) + suffix_of(d.day as int) }
    else if c == 'd' { padded(d.day as nat, 2) }
    else if c == 'e' { decimal(d.day as nat) }
    else if c == 'f' { padded((v.nanos / 1000) as nat, 6) }
    else if c == 'H' { padded(v.hour as nat, 2) }
    else if c == 'h' || c == 'I' { padded(hour12(v.hour as int) as nat, 2) }
    else if c == 'i' { padded(v.minute as nat, 2) }
    else if c == 'j' { padded(ordinal(d) as nat, 3) }
    else if c == 'k' { decimal(v.hour as nat) }
    else if c == 'l' { decimal(hour12(v.hour as int) as nat) }
    else if c == 'M' { month_name(d.month as int) }
    else if c == 'm' { padded(d.month as nat, 2) }
    else if c == 'p' { meridiem(v.hour as int) }
    else if c == 'r' {
        padded(hour12(v.hour as int) as nat, 2) + seq![':'] + padded(v.minute as nat, 2) + seq![':']
            + padded(v.second as nat, 2) + seq![' '] + meridiem(v.hour as int)
    }
    else if c == 'S' || c == 's' { padded(v.second as nat, 2) }
    else if c == 'T' {
        padded(v.hour as nat, 2) + seq![':'] + padded(v.minute as nat, 2) + seq![':'] + padded(v.second as nat, 2)
    }
    else if c == 'U' { padded(calc_week(d, 0).1 as nat, 2) }
    else if c == 'u' { padded(calc_week(d, 1).1 as nat, 2) }
    else if c == 'V' { padded(calc_week(d, 2).1 as nat, 2) }
    else if c == 'v' { padded(calc_week(d, 3).1 as nat, 2) }
    else if c == 'W' { weekday_name(weekday_from_monday(d)) }
    else if c == 'w' { decimal(weekday_from_sunday(d) as nat) }
    else if c == 'X' { signed_padded(calc_week(d, 2).0, 4) }
    else if c == 'x' { signed_padded(calc_week(d, 3).0, 4) }
    else if c == 'Y' { signed_padded(d.year as int, 4) }
    else if c == 'y' { padded((d.year % 100) as nat, 2) }
    else { seq![c] }
}

/// `DATE_FORMAT`: literal characters copied, each `%` directive rendered,
/// a trailing lone `%` kept.
pub open spec fn date_format(v: DateTime, format: Seq<char>) -> Seq<char>
    decreases format.len(),
{
    if format.len() == 0 {
        Seq::empty()
    } else if format[0] != '%' {
        seq![format[0]] + date_format(v, format.drop_first())
    } else if format.len() == 1 {
        seq!['%']
    } else {
        directive(v, format[1]) + date_format(v, format.subrange(2, format.len() as int))
    }
}

/// Appends the first `n` characters of a name.
fn push_prefix(out: &mut Vec<char>, name: &str, n: usize)
    requires
        n <= name@.len(),
    ensures
        final(out)@ == old(out)@ + name@.take(n as int),
{
    let chars = chars_of(name);
    let part = slice_chars(chars.as_slice(), 0, n);
    push_all(out, part.as_slice());
    assert(name@.take(n as int) =~= chars@.subrange(0, n as int));
}

/// Appends the whole of a name.
fn push_str(out: &mut Vec<char>, name: &str)
    ensures
        final(out)@ == old(out)@ + name@,
{
    let chars = chars_of(name);
    push_all(out, chars.as_slice());
}

/// Appends the text of one `DATE_FORMAT` directive.
#[verifier::spinoff_prover]
#[verifier::rlimit(60)]
fn push_directive(out: &mut Vec<char>, value: DateTime, c: char)
    requires
        crate::calendar::valid_datetime(value),
    ensures
        final(out)@ == old(out)@ + directive(value, c),
{
    let d = value.date;
    let hour12: u32 = if value.hour % 12 == 0 { 12 } else { value.hour % 12 };
    proof {
        reveal_strlit("AM");
        reveal_strlit("PM");
        reveal_strlit(":");
    }
    let meridiem: &str = if value.hour < 12 { "AM" } else { "PM" };
    if c == 'a' {
        push_prefix(out, weekday_name_text(weekday_monday_first(d)), 3);
    } else if c == 'b' {
        push_prefix(out, month_name_text(d.month), 3);
    } else if c == 'c' {
        push_decimal(out, d.month as u64);
    } else if c == 'D' {
        push_decimal(out, d.day as u64);
        push_str(out, ordinal_suffix(d.day));
    } else if c == 'd' {
        push_padded(out, d.day as u64, 2);
    } else if c == 'e' {
        push_decimal(out, d.day as u64);
    } else if c == 'f' {
        push_padded(out, (value.nanos / 1000) as u64, 6);
    } else if c == 'H' {
        push_padded(out, value.hour as u64, 2);
    } else if c == 'h' || c == 'I' {
        push_padded(out, hour12 as u64, 2);
    } else if c == 'i' {
        push_padded(out, value.minute as u64, 2);
    } else if c == 'j' {
        push_padded(out, day_of_year(d) as u64, 3);
    } else if c == 'k' {
        push_decimal(out, value.hour as u64);
    } else if c == 'l' {
        push_decimal(out, hour12 as u64);
    } else if c == 'M' {
        push_str(out, month_name_text(d.month));
    } else if c == 'm' {
        push_padded(out, d.month as u64, 2);
    } else if c == 'p' {
        push_str(out, meridiem);
    } else if c == 'r' {
        push_padded(out, hour12 as u64, 2);
        out.push(':');
        push_padded(out, value.minute as u64, 2);
        out.push(':');
        push_padded(out, value.second as u64, 2);
        out.push(' ');
        push_str(out, meridiem);
        assert(out@ =~= old(out)@ + directive(value, c));
    } else if c == 'S' || c == 's' {
        push_padded(out, value.second as u64, 2);
    } else if c == 'T' {
        push_padded(out, value.hour as u64, 2);
        out.push(':');
        push_padded(out, value.minute as u64, 2);
        out.push(':');
        push_padded(out, value.second as u64, 2);
        assert(out@ =~= old(out)@ + directive(value, c));
    } else if c == 'U' {
        push_padded(out, mysql_calc_week(d, 0).1 as u64, 2);
    } else if c == 'u' {
        push_padded(out, mysql_calc_week(d, 1).1 as u64, 2);
    } else if c == 'V' {
        push_padded(out, mysql_calc_week(d, 2).1 as u64, 2);
    } else if c == 'v' {
        push_padded(out, mysql_calc_week(d, 3).1 as u64, 2);
    } else if c == 'W' {
        push_str(out, weekday_name_text(weekday_monday_first(d)));
    } else if c == 'w' {
        push_decimal(out, weekday_sunday_first(d) as u64);
    } else if c == 'X' {
        push_signed_padded(out, mysql_calc_week(d, 2).0 as i64, 4);
    } else if c == 'x' {
        push_signed_padded(out, mysql_calc_week(d, 3).0 as i64, 4);
    } else if c == 'Y' {
        push_signed_padded(out, d.year as i64, 4);
    } else if c == 'y' {
        let rem = euclid_rem_100(d.year);
        push_padded(out, rem as u64, 2);
    } else {
        out.push(c);
        assert(out@ =~= old(out)@ + directive(value, c));
    }
    assert(out@ =~= old(out)@ + directive(value, c));
}

/// `i32::rem_euclid(100)`.
fn euclid_rem_100(year: i32) -> (r: u32)
    ensures
        r == year % 100,
        r < 100,
{
    let shifted: i64 = year as i64 + 2_400_000_000;
    (shifted % 100) as u32
}

/// `MySQL` `DATE_FORMAT`, rendering each directive directly.
pub fn mysql_date_format(value: DateTime, format: &str) -> (r: String)
    requires
        crate::calendar::valid_datetime(value),
    ensures
        r@ == date_format(value, format@),
{
    let fmt = chars_of(format);
    let mut out: Vec<char> = Vec::new();
    let mut i: usize = 0;
    assert(fmt@.subrange(0, fmt@.len() as int) =~= fmt@);
    assert(out@ + date_format(value, fmt@) =~= date_format(value, fmt@));
    while i < fmt.len()
        invariant
            i <= fmt@.len(),
            crate::calendar::valid_datetime(value),
            out@ + date_format(value, fmt@.subrange(i as int, fmt@.len() as int)) == date_format(value, fmt@),
        decreases fmt@.len() - i,
    {
        let ghost rest = fmt@.subrange(i as int, fmt@.len() as int);
        let ghost before = out@;
        let c = fmt[i];
        if c != '%' {
            out.push(c);
            i = i + 1;
            proof {
                assert(rest.drop_first() =~= fmt@.subrange(i as int, fmt@.len() as int));
                assert(out@ =~= before + seq![c]);
            }
        } else if i + 1 == fmt.len() {
            out.push('%');
            i = i + 1;
            proof {
                assert(fmt@.subrange(i as int, fmt@.len() as int) =~= Seq::<char>::empty());
                assert(out@ =~= before + seq!['%']);
            }
        } else {
            let d = fmt[i + 1];
            push_directive(&mut out, value, d);
            i = i + 2;
            proof {
                assert(rest.subrange(2, rest.len() as int) =~= fmt@.subrange(i as int, fmt@.len() as int));
            }
        }
    }
    assert(fmt@.subrange(i as int, fmt@.len() as int) =~= Seq::<char>::empty());
    assert(out@ =~= date_format(value, format@));
    string_of(out.as_slice())
}


/// Midnight of a date.
pub open spec fn midnight(d: CivilDate) -> DateTime {
    DateTime { date: d, hour: 0, minute: 0, second: 0, nanos: 0 }
}

/// A datetime text, or a bare date read as its midnight.
pub open spec fn datetime_or_date(t: Seq<char>) -> Option<DateTime> {
    match parsed_datetime(t, "%Y-%m-%d %H:%M:%S%.f"@) {
        Some(v) => Some(v),
        None => match parsed_date(t, "%Y-%m-%d"@) {
            Some(d) => Some(midnight(d)),
            None => None,
        },
    }
}

/// The UTF-8 length of a character.
pub open spec fn utf8_len(c: char) -> int {
    let v = c as u32;
    if v < 0x80 { 1 } else if v < 0x800 { 2 } else if v < 0x10000 { 3 } else { 4 }
}

/// The UTF-8 length of a text.
pub open spec fn utf8_size(s: Seq<char>) -> int
    decreases s.len(),
{
    if s.len() == 0 { 0 } else { utf8_size(s.drop_last()) + utf8_len(s.last()) }
}

/// The last index of `c`, if any.
pub open spec fn last_index(s: Seq<char>, c: char) -> Option<int> {
    if exists|i: int| 0 <= i < s.len() && s[i] == c {
        Some(choose|i: int| 0 <= i < s.len() && s[i] == c && forall|j: int| i < j < s.len() ==> s[j] != c)
    } else {
        None
    }
}

/// The byte length of what follows the last `.`, at most six: the
/// fraction digits the input carried.
pub open spec fn fraction_digits(t: Seq<char>) -> int {
    match last_index(t, '.') {
        None => 0,
        Some(i) => if utf8_size(t.skip(i + 1)) > 6 { 6 } else { utf8_size(t.skip(i + 1)) },
    }
}

/// A local wall time of a zone, as UTC.
pub open spec fn to_utc(zone: ZoneView, local: DateTime) -> Option<DateTime> {
    match zone {
        ZoneView::Fixed(seconds) => shifted(local, -seconds),
        ZoneView::Named(name) => match tz_local_offset(name, local) {
            Some(offset) => shifted(local, -offset),
            None => None,
        },
    }
}

/// A UTC time as a zone's wall time.
pub open spec fn from_utc(zone: ZoneView, utc: DateTime) -> Option<DateTime> {
    match zone {
        ZoneView::Fixed(seconds) => shifted(utc, seconds),
        ZoneView::Named(name) => if buildable(utc) {
            match tz_utc_offset(name, utc) {
                Some(offset) => shifted(utc, offset),
                None => None,
            }
        } else {
            None
        },
    }
}

/// A converted wall time rendered with the input's fraction digits.
pub open spec fn rendered_with_fraction(local: DateTime, digits: int) -> Seq<char> {
    if digits == 0 {
        chrono_datetime_text(local)
    } else {
        chrono_datetime_text(local) + seq!['.'] + padded((local.nanos / 1000) as nat, 6).take(digits)
    }
}

/// `CONVERT_TZ` on datetime text: the wall time of `from` as the wall time
/// of `to`, keeping the input's fraction digits.
pub open spec fn convert_tz_text(text: Seq<char>, from: Seq<char>, to: Seq<char>) -> Option<Seq<char>> {
    let t = trimmed(text);
    match (datetime_or_date(t), zone_spec_of(from), zone_spec_of(to)) {
        (Some(naive), Some(source), Some(target)) => match to_utc(source, naive) {
            Some(utc) => match from_utc(target, utc) {
                Some(local) => if buildable(local) {
                    Some(rendered_with_fraction(local, fraction_digits(t)))
                } else {
                    None
                },
                None => None,
            },
            None => None,
        },
        _ => None,
    }
}

/// The last index of `c` in `s`.
pub(crate) fn rfind_char(s: &[char], c: char) -> (r: Option<usize>)
    ensures
        r matches Some(i) ==> last_index(s@, c) == Some(i as int) && i < s@.len(),
        r is None ==> last_index(s@, c) is None,
{
    let mut n: usize = s.len();
    while n > 0
        invariant
            n <= s@.len(),
            forall|j: int| n <= j < s@.len() ==> s@[j] != c,
        decreases n,
    {
        if s[n - 1] == c {
            let i = n - 1;
            proof {
                let w = choose|k: int| 0 <= k < s@.len() && s@[k] == c && forall|j: int| k < j < s@.len() ==> s@[j] != c;
                assert(0 <= i < s@.len() && s@[i as int] == c && forall|j: int| i < j < s@.len() ==> s@[j] != c);
                if w < i {
                    assert(s@[i as int] != c);
                } else if w > i {
                    assert(s@[w] != c);
                }
            }
            return Some(i);
        }
        n = n - 1;
    }
    None
}

/// The UTF-8 length of a text, capped at 6.
fn utf8_size_capped(s: &[char]) -> (r: usize)
    ensures
        r == (if utf8_size(s@) > 6 { 6 } else { utf8_size(s@) }),
{
    let mut total: usize = 0;
    let mut i: usize = 0;
    while i < s.len()
        invariant
            i <= s@.len(),
            total == (if utf8_size(s@.subrange(0, i as int)) > 6 { 6 } else { utf8_size(s@.subrange(0, i as int)) }),
        decreases s@.len() - i,
    {
        let v = s[i] as u32;
        let width: usize = if v < 0x80 { 1 } else if v < 0x800 { 2 } else if v < 0x10000 { 3 } else { 4 };
        proof {
            let t = s@.subrange(0, i + 1);
            assert(t.drop_last() =~= s@.subrange(0, i as int));
            lemma_utf8_size_nonneg(s@.subrange(0, i as int));
        }
        total = if total + width > 6 { 6 } else { total + width };
        i = i + 1;
    }
    assert(s@.subrange(0, s@.len() as int) =~= s@);
    total
}

proof fn lemma_utf8_size_nonneg(s: Seq<char>)
    ensures
        utf8_size(s) >= 0,
    decreases s.len(),
{
    if s.len() > 0 {
        lemma_utf8_size_nonneg(s.drop_last());
    }
}

/// A local wall time of a zone, as UTC.
fn zone_to_utc(zone: &ZoneSpec, local: DateTime) -> (r: Option<DateTime>)
    requires
        valid_datetime(local),
    ensures
        r == to_utc(zone.view(), local),
        r matches Some(u) ==> valid_datetime(u),
{
    match zone {
        ZoneSpec::Fixed(seconds) => shift_seconds(local, -(*seconds as i64)),
        ZoneSpec::Named(name) => match zone_offset_at_local(name.as_str(), local) {
            Some(offset) => shift_seconds(local, -(offset as i64)),
            None => None,
        },
    }
}

/// A UTC time as a zone's wall time.
fn zone_from_utc(zone: &ZoneSpec, utc: DateTime) -> (r: Option<DateTime>)
    requires
        valid_datetime(utc),
    ensures
        r == from_utc(zone.view(), utc),
        r matches Some(u) ==> valid_datetime(u),
{
    match zone {
        ZoneSpec::Fixed(seconds) => shift_seconds(utc, *seconds as i64),
        ZoneSpec::Named(name) => {
            if !(utc.nanos < 1_000_000_000 || utc.second == 59) {
                return None;
            }
            match zone_offset_at_utc(name.as_str(), utc) {
                Some(offset) => shift_seconds(utc, offset as i64),
                None => None,
            }
        },
    }
}

/// `CONVERT_TZ` on the canonical datetime text carrier. Ambiguous local
/// times (DST fall-back) take the earlier offset like `MySQL`; nonexistent
/// local times (spring-forward gap) give `None`.
pub fn convert_tz(text: &str, from: &str, to: &str) -> (r: Option<String>)
    ensures
        r matches Some(s) ==> convert_tz_text(text@, from@, to@) == Some(s@),
        r is None ==> convert_tz_text(text@, from@, to@) is None,
{
    let chars = chars_of(text);
    let t = trim(chars.as_slice());
    let trimmed_text = string_of(t.as_slice());
    let naive = match parse_datetime(trimmed_text.as_str(), "%Y-%m-%d %H:%M:%S%.f") {
        Some(v) => v,
        None => match parse_date(trimmed_text.as_str(), "%Y-%m-%d") {
            Some(d) => DateTime { date: d, hour: 0, minute: 0, second: 0, nanos: 0 },
            None => return None,
        },
    };
    let digits: usize = match rfind_char(t.as_slice(), '.') {
        None => 0,
        Some(i) => {
            assert(i < t@.len());
            assert(t@.len() == t.len());
            let tail = slice_chars(t.as_slice(), i + 1, t.len());
            assert(tail@ =~= t@.skip(i + 1));
            utf8_size_capped(tail.as_slice())
        },
    };
    let source = match timezone_spec(from) {
        Some(z) => z,
        None => return None,
    };
    let target = match timezone_spec(to) {
        Some(z) => z,
        None => return None,
    };
    let utc = match zone_to_utc(&source, naive) {
        Some(u) => u,
        None => return None,
    };
    let local = match zone_from_utc(&target, utc) {
        Some(l) => l,
        None => return None,
    };
    if !(local.nanos < 1_000_000_000 || local.second == 59) {
        return None;
    }
    let base = format_datetime(local, true);
    if digits == 0 {
        return Some(base);
    }
    let mut out = chars_of(base.as_str());
    out.push('.');
    let mut micros: Vec<char> = Vec::new();
    push_padded(&mut micros, (local.nanos / 1000) as u64, 6);
    proof {
        crate::chars::lemma_padded_len((local.nanos / 1000) as nat, 6);
    }
    let part = slice_chars(micros.as_slice(), 0, digits);
    push_all(&mut out, part.as_slice());
    assert(out@ =~= rendered_with_fraction(local, digits as int));
    Some(string_of(out.as_slice()))
}

} // verus!

verus! {

/// The chrono parse directive a `MySQL` format directive maps to.
pub open spec fn parse_directive(c: char) -> Option<Seq<char>> {
    if c == 'c' { Some("%-m"@) }
    else if c == 'e' { Some("%-d"@) }
    else if c == 'M' { Some("%B"@) }
    else if c == 'k' { Some("%-H"@) }
    else if c == 'l' { Some("%-I"@) }
    else if c == 'i' { Some("%M"@) }
    else if c == 's' { Some("%S"@) }
    else if c == 'f' { Some("%6f"@) }
    else if c == 'Y' { Some("%Y"@) }
    else if c == 'y' { Some("%y"@) }
    else if c == 'm' { Some("%m"@) }
    else if c == 'd' { Some("%d"@) }
    else if c == 'H' { Some("%H"@) }
    else if c == 'h' || c == 'I' { Some("%I"@) }
    else if c == 'p' { Some("%p"@) }
    else if c == 'b' { Some("%b"@) }
    else if c == 'W' { Some("%A"@) }
    else if c == 'a' { Some("%a"@) }
    else if c == 'j' { Some("%j"@) }
    else if c == 'r' { Some("%I:%M:%S %p"@) }
    else if c == 'T' { Some("%H:%M:%S"@) }
    else if c == '%' { Some("%%"@) }
    else { None }
}

/// A `MySQL` format translated for chrono's parser: `None` for an
/// unmapped directive or a trailing `%`.
pub open spec fn chrono_format(s: Seq<char>) -> Option<Seq<char>>
    decreases s.len(),
{
    if s.len() == 0 {
        Some(Seq::empty())
    } else if s[0] != '%' {
        match chrono_format(s.drop_first()) {
            Some(r) => Some(seq![s[0]] + r),
            None => None,
        }
    } else if s.len() == 1 {
        None
    } else {
        match parse_directive(s[1]) {
            None => None,
            Some(d) => match chrono_format(s.skip(2)) {
                Some(r) => Some(d + r),
                None => None,
            },
        }
    }
}

fn parse_directive_text(c: char) -> (r: Option<&'static str>)
    ensures
        r matches Some(t) ==> parse_directive(c) == Some(t@),
        r is None ==> parse_directive(c) is None,
{
    match c {
        'c' => Some("%-m"),
        'e' => Some("%-d"),
        'M' => Some("%B"),
        'k' => Some("%-H"),
        'l' => Some("%-I"),
        'i' => Some("%M"),
        's' => Some("%S"),
        'f' => Some("%6f"),
        'Y' => Some("%Y"),
        'y' => Some("%y"),
        'm' => Some("%m"),
        'd' => Some("%d"),
        'H' => Some("%H"),
        'h' | 'I' => Some("%I"),
        'p' => Some("%p"),
        'b' => Some("%b"),
        'W' => Some("%A"),
        'a' => Some("%a"),
        'j' => Some("%j"),
        'r' => Some("%I:%M:%S %p"),
        'T' => Some("%H:%M:%S"),
        '%' => Some("%%"),
        _ => None,
    }
}

/// Translates a `MySQL` format into a chrono parse format. Directives
/// outside the mapped set are refused rather than forwarded, since chrono
/// gives several of the same letters other meanings.
pub fn chrono_parse_format(value: &str) -> (r: Option<String>)
    ensures
        r matches Some(s) ==> chrono_format(value@) == Some(s@),
        r is None ==> chrono_format(value@) is None,
{
    let s = chars_of(value);
    let len = s.len();
    let mut out: Vec<char> = Vec::new();
    let mut i: usize = 0;
    assert(s@.skip(0) =~= s@);
    while i < len
        invariant
            len == s@.len(),
            s@ == value@,
            i <= len,
            chrono_format(s@) == (match chrono_format(s@.skip(i as int)) {
                Some(r) => Some(out@ + r),
                None => None,
            }),
        decreases len - i,
    {
        let c = s[i];
        let ghost rest = s@.skip(i as int);
        assert(rest[0] == c);
        if c != '%' {
            assert(rest.drop_first() =~= s@.skip(i + 1));
            proof {
                match chrono_format(s@.skip(i + 1)) {
                    Some(r) => assert(out@ + (seq![c] + r) =~= out@.push(c) + r),
                    None => {},
                }
            }
            out.push(c);
            i = i + 1;
        } else {
            if i + 1 == len {
                return None;
            }
            let d = s[i + 1];
            assert(rest[1] == d);
            let text = match parse_directive_text(d) {
                Some(t) => t,
                None => return None,
            };
            assert(rest.skip(2) =~= s@.skip(i + 2));
            let ghost before = out@;
            push_all(&mut out, chars_of(text).as_slice());
            proof {
                match chrono_format(s@.skip(i + 2)) {
                    Some(r) => assert(before + (text@ + r) =~= out@ + r),
                    None => {},
                }
            }
            i = i + 2;
        }
    }
    assert(s@.skip(len as int) =~= Seq::<char>::empty());
    assert(out@ + Seq::<char>::empty() =~= out@);
    Some(string_of(out.as_slice()))
}

} // verus!

verus! {

/// `WEEK(date)` is `WEEK(date, 0)`: the default mode's direct formula
/// agrees with `MySQL`'s general week computation on every date.
pub proof fn law_week_default_mode(d: CivilDate)
    requires
        valid_date(d),
    ensures
        week_mode0(d) == calc_week(d, 0).1,
{
    assert(week_flags(0) == 4) by (bit_vector);
    assert((4u32 & 1u32) == 0 && (4u32 & 2u32) == 0 && (4u32 & 4u32) != 0) by (bit_vector);
    let jan1 = january_first(d);
    let offset = weekday_from_sunday(jan1);
    lemma_same_year_days(d);
    lemma_ordinal_bounds(d);
    assert(0 <= offset < 7);
    let x = ordinal(d) - 1 + offset;
    let daynr = days_from_ce(d);
    let first = days_from_ce(jan1);
    assert(daynr - first == ordinal(d) - 1);
    let rolls = d.month == 1 && d.day <= 7 - offset;
    if rolls {
        assert(ordinal(d) == d.day) by {
            reveal_with_fuel(days_before_month, 2);
        }
        if offset != 0 {
            assert(x / 7 == 0);
            assert(calc_week(d, 0).1 == 0);
        } else {
            let len = year_length(d.year - 1);
            assert(len == 365 || len == 366);
            let weekday = (offset + 53 * 7 - len) % 7;
            assert(weekday == (if len == 365 { 6int } else { 5int }));
            assert((weekday + len) % 7 == 0);
            let days = daynr - ((first - len) + (7 - weekday));
            assert(days == ordinal(d) - 1 + len - 7 + weekday);
            assert(days >= 52 * 7);
            assert(calc_week(d, 0) == (d.year as int, 1int));
            assert(x / 7 == 0);
        }
    } else {
        if d.month > 1 {
            lemma_days_before_month_grows(d.year as int, d.month as int);
        }
        assert(x >= 7);
        if offset != 0 {
            let days = daynr - (first + (7 - offset));
            assert(days == x - 7);
            assert((x - 7) / 7 + 1 == x / 7);
            assert(calc_week(d, 0) == (d.year as int, days / 7 + 1));
        } else {
            let days = daynr - first;
            assert(calc_week(d, 0) == (d.year as int, days / 7 + 1));
        }
    }
}

} // verus!
