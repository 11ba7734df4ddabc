use pintail_exec::calendar::{CivilDate, DateTime};
use pintail_exec::temporal::{convert_tz, mysql_date_format};

#[test]
fn converts_time_zones_by_name_and_offset() {
    let convert = convert_tz;
    assert_eq!(
        convert("2026-03-08 06:30:00", "+00:00", "+05:30").as_deref(),
        Some("2026-03-08 12:00:00")
    );
    assert_eq!(
        convert("2026-01-15 12:00:00", "UTC", "Asia/Kolkata").as_deref(),
        Some("2026-01-15 17:30:00")
    );
    // Case-insensitive zone names, like MySQL.
    assert_eq!(
        convert("2026-01-15 12:00:00", "utc", "asia/kolkata").as_deref(),
        Some("2026-01-15 17:30:00")
    );
    // DST: July New York is UTC-4, January is UTC-5.
    assert_eq!(
        convert("2026-07-04 18:00:00", "America/New_York", "UTC").as_deref(),
        Some("2026-07-04 22:00:00")
    );
    assert_eq!(
        convert("2026-01-04 18:00:00", "America/New_York", "UTC").as_deref(),
        Some("2026-01-04 23:00:00")
    );
    // Fractional seconds keep the input's digit count.
    assert_eq!(
        convert("2026-06-15 10:00:00.250", "+00:00", "+02:00").as_deref(),
        Some("2026-06-15 12:00:00.250")
    );
    assert_eq!(convert("2026-06-15 10:00:00", "Bad/Zone", "UTC"), None);
    assert_eq!(convert("not a datetime", "+00:00", "+01:00"), None);
    assert_eq!(convert("2026-06-15 10:00:00", "+15:00", "+00:00"), None);
}

fn at(year: i32, month: u32, day: u32, hour: u32, minute: u32, second: u32) -> DateTime {
    DateTime {
        date: CivilDate { year, month, day },
        hour,
        minute,
        second,
        nanos: 0,
    }
}

#[test]
fn date_format_directives_mean_what_mysql_says() {
    let value = at(2024, 2, 29, 12, 34, 56);
    for (format, expected) in [
        ("%W", "Thursday"),
        ("%a", "Thu"),
        ("%D", "29th"),
        ("%w", "4"),
        ("%M", "February"),
        ("%b", "Feb"),
        ("%j", "060"),
        ("%U", "08"),
        ("%u", "09"),
        ("%V", "08"),
        ("%v", "09"),
        ("%X", "2024"),
        ("%x", "2024"),
        ("%Y", "2024"),
        ("%y", "24"),
        ("%T", "12:34:56"),
        ("%r", "12:34:56 PM"),
        ("%p", "PM"),
        ("%c", "2"),
        ("%e", "29"),
        ("%d", "29"),
        ("%m", "02"),
        ("%H", "12"),
        ("%k", "12"),
        ("%i", "34"),
        ("%s", "56"),
        ("%Y-%m-%d %H:%i:%s", "2024-02-29 12:34:56"),
    ] {
        assert_eq!(
            mysql_date_format(value, format),
            expected,
            "DATE_FORMAT(…, '{format}')"
        );
    }
}

#[test]
fn date_format_handles_the_clock_and_suffix_edges() {
    let midnight = at(2024, 1, 11, 0, 5, 0);
    assert_eq!(
        mysql_date_format(midnight, "%h %l %p %k %H"),
        "12 12 AM 0 00"
    );
    for (day, expected) in [
        (1, "1st"),
        (2, "2nd"),
        (3, "3rd"),
        (4, "4th"),
        (11, "11th"),
        (12, "12th"),
        (13, "13th"),
        (21, "21st"),
        (22, "22nd"),
        (23, "23rd"),
        (31, "31st"),
    ] {
        assert_eq!(mysql_date_format(at(2024, 1, day, 0, 0, 0), "%D"), expected);
    }
}

#[test]
fn date_format_copies_unknown_directives_like_mysql() {
    let value = at(2024, 2, 29, 1, 2, 3);
    assert_eq!(mysql_date_format(value, "%q"), "q");
    assert_eq!(mysql_date_format(value, "100%%"), "100%");
    assert_eq!(mysql_date_format(value, "a%"), "a%");
    assert_eq!(mysql_date_format(value, "no directives"), "no directives");
}

#[test]
fn date_format_week_year_rolls_back_across_january() {
    let value = at(2021, 1, 1, 0, 0, 0);
    assert_eq!(mysql_date_format(value, "%x-%v"), "2020-53");
    assert_eq!(mysql_date_format(value, "%u"), "00");
}
