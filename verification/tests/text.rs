use pintail_exec::regex_text::{regex_match_options, RegexOptions};
use pintail_exec::decimal::ExecError;
use pintail_exec::like::like_matches;
use pintail_exec::regex_text::{
    needs_boundaries, normalize_end_spelling, normalize_mysql_regex_line_endings, single_line,
    unicode_posix_classes,
};
use pintail_exec::text::{
    conv_base, locate, make_time, mysql_pad, mysql_substring, repeat_capped, substring_index,
};

#[test]
fn conv_range_checks_bases_before_taking_magnitudes() {
    assert_eq!(conv_base("1", i64::MIN, 10), None);
    assert_eq!(conv_base("1", 10, i64::MIN), None);
    assert_eq!(conv_base("7", 1, 10), None);
    assert_eq!(conv_base("7", 10, 37), None);
}

#[test]
fn conv_reads_digits_and_saturates_overlong_sources() {
    assert_eq!(conv_base("ff", 16, 10).as_deref(), Some("255"));
    assert_eq!(conv_base("10000000000000000", 16, 10).as_deref(), Some("18446744073709551615"));
    assert_eq!(conv_base("zz", 36, 10).as_deref(), Some("1295"));
    assert_eq!(conv_base(" 12abc", 10, 2).as_deref(), Some("1100"));
    assert_eq!(conv_base("255", 10, 16).as_deref(), Some("FF"));
    assert_eq!(conv_base("", 10, 10).as_deref(), Some("0"));
}

#[test]
fn conv_wraps_a_minus_sign_and_signs_only_a_negative_target() {
    assert_eq!(conv_base("-1", 10, 10).as_deref(), Some("18446744073709551615"));
    assert_eq!(conv_base("-1", 10, -10).as_deref(), Some("-1"));
    assert_eq!(conv_base("+5", 10, -10).as_deref(), Some("5"));
}

#[test]
fn substring_counts_characters_from_either_end() {
    assert_eq!(mysql_substring("Quadratically", 5, 6), "ratica");
    assert_eq!(mysql_substring("Sakila", -3, 3), "ila");
    assert_eq!(mysql_substring("Sakila", 0, 3), "");
    assert_eq!(mysql_substring("Sakila", 2, 0), "");
    assert_eq!(mysql_substring("héllo", 2, 2), "él");
}

#[test]
fn substring_index_counts_delimiters_from_either_end() {
    assert_eq!(substring_index("www.mysql.com", ".", 2), "www.mysql");
    assert_eq!(substring_index("www.mysql.com", ".", -2), "mysql.com");
    assert_eq!(substring_index("www.mysql.com", ".", 0), "");
    assert_eq!(substring_index("www.mysql.com", ".", 5), "www.mysql.com");
}

#[test]
fn locate_answers_one_based_positions() {
    assert_eq!(locate("bar", "foobarbar", 1), 4);
    assert_eq!(locate("bar", "foobarbar", 5), 7);
    assert_eq!(locate("xbar", "foobar", 1), 0);
    assert_eq!(locate("bar", "foobar", 0), 0);
    assert_eq!(locate("bar", "foobar", 99), 0);
}

#[test]
fn make_time_clamps_hours_and_rejects_bad_fields() {
    assert_eq!(make_time(12, 15, 30).as_deref(), Some("12:15:30"));
    assert_eq!(make_time(-5, 1, 2).as_deref(), Some("-05:01:02"));
    assert_eq!(make_time(839, 0, 0).as_deref(), Some("838:59:59"));
    assert_eq!(make_time(1, 60, 0), None);
    assert_eq!(make_time(1, 0, -1), None);
}

#[test]
fn repeat_is_capped_in_bytes() {
    assert_eq!(repeat_capped("ab", 3), Ok("ababab".to_owned()));
    assert_eq!(repeat_capped("ab", 0), Ok(String::new()));
    assert_eq!(repeat_capped("", -5), Ok(String::new()));
    assert_eq!(repeat_capped("ab", -1), Err(ExecError::NumericOverflow));
    assert_eq!(repeat_capped("a", 4096).map(|s| s.len()), Ok(4096));
    assert_eq!(repeat_capped("a", 4097), Err(ExecError::NumericOverflow));
    assert_eq!(repeat_capped("\u{e9}", 2048).map(|s| s.len()), Ok(4096));
    assert_eq!(repeat_capped("\u{e9}", 2049), Err(ExecError::NumericOverflow));
}

#[test]
fn pad_cycles_the_pad_and_truncates_long_text() {
    assert_eq!(mysql_pad("hi", 5, "?", true), Ok(Some("???hi".to_owned())));
    assert_eq!(mysql_pad("hi", 5, "ab", false), Ok(Some("hiaba".to_owned())));
    assert_eq!(mysql_pad("hello", 3, "x", true), Ok(Some("hel".to_owned())));
    assert_eq!(mysql_pad("hi", 2, "", true), Ok(Some("hi".to_owned())));
    assert_eq!(mysql_pad("hi", -1, "x", true), Ok(None));
    assert_eq!(mysql_pad("hi", 5, "", true), Ok(None));
    assert_eq!(mysql_pad("hi", 4097, "x", true), Err(ExecError::NumericOverflow));
}

#[test]
fn like_wildcards_and_escapes() {
    // Text compares under the case- and accent-insensitive fold; `_`
    // consumes exactly one source character.
    assert!(like_matches("Chlo\u{e9}", "CHLO_", None, false));
    assert!(like_matches("stra\u{df}e", "stra_e", None, false));
    assert!(like_matches("CAF\u{c9}", "caf%", None, false));
    assert!(like_matches("caf\u{e9}", "cafe", None, false));
    assert!(!like_matches("cafe", "caff", None, false));
    // A binary operand compares characters exactly.
    assert!(!like_matches("Chlo\u{e9}", "CHLO_", None, true));
    assert!(like_matches("stra\u{df}e", "stra_e", None, true));
    assert!(!like_matches("caf\u{e9}", "cafe", None, true));
    assert!(like_matches("abc", "a%", None, true));
    assert!(like_matches("abc", "a_c", None, true));
    assert!(!like_matches("abc", "a_", None, true));
    assert!(like_matches("a%c", "a\\%c", Some('\\'), true));
    assert!(!like_matches("abc", "a\\%c", Some('\\'), true));
    assert!(!like_matches("a", "a\\", Some('\\'), true));
    assert!(like_matches("", "%", None, true));
    assert!(!like_matches("", "_", None, true));
    assert!(like_matches("mississippi", "%iss%ppi", None, true));
    assert!(!like_matches("abc", "%b", None, true));
    assert!(like_matches("aaab", "%a%b", None, true));
}

#[test]
fn posix_classes_become_unicode_properties() {
    assert_eq!(unicode_posix_classes("[[:alpha:]]"), "[\\p{Alphabetic}]");
    assert_eq!(unicode_posix_classes("[[:alnum:][:xdigit:]]"), "[\\p{Alphabetic}\\p{Nd}[:xdigit:]]");
    assert_eq!(unicode_posix_classes("[[:space:]][[:word:]]"), "[\\s][\\w]");
    assert_eq!(unicode_posix_classes("abc"), "abc");
}

#[test]
fn icu_line_endings_become_newlines() {
    assert_eq!(normalize_mysql_regex_line_endings("a\r\nb\rc\u{2028}d\u{85}e"), "a\nb\nc\nd\ne");
    assert_eq!(normalize_mysql_regex_line_endings("\r\r\n"), "\n\n");
}

#[test]
fn boundary_patterns_are_recognized() {
    assert!(needs_boundaries("a$", false));
    assert!(needs_boundaries("a\\Z", false));
    assert!(!needs_boundaries("^a", false));
    assert!(needs_boundaries("^a", true));
    assert!(needs_boundaries("(?i)^a", false));
    assert!(!needs_boundaries("abc", true));
    assert!(single_line("ab"));
    assert!(!single_line("a\nb"));
    assert!(!single_line("a\u{85}"));
    assert_eq!(normalize_end_spelling("a\\Z"), "a\\z");
    assert_eq!(normalize_end_spelling("\\\\Z"), "\\\\Z");
}

#[test]
fn regex_match_types_select_options_rightmost_case_flag_winning() {
    assert_eq!(
        regex_match_options("a.b", ""),
        Ok(RegexOptions { case_insensitive: true, multi_line: false, dot_matches_new_line: false })
    );
    assert_eq!(
        regex_match_options("a.b", "icmnu"),
        Ok(RegexOptions { case_insensitive: false, multi_line: true, dot_matches_new_line: true })
    );
    assert_eq!(
        regex_match_options("a.b", "ci"),
        Ok(RegexOptions { case_insensitive: true, multi_line: false, dot_matches_new_line: false })
    );
    assert_eq!(regex_match_options("a.b", "x"), Err(ExecError::InvalidExpressionType));
    assert_eq!(
        regex_match_options(&"a".repeat(65537), ""),
        Err(ExecError::InvalidExpressionType)
    );
}
