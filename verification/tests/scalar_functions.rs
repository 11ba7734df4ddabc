use pintail_exec::compare::{DataType, Value};
use pintail_exec::decimal::ExecError;
use pintail_exec::memory_bounds::ScalarFunction;
use pintail_exec::scalar_eval::{evaluate_scalar, fraction_digits, make_time_text_with_fraction, sec_to_time_text};

fn utf8(s: &str) -> Value {
    Value::Utf8(s.as_bytes().to_vec())
}

fn call(function: ScalarFunction, args: Vec<Value>) -> Value {
    evaluate_scalar(function, &args, &Vec::new()).expect("evaluated here").expect("evaluates")
}

#[test]
fn repaired_text_divergences_match_mysql() {
    // TRIM removes the space character only, not the tab.
    assert_eq!(call(ScalarFunction::Trim, vec![utf8("\t")]), utf8("\t"));
    assert_eq!(call(ScalarFunction::Trim, vec![utf8("  a  ")]), utf8("a"));
    assert_eq!(call(ScalarFunction::Trim, vec![utf8("\ta ")]), utf8("\ta"));
    // TO_BASE64 wraps every 76 characters: 58 bytes -> 81 characters.
    let Value::Utf8(encoded) = call(ScalarFunction::ToBase64, vec![utf8(&"a".repeat(58))]) else {
        panic!("expected text");
    };
    assert_eq!(String::from_utf8(encoded.clone()).unwrap().chars().count(), 81);
    assert!(encoded.contains(&b'\n'));
    // A binary operand is compared byte-exact: LOWER/UPPER leave it alone
    // and INSTR/LOCATE stop folding case.
    assert_eq!(call(ScalarFunction::Lower, vec![Value::Binary(b"ABC".to_vec())]), Value::Binary(b"ABC".to_vec()));
    assert_eq!(call(ScalarFunction::Upper, vec![Value::Binary(b"abc".to_vec())]), Value::Binary(b"abc".to_vec()));
    assert_eq!(call(ScalarFunction::Instr, vec![Value::Binary(b"A".to_vec()), utf8("a")]), Value::UInt64(0));
    assert_eq!(call(ScalarFunction::Locate, vec![utf8("a"), Value::Binary(b"A".to_vec())]), Value::UInt64(0));
    // Text operands keep the case-insensitive default.
    assert_eq!(call(ScalarFunction::Instr, vec![utf8("A"), utf8("a")]), Value::UInt64(1));
    assert_eq!(call(ScalarFunction::Instr, vec![utf8("CAFÉ"), utf8("cafe")]), Value::UInt64(1));
    let like = ScalarFunction::Like { negated: false, escape: None };
    assert_eq!(call(like, vec![utf8("Chloé"), utf8("CHLO_")]), Value::Boolean(true));
    // LIKE's underscore consumes one source character before collation
    // expansion.
    assert_eq!(call(like, vec![utf8("straße"), utf8("stra_e")]), Value::Boolean(true));
}

#[test]
fn a_null_argument_answers_null() {
    assert_eq!(call(ScalarFunction::Trim, vec![Value::Null]), Value::Null);
    assert_eq!(call(ScalarFunction::Substring, vec![utf8("abc"), Value::Null]), Value::Null);
    assert_eq!(call(ScalarFunction::Like { negated: true, escape: None }, vec![Value::Null, utf8("%")]), Value::Null);
}

#[test]
fn length_counts_bytes_and_char_length_characters() {
    assert_eq!(call(ScalarFunction::Length, vec![utf8("é")]), Value::UInt64(2));
    assert_eq!(call(ScalarFunction::CharLength, vec![utf8("é")]), Value::UInt64(1));
    assert_eq!(call(ScalarFunction::Length, vec![Value::Int64(-120)]), Value::UInt64(4));
    assert_eq!(call(ScalarFunction::CharLength, vec![Value::Int64(i64::MIN)]), Value::UInt64(20));
}

#[test]
fn substring_left_right_and_reverse_count_characters() {
    assert_eq!(call(ScalarFunction::Substring, vec![utf8("Quadratically"), Value::Int64(5), Value::Int64(6)]), utf8("ratica"));
    assert_eq!(call(ScalarFunction::Substring, vec![utf8("Sakila"), Value::Int64(-3)]), utf8("ila"));
    assert_eq!(call(ScalarFunction::Left, vec![utf8("héllo"), Value::Int64(2)]), utf8("hé"));
    assert_eq!(call(ScalarFunction::Right, vec![utf8("héllo"), Value::Int64(3)]), utf8("llo"));
    assert_eq!(call(ScalarFunction::Left, vec![utf8("abc"), Value::Int64(-1)]), utf8(""));
    assert_eq!(call(ScalarFunction::Right, vec![utf8("abc"), Value::Int64(10)]), utf8("abc"));
    assert_eq!(call(ScalarFunction::Reverse, vec![utf8("abé")]), utf8("éba"));
}

#[test]
fn not_like_negates_and_escape_is_literal() {
    assert_eq!(call(ScalarFunction::Like { negated: true, escape: None }, vec![utf8("abc"), utf8("a%")]), Value::Boolean(false));
    assert_eq!(call(ScalarFunction::Like { negated: false, escape: Some('\\') }, vec![utf8("a%"), utf8("a\\%")]), Value::Boolean(true));
    assert_eq!(call(ScalarFunction::Like { negated: false, escape: Some('\\') }, vec![utf8("ab"), utf8("a\\%")]), Value::Boolean(false));
    // A binary operand compares exactly.
    assert_eq!(call(ScalarFunction::Like { negated: false, escape: None }, vec![Value::Binary(b"ABC".to_vec()), utf8("abc")]), Value::Boolean(false));
}

#[test]
fn conv_substring_index_md5_and_locate_start() {
    assert_eq!(call(ScalarFunction::Conv, vec![utf8("ff"), Value::Int64(16), Value::Int64(10)]), utf8("255"));
    assert_eq!(call(ScalarFunction::Conv, vec![utf8("1"), Value::Int64(1), Value::Int64(10)]), Value::Null);
    assert_eq!(call(ScalarFunction::SubstringIndex, vec![utf8("www.mysql.com"), utf8("."), Value::Int64(2)]), utf8("www.mysql"));
    assert_eq!(call(ScalarFunction::Md5, vec![utf8("")]), utf8("d41d8cd98f00b204e9800998ecf8427e"));
    assert_eq!(call(ScalarFunction::Md5, vec![Value::Binary(b"abc".to_vec())]), utf8("900150983cd24fb0d6963f7d28e17f72"));
    assert_eq!(call(ScalarFunction::Locate, vec![utf8("bar"), utf8("foobarbar"), Value::Int64(5)]), Value::UInt64(7));
    assert_eq!(call(ScalarFunction::Lower, vec![utf8("ÀBC")]), utf8("àbc"));
    assert_eq!(call(ScalarFunction::Upper, vec![utf8("straße")]), utf8("STRASSE"));
}

#[test]
fn invalid_utf8_is_an_error_and_other_functions_are_left_elsewhere() {
    assert_eq!(evaluate_scalar(ScalarFunction::Trim, &vec![Value::Utf8(vec![0xff])], &Vec::new()), Some(Err(ExecError::InvalidUtf8Number)));
    assert_eq!(evaluate_scalar(ScalarFunction::Sqrt, &vec![Value::Int64(4)], &Vec::new()), None);
    // A count spelled as text is parsed at execution.
    assert_eq!(evaluate_scalar(ScalarFunction::Left, &vec![utf8("abc"), utf8("2")], &Vec::new()), None);
}

#[test]
fn concat_repeat_space_and_pad() {
    assert_eq!(call(ScalarFunction::Concat, vec![utf8("a"), Value::Int64(-1), Value::Boolean(true)]), utf8("a-11"));
    assert_eq!(call(ScalarFunction::Concat, vec![utf8("a"), Value::Null]), Value::Null);
    assert_eq!(call(ScalarFunction::Repeat, vec![utf8("ab"), Value::Int64(3)]), utf8("ababab"));
    assert_eq!(call(ScalarFunction::Repeat, vec![utf8("ab"), Value::Int64(-2)]), utf8(""));
    assert_eq!(evaluate_scalar(ScalarFunction::Repeat, &vec![utf8("ab"), Value::Int64(5000)], &Vec::new()), Some(Err(ExecError::NumericOverflow)));
    assert_eq!(call(ScalarFunction::Space, vec![Value::Int64(3)]), utf8("   "));
    assert_eq!(call(ScalarFunction::Lpad, vec![utf8("hi"), Value::Int64(4), utf8("?")]), utf8("??hi"));
    assert_eq!(call(ScalarFunction::Rpad, vec![utf8("hi"), Value::Int64(5), utf8("ab")]), utf8("hiaba"));
    assert_eq!(call(ScalarFunction::Lpad, vec![utf8("hi"), Value::Int64(1), utf8("?")]), utf8("h"));
    assert_eq!(call(ScalarFunction::Lpad, vec![utf8("hi"), Value::Int64(-1), utf8("?")]), Value::Null);
}

#[test]
fn make_time_and_sec_to_time_of_whole_seconds() {
    assert_eq!(call(ScalarFunction::MakeTime, vec![Value::Int64(12), Value::Int64(15), Value::Int64(30)]), utf8("12:15:30"));
    assert_eq!(call(ScalarFunction::MakeTime, vec![Value::Int64(12), Value::Int64(60), Value::Int64(30)]), Value::Null);
    assert_eq!(call(ScalarFunction::SecToTime, vec![Value::Int64(1)]), utf8("00:00:01"));
    assert_eq!(call(ScalarFunction::SecToTime, vec![Value::Int64(-3661)]), utf8("-01:01:01"));
    assert_eq!(call(ScalarFunction::SecToTime, vec![Value::Int64(4_000_000)]), utf8("838:59:59"));
    // A fractional second arrives as text or a double, read elsewhere.
    assert_eq!(evaluate_scalar(ScalarFunction::SecToTime, &vec![utf8("1.5")], &Vec::new()), None);
}

#[test]
fn json_constructors_emit_decimals_as_scaled_numbers() {
    // JSON_OBJECT('d', CAST('10.50' AS DECIMAL(12,2))) is {"d": 10.50}: a
    // number keeping its scale.
    let object = evaluate_scalar(
        ScalarFunction::JsonObject,
        &vec![utf8("d"), utf8("10.50")],
        &vec![Some(DataType::Utf8), Some(DataType::Decimal { precision: 12, scale: 2 })],
    )
    .expect("evaluated here")
    .expect("JSON_OBJECT evaluates");
    assert_eq!(object, utf8(r#"{"d": 10.50}"#));
    // Equal-looking VARCHAR must still quote, or JSON identity is lost.
    let text = evaluate_scalar(
        ScalarFunction::JsonObject,
        &vec![utf8("d"), utf8("10.50")],
        &vec![Some(DataType::Utf8), Some(DataType::Utf8)],
    )
    .expect("evaluated here")
    .expect("JSON_OBJECT evaluates");
    assert_eq!(text, utf8(r#"{"d": "10.50"}"#));
}

#[test]
fn md5_through_the_dispatcher_matches_known_vectors() {
    assert_eq!(call(ScalarFunction::Md5, vec![utf8("")]), utf8("d41d8cd98f00b204e9800998ecf8427e"));
    assert_eq!(call(ScalarFunction::Md5, vec![utf8("abc")]), utf8("900150983cd24fb0d6963f7d28e17f72"));
    assert_eq!(call(ScalarFunction::Md5, vec![Value::Null]), Value::Null);
}

#[test]
fn json_constructors_write_null_as_json_null_and_keep_the_last_duplicate() {
    assert_eq!(
        call(ScalarFunction::JsonArray, vec![Value::Int64(1), utf8("a"), Value::Null, Value::Boolean(true)]),
        utf8(r#"[1, "a", null, 1]"#)
    );
    assert_eq!(call(ScalarFunction::JsonArray, vec![]), utf8("[]"));
    assert_eq!(
        call(ScalarFunction::JsonObject, vec![utf8("bb"), Value::Int64(1), utf8("a"), Value::Null, utf8("bb"), Value::Int64(2)]),
        utf8(r#"{"a": null, "bb": 2}"#)
    );
    assert_eq!(
        evaluate_scalar(ScalarFunction::JsonObject, &vec![Value::Null, Value::Int64(1)], &Vec::new()),
        Some(Err(ExecError::InvalidExpressionType))
    );
    // A JSON-typed argument is parsed elsewhere.
    assert_eq!(
        evaluate_scalar(ScalarFunction::JsonArray, &vec![utf8("[1]")], &vec![Some(DataType::Json)]),
        None
    );
}

#[test]
fn hex_unhex_base64_and_ascii() {
    assert_eq!(call(ScalarFunction::Hex, vec![Value::Int64(255)]), utf8("FF"));
    assert_eq!(call(ScalarFunction::Hex, vec![Value::Int64(-1)]), utf8("FFFFFFFFFFFFFFFF"));
    assert_eq!(call(ScalarFunction::Hex, vec![Value::UInt64(0)]), utf8("0"));
    assert_eq!(call(ScalarFunction::Hex, vec![utf8("abc")]), utf8("616263"));
    assert_eq!(call(ScalarFunction::Hex, vec![Value::Binary(vec![0, 15])]), utf8("000F"));
    assert_eq!(call(ScalarFunction::Unhex, vec![utf8("4D7953514C")]), Value::Binary(b"MySQL".to_vec()));
    assert_eq!(call(ScalarFunction::Unhex, vec![utf8("GG")]), Value::Null);
    assert_eq!(call(ScalarFunction::FromBase64, vec![utf8("YWJj")]), Value::Binary(b"abc".to_vec()));
    assert_eq!(call(ScalarFunction::Ascii, vec![utf8("2")]), Value::UInt64(50));
    assert_eq!(call(ScalarFunction::Ascii, vec![utf8("")]), Value::UInt64(0));
}

#[test]
fn sec_to_time_and_make_time_keep_the_fraction_their_argument_carried() {
    assert_eq!(fraction_digits("1.5"), Some("5".to_owned()));
    assert_eq!(fraction_digits("30.500"), Some("5".to_owned()));
    assert_eq!(fraction_digits("2.00"), None);
    assert_eq!(fraction_digits("7"), None);
    assert_eq!(sec_to_time_text(1, fraction_digits("1.5")), "00:00:01.5");
    assert_eq!(sec_to_time_text(1, fraction_digits("1")), "00:00:01");
    assert_eq!(make_time_text_with_fraction(12, 15, 30, fraction_digits("30.5")), Some("12:15:30.5".to_owned()));
    assert_eq!(make_time_text_with_fraction(12, 61, 30, fraction_digits("30.5")), None);
}
