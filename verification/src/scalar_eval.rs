//! Row-at-a-time evaluation of the text functions: the NULL rule that
//! most functions share, the text a value reads as, and each function
//! over it. Functions whose values are floating point, parsed JSON
//! documents, regular expressions, clock readings or text compared under a
//! collation are evaluated elsewhere, and so is a number spelled as text,
//! which is read as a double; for those this answers `None`.
use crate::arithmetic::{mysql_i64, signed_of};
use crate::chars::{chars_of, decimal, padded, push_decimal, push_padded, push_signed_decimal, signed_decimal, string_of};
use crate::compare::{DataType, IntegerValue, Value};
use crate::constant_fold::integer_of;
use crate::decimal::ExecError;
use crate::digest::{lower_hex_text, md5_digest_of, md5_hex};
use crate::encoding::{
    base64_bytes, base64_decode, base64_text, hex_digit, hex_text, hex_upper, to_base64, unhex, unhex_bytes, wrapped76,
};
use crate::fold::{folded_text, locate_folded};
use crate::json_text::{
    constructed_entries, entry_texts, joined, json_quoted, mysql_json_array_text, mysql_json_object_text, scalar_text,
    scalar_texts, sort_entries, JsonDoc, JsonScalar,
};
use crate::like::{like_matches, like_text};
use crate::memory_bounds::ScalarFunction;
use crate::text::{
    conv_base, conv_text, locate_position, make_time, make_time_text, mysql_pad, mysql_substring, padded_text,
    repeat_capped, repeat_fits, repeated, substring_chars, substring_index, substring_index_chars,
};
use vstd::prelude::*;
use vstd::utf8::{decode_utf8, encode_utf8, valid_utf8};

verus! {

/// The characters of a UTF-8 byte string (`std::str::from_utf8`): `None`
/// exactly where the bytes are no valid UTF-8.
#[verifier::external_body]
fn utf8_text(bytes: &[u8]) -> (r: Option<String>)
    ensures
        r matches Some(s) ==> valid_utf8(bytes@) && s@ == decode_utf8(bytes@),
        r is None ==> !valid_utf8(bytes@),
{
    std::str::from_utf8(bytes).ok().map(str::to_owned)
}

/// The UTF-8 bytes of a string (`String::into_bytes`).
#[verifier::external_body]
fn utf8_bytes(text: String) -> (r: Vec<u8>)
    ensures
        r@ == encode_utf8(text@),
{
    text.into_bytes()
}

/// What std's `str::to_lowercase` makes of a text.
pub uninterp spec fn lowercase_of(text: Seq<char>) -> Seq<char>;

/// What std's `str::to_uppercase` makes of a text.
pub uninterp spec fn uppercase_of(text: Seq<char>) -> Seq<char>;

/// std's `str::to_lowercase`: the Unicode lower-case mapping of a text,
/// which depends on the text alone.
#[verifier::external_body]
fn to_lower(text: &str) -> (r: String)
    ensures
        r@ == lowercase_of(text@),
{
    text.to_lowercase()
}

/// std's `str::to_uppercase`: the Unicode upper-case mapping of a text.
#[verifier::external_body]
fn to_upper(text: &str) -> (r: String)
    ensures
        r@ == uppercase_of(text@),
{
    text.to_uppercase()
}

/// The text a value reads as: NULL as empty, a truth value as `1` or `0`,
/// an integer as its decimal digits, text and bytes as the characters
/// they encode, an error where they encode none.
pub open spec fn text_of(v: Value) -> Result<Seq<char>, ExecError> {
    match v {
        Value::Null => Ok(Seq::empty()),
        Value::Boolean(b) => Ok(if b { seq!['1'] } else { seq!['0'] }),
        Value::Int64(x) => Ok(signed_decimal(x as int)),
        Value::UInt64(x) => Ok(decimal(x as nat)),
        Value::Utf8(bytes) | Value::Binary(bytes) => if valid_utf8(bytes@) {
            Ok(decode_utf8(bytes@))
        } else {
            Err(ExecError::InvalidUtf8Number)
        },
    }
}

/// Whether a value is a text result holding `t`.
pub open spec fn is_text(r: Value, t: Seq<char>) -> bool {
    r matches Value::Utf8(b) && b@ == encode_utf8(t)
}

/// Whether any argument is NULL.
pub open spec fn has_null(vs: Seq<Value>) -> bool {
    exists|i: int| 0 <= i < vs.len() && vs[i] is Null
}

/// The functions that read a NULL argument as data rather than answering
/// NULL: CONCAT_WS skips it, ELT and FIELD read it by position, CHAR drops
/// it, the JSON constructors write JSON null, and IN and NULLIF compare it.
pub open spec fn null_is_data(f: ScalarFunction) -> bool {
    match f {
        ScalarFunction::InList | ScalarFunction::NullIf | ScalarFunction::ConcatWs | ScalarFunction::Elt
        | ScalarFunction::Field | ScalarFunction::Char | ScalarFunction::JsonObject
        | ScalarFunction::JsonArray => true,
        _ => false,
    }
}

/// The functions this module evaluates.
pub open spec fn evaluated_here(f: ScalarFunction) -> bool {
    match f {
        ScalarFunction::Substring | ScalarFunction::Lower | ScalarFunction::Upper | ScalarFunction::Trim
        | ScalarFunction::Length | ScalarFunction::CharLength | ScalarFunction::Locate | ScalarFunction::Instr
        | ScalarFunction::Like { .. } | ScalarFunction::SubstringIndex | ScalarFunction::Conv
        | ScalarFunction::Md5 | ScalarFunction::ToBase64 | ScalarFunction::Reverse | ScalarFunction::Left
        | ScalarFunction::Right | ScalarFunction::Concat | ScalarFunction::Repeat | ScalarFunction::Space
        | ScalarFunction::Lpad | ScalarFunction::Rpad | ScalarFunction::MakeTime | ScalarFunction::SecToTime
        | ScalarFunction::JsonArray | ScalarFunction::JsonObject | ScalarFunction::Hex | ScalarFunction::Unhex
        | ScalarFunction::FromBase64 | ScalarFunction::Ascii => true,
        _ => false,
    }
}

/// The upper-case hexadecimal digits of `n`, without leading zeros ("0"
/// for zero), as Rust's `{:X}` writes them.
pub open spec fn upper_hex_digits(n: nat) -> Seq<char>
    decreases n,
{
    if n < 16 {
        seq![hex_digit(n as int)]
    } else {
        upper_hex_digits(n / 16).push(hex_digit((n % 16) as int))
    }
}

/// The declared type of argument `i`, if one was declared.
pub open spec fn type_at(ts: Seq<Option<DataType>>, i: int) -> Option<DataType> {
    if 0 <= i < ts.len() {
        ts[i]
    } else {
        None
    }
}

/// How a JSON constructor prints one argument, by its declared type:
/// NULL as JSON null; DECIMAL text as a number keeping its scale; a truth
/// value and an integer as numbers; text as a JSON string. A JSON-typed
/// argument is parsed, and bytes that are no UTF-8 are read lossily,
/// elsewhere (`None`).
pub open spec fn json_arg_text(v: Value, dt: Option<DataType>) -> Option<Result<Seq<char>, ExecError>> {
    if v is Null {
        Some(Ok(seq!['n', 'u', 'l', 'l']))
    } else if dt == Some(DataType::Json) {
        None
    } else {
        match v {
            Value::Utf8(b) => if !valid_utf8(b@) {
                Some(Err(ExecError::InvalidUtf8Number))
            } else if dt matches Some(DataType::Decimal { .. }) {
                Some(Ok(decode_utf8(b@)))
            } else {
                Some(Ok(json_quoted(decode_utf8(b@))))
            },
            Value::Binary(b) => if valid_utf8(b@) {
                Some(Ok(json_quoted(decode_utf8(b@))))
            } else {
                None
            },
            Value::Boolean(x) => Some(Ok(if x { seq!['1'] } else { seq!['0'] })),
            Value::Int64(x) => Some(Ok(signed_decimal(x as int))),
            Value::UInt64(x) => Some(Ok(decimal(x as nat))),
            Value::Null => Some(Ok(seq!['n', 'u', 'l', 'l'])),
        }
    }
}

/// The printed arguments of `JSON_ARRAY`, in order; the first that fails
/// or is printed elsewhere decides.
pub open spec fn json_arg_texts(vs: Seq<Value>, ts: Seq<Option<DataType>>) -> Option<Result<Seq<Seq<char>>, ExecError>>
    decreases vs.len(),
{
    if vs.len() == 0 {
        Some(Ok(Seq::empty()))
    } else {
        match json_arg_texts(vs.drop_last(), ts) {
            Some(Ok(prefix)) => match json_arg_text(vs.last(), type_at(ts, vs.len() - 1)) {
                Some(Ok(t)) => Some(Ok(prefix.push(t))),
                Some(Err(e)) => Some(Err(e)),
                None => None,
            },
            other => other,
        }
    }
}

/// The index of the first member with key `k`, or -1.
pub open spec fn key_index(ms: Seq<(Seq<char>, Seq<char>)>, k: Seq<char>) -> int
    decreases ms.len(),
{
    if ms.len() == 0 {
        -1
    } else if key_index(ms.drop_last(), k) >= 0 {
        key_index(ms.drop_last(), k)
    } else if ms.last().0 == k {
        ms.len() - 1
    } else {
        -1
    }
}

/// A member added to an object: a repeated key keeps its first place and
/// takes the later value.
pub open spec fn upsert(ms: Seq<(Seq<char>, Seq<char>)>, p: (Seq<char>, Seq<char>)) -> Seq<(Seq<char>, Seq<char>)> {
    if key_index(ms, p.0) >= 0 {
        ms.update(key_index(ms, p.0), p)
    } else {
        ms.push(p)
    }
}

/// The members of `JSON_OBJECT(k1, v1, ...)` as key and printed value:
/// a NULL key is refused, a repeated key keeps the last value.
pub open spec fn json_members(vs: Seq<Value>, ts: Seq<Option<DataType>>, pairs: nat) -> Option<
    Result<Seq<(Seq<char>, Seq<char>)>, ExecError>,
>
    decreases pairs,
{
    if pairs == 0 {
        Some(Ok(Seq::empty()))
    } else {
        let i = 2 * (pairs - 1);
        match json_members(vs, ts, (pairs - 1) as nat) {
            Some(Ok(ms)) => if vs[i] is Null {
                Some(Err(ExecError::InvalidExpressionType))
            } else {
                match text_of(vs[i]) {
                    Err(e) => Some(Err(e)),
                    Ok(k) => match json_arg_text(vs[i + 1], type_at(ts, i + 1)) {
                        Some(Ok(t)) => Some(Ok(upsert(ms, (k, t)))),
                        Some(Err(e)) => Some(Err(e)),
                        None => None,
                    },
                }
            },
            other => other,
        }
    }
}

/// `JSON_OBJECT`'s text over its members: keys ordered by length, then
/// bytes.
pub open spec fn object_text(ms: Seq<(Seq<char>, Seq<char>)>) -> Seq<char> {
    seq!['{'] + joined(
        entry_texts(
            sort_entries(
                Seq::new(
                    ms.len(),
                    |i: int| (encode_utf8(ms[i].0), json_quoted(ms[i].0) + seq![':', ' '] + ms[i].1),
                ),
            ),
        ),
    ) + seq!['}']
}

/// The texts of a list of values, joined; the first error reading one.
pub open spec fn concat_text(vs: Seq<Value>) -> Result<Seq<char>, ExecError>
    decreases vs.len(),
{
    if vs.len() == 0 {
        Ok(Seq::empty())
    } else {
        match concat_text(vs.drop_last()) {
            Err(e) => Err(e),
            Ok(t) => match text_of(vs.last()) {
                Err(e) => Err(e),
                Ok(u) => Ok(t + u),
            },
        }
    }
}

/// `SEC_TO_TIME` of a whole number of seconds, clamped to TIME's range
/// of -838:59:59..=838:59:59.
pub open spec fn seconds_time_text(seconds: int) -> Seq<char> {
    let clamped = if seconds < -3020399 { -3020399 } else if seconds > 3020399 { 3020399 } else { seconds };
    let m = if clamped < 0 { -clamped } else { clamped };
    (if clamped < 0 { seq!['-'] } else { Seq::empty() }) + padded((m / 3600) as nat, 2) + seq![':'] + padded(
        (m / 60 % 60) as nat,
        2,
    ) + seq![':'] + padded((m % 60) as nat, 2)
}

/// A text repeated `count` times, empty for a count that is not positive,
/// refused beyond the build cap.
pub open spec fn repeat_result(t: Seq<char>, count: int) -> Result<Seq<char>, ExecError> {
    if count <= 0 {
        Ok(Seq::empty())
    } else if repeat_fits(encode_utf8(t).len() as int, count) {
        Ok(repeated(t, count as nat))
    } else {
        Err(ExecError::NumericOverflow)
    }
}

/// A text with the space character (only) removed from both ends.
pub open spec fn space_trimmed(t: Seq<char>) -> Seq<char>
    decreases t.len(),
{
    if t.len() > 0 && t[0] == ' ' {
        space_trimmed(t.drop_first())
    } else if t.len() > 0 && t.last() == ' ' {
        space_trimmed(t.drop_last())
    } else {
        t
    }
}

/// Whether either of the first two arguments is a byte string, which
/// makes a comparison exact: there is no collation to fold under.
pub open spec fn binary_operand(vs: Seq<Value>) -> bool {
    (vs.len() > 0 && vs[0] is Binary) || (vs.len() > 1 && vs[1] is Binary)
}

/// The integer an argument reads as, where it is of the integer family;
/// `None` for text, whose number is parsed at execution.
pub open spec fn integer_arg(v: Value) -> Option<Result<int, ExecError>> {
    match integer_of(v) {
        Some(i) => Some(signed_of(i)),
        None => None,
    }
}

/// Whether an argument count suits a function this module evaluates.
pub open spec fn arity_ok(f: ScalarFunction, n: nat) -> bool {
    match f {
        ScalarFunction::Substring | ScalarFunction::Locate => 2 <= n <= 3,
        ScalarFunction::Lower | ScalarFunction::Upper | ScalarFunction::Trim | ScalarFunction::Length
        | ScalarFunction::CharLength | ScalarFunction::Md5 | ScalarFunction::ToBase64
        | ScalarFunction::Reverse => n == 1,
        ScalarFunction::Instr | ScalarFunction::Like { .. } | ScalarFunction::Left
        | ScalarFunction::Right => n == 2,
        ScalarFunction::SubstringIndex | ScalarFunction::Conv | ScalarFunction::Lpad | ScalarFunction::Rpad
        | ScalarFunction::MakeTime => n == 3,
        ScalarFunction::Repeat => n == 2,
        ScalarFunction::Space | ScalarFunction::SecToTime | ScalarFunction::Hex | ScalarFunction::Unhex
        | ScalarFunction::FromBase64 | ScalarFunction::Ascii => n == 1,
        ScalarFunction::JsonObject => n % 2 == 0,
        _ => true,
    }
}

/// Whether `r` answers a text `t`, or the error reading it gave.
pub open spec fn text_answer(t: Result<Seq<char>, ExecError>, r: Option<Result<Value, ExecError>>) -> bool {
    match t {
        Ok(t) => r matches Some(Ok(v)) && is_text(v, t),
        Err(e) => r == Some(Err::<Value, ExecError>(e)),
    }
}

/// The count `LEFT` and `RIGHT` keep of a text of `len` characters.
pub open spec fn kept_count(n: int, len: nat) -> int {
    if n < 0 {
        0
    } else if n > len {
        len as int
    } else {
        n
    }
}

/// What a function this module evaluates answers for its arguments,
/// `None` where an integer argument is text (its number is parsed at
/// execution) or the function is evaluated elsewhere.
pub open spec fn scalar_result(
    f: ScalarFunction,
    vs: Seq<Value>,
    ts: Seq<Option<DataType>>,
    r: Option<Result<Value, ExecError>>,
) -> bool {
    if !evaluated_here(f) {
        r is None
    } else if has_null(vs) && !null_is_data(f) {
        r == Some(Ok::<Value, ExecError>(Value::Null))
    } else {
        match f {
            ScalarFunction::Lower | ScalarFunction::Upper => match vs[0] {
                Value::Binary(b) => r matches Some(Ok(Value::Binary(c))) && c@ == b@,
                _ => match text_of(vs[0]) {
                    Ok(t) => text_answer(Ok(if f is Lower { lowercase_of(t) } else { uppercase_of(t) }), r),
                    Err(e) => r == Some(Err::<Value, ExecError>(e)),
                },
            },
            ScalarFunction::Trim => match text_of(vs[0]) {
                Ok(t) => text_answer(Ok(space_trimmed(t)), r),
                Err(e) => r == Some(Err::<Value, ExecError>(e)),
            },
            ScalarFunction::Reverse => match text_of(vs[0]) {
                Ok(t) => text_answer(Ok(t.reverse()), r),
                Err(e) => r == Some(Err::<Value, ExecError>(e)),
            },
            ScalarFunction::Length => match text_of(vs[0]) {
                Ok(t) => r == Some(Ok::<Value, ExecError>(Value::UInt64(encode_utf8(t).len() as u64))),
                Err(e) => r == Some(Err::<Value, ExecError>(e)),
            },
            ScalarFunction::CharLength => match text_of(vs[0]) {
                Ok(t) => r == Some(Ok::<Value, ExecError>(Value::UInt64(t.len() as u64))),
                Err(e) => r == Some(Err::<Value, ExecError>(e)),
            },
            ScalarFunction::Md5 => match vs[0] {
                Value::Binary(b) => text_answer(Ok(lower_hex_text(md5_digest_of(b@))), r),
                _ => match text_of(vs[0]) {
                    Ok(t) => text_answer(Ok(lower_hex_text(md5_digest_of(encode_utf8(t)))), r),
                    Err(e) => r == Some(Err::<Value, ExecError>(e)),
                },
            },
            ScalarFunction::ToBase64 => match text_of(vs[0]) {
                Ok(t) => text_answer(Ok(wrapped76(base64_text(encode_utf8(t)))), r),
                Err(e) => r == Some(Err::<Value, ExecError>(e)),
            },
            ScalarFunction::Like { negated, escape } => match (text_of(vs[0]), text_of(vs[1])) {
                (Err(e), _) => r == Some(Err::<Value, ExecError>(e)),
                (Ok(_), Err(e)) => r == Some(Err::<Value, ExecError>(e)),
                (Ok(v), Ok(p)) => r == Some(Ok::<Value, ExecError>(Value::Boolean(
                    like_text(v, p, escape, binary_operand(vs)) != negated,
                ))),
            },
            ScalarFunction::Instr => match (text_of(vs[0]), text_of(vs[1])) {
                (Err(e), _) => r == Some(Err::<Value, ExecError>(e)),
                (Ok(_), Err(e)) => r == Some(Err::<Value, ExecError>(e)),
                (Ok(h), Ok(n)) => r == Some(Ok::<Value, ExecError>(Value::UInt64(
                    locate_position(folded_text(n, binary_operand(vs)), folded_text(h, binary_operand(vs)), 1) as u64,
                ))),
            },
            ScalarFunction::Locate => match (text_of(vs[0]), text_of(vs[1])) {
                (Err(e), _) => r == Some(Err::<Value, ExecError>(e)),
                (Ok(_), Err(e)) => r == Some(Err::<Value, ExecError>(e)),
                (Ok(n), Ok(h)) => match (if vs.len() > 2 { integer_arg(vs[2]) } else { Some(Ok(1int)) }) {
                    None => r is None,
                    Some(Err(e)) => r == Some(Err::<Value, ExecError>(e)),
                    Some(Ok(start)) => r == Some(Ok::<Value, ExecError>(Value::UInt64(
                        locate_position(folded_text(n, binary_operand(vs)), folded_text(h, binary_operand(vs)), start) as u64,
                    ))),
                },
            },
            ScalarFunction::Substring => match text_of(vs[0]) {
                Err(e) => r == Some(Err::<Value, ExecError>(e)),
                Ok(t) => match integer_arg(vs[1]) {
                    None => r is None,
                    Some(Err(e)) => r == Some(Err::<Value, ExecError>(e)),
                    Some(Ok(start)) => match (if vs.len() > 2 { integer_arg(vs[2]) } else { Some(Ok(i64::MAX as int)) }) {
                        None => r is None,
                        Some(Err(e)) => r == Some(Err::<Value, ExecError>(e)),
                        Some(Ok(length)) => text_answer(Ok(substring_chars(t, start, length)), r),
                    },
                },
            },
            ScalarFunction::Left | ScalarFunction::Right => match text_of(vs[0]) {
                Err(e) => r == Some(Err::<Value, ExecError>(e)),
                Ok(t) => match integer_arg(vs[1]) {
                    None => r is None,
                    Some(Err(e)) => r == Some(Err::<Value, ExecError>(e)),
                    Some(Ok(n)) => text_answer(
                        Ok(if f is Left {
                            t.take(kept_count(n, t.len()))
                        } else {
                            t.skip(t.len() - kept_count(n, t.len()))
                        }),
                        r,
                    ),
                },
            },
            ScalarFunction::SubstringIndex => match (text_of(vs[0]), text_of(vs[1])) {
                (Err(e), _) => r == Some(Err::<Value, ExecError>(e)),
                (Ok(_), Err(e)) => r == Some(Err::<Value, ExecError>(e)),
                (Ok(t), Ok(d)) => match integer_arg(vs[2]) {
                    None => r is None,
                    Some(Err(e)) => r == Some(Err::<Value, ExecError>(e)),
                    Some(Ok(count)) => text_answer(Ok(substring_index_chars(t, d, count)), r),
                },
            },
            ScalarFunction::Conv => match text_of(vs[0]) {
                Err(e) => r == Some(Err::<Value, ExecError>(e)),
                Ok(s) => match (integer_arg(vs[1]), integer_arg(vs[2])) {
                    (None, _) => r is None,
                    (Some(Err(e)), _) => r == Some(Err::<Value, ExecError>(e)),
                    (Some(Ok(_)), None) => r is None,
                    (Some(Ok(_)), Some(Err(e))) => r == Some(Err::<Value, ExecError>(e)),
                    (Some(Ok(from)), Some(Ok(to))) => match conv_text(s, from, to) {
                        Some(c) => text_answer(Ok(c), r),
                        None => r == Some(Ok::<Value, ExecError>(Value::Null)),
                    },
                },
            },
            ScalarFunction::Concat => text_answer(concat_text(vs), r),
            ScalarFunction::Hex => match vs[0] {
                Value::Int64(x) => text_answer(Ok(upper_hex_digits((x as u64) as nat)), r),
                Value::UInt64(x) => text_answer(Ok(upper_hex_digits(x as nat)), r),
                Value::Binary(b) => text_answer(Ok(hex_text(b@)), r),
                _ => match text_of(vs[0]) {
                    Ok(t) => text_answer(Ok(hex_text(encode_utf8(t))), r),
                    Err(e) => r == Some(Err::<Value, ExecError>(e)),
                },
            },
            ScalarFunction::Unhex | ScalarFunction::FromBase64 => match text_of(vs[0]) {
                Err(e) => r == Some(Err::<Value, ExecError>(e)),
                Ok(t) => match (if f is Unhex { unhex_bytes(encode_utf8(t)) } else { base64_bytes(encode_utf8(t)) }) {
                    Some(b) => r matches Some(Ok(Value::Binary(c))) && c@ == b,
                    None => r == Some(Ok::<Value, ExecError>(Value::Null)),
                },
            },
            ScalarFunction::Ascii => match text_of(vs[0]) {
                Err(e) => r == Some(Err::<Value, ExecError>(e)),
                Ok(t) => r == Some(Ok::<Value, ExecError>(Value::UInt64(
                    if encode_utf8(t).len() > 0 { encode_utf8(t)[0] as u64 } else { 0 },
                ))),
            },
            ScalarFunction::JsonArray => match json_arg_texts(vs, ts) {
                Some(Ok(texts)) => text_answer(Ok(seq!['['] + joined(texts) + seq![']']), r),
                Some(Err(e)) => r == Some(Err::<Value, ExecError>(e)),
                None => r is None,
            },
            ScalarFunction::JsonObject => match json_members(vs, ts, vs.len() / 2) {
                Some(Ok(ms)) => text_answer(Ok(object_text(ms)), r),
                Some(Err(e)) => r == Some(Err::<Value, ExecError>(e)),
                None => r is None,
            },
            ScalarFunction::Repeat => match text_of(vs[0]) {
                Err(e) => r == Some(Err::<Value, ExecError>(e)),
                Ok(t) => match integer_arg(vs[1]) {
                    None => r is None,
                    Some(Err(e)) => r == Some(Err::<Value, ExecError>(e)),
                    Some(Ok(count)) => text_answer(repeat_result(t, count), r),
                },
            },
            ScalarFunction::Space => match integer_arg(vs[0]) {
                None => r is None,
                Some(Err(e)) => r == Some(Err::<Value, ExecError>(e)),
                Some(Ok(count)) => text_answer(repeat_result(seq![' '], count), r),
            },
            ScalarFunction::Lpad | ScalarFunction::Rpad => match text_of(vs[0]) {
                Err(e) => r == Some(Err::<Value, ExecError>(e)),
                Ok(t) => match integer_arg(vs[1]) {
                    None => r is None,
                    Some(Err(e)) => r == Some(Err::<Value, ExecError>(e)),
                    Some(Ok(target)) => match text_of(vs[2]) {
                        Err(e) => r == Some(Err::<Value, ExecError>(e)),
                        Ok(p) => if target > crate::text::STRING_BUILD_CAP {
                            r == Some(Err::<Value, ExecError>(ExecError::NumericOverflow))
                        } else {
                            match padded_text(t, target, p, f is Lpad) {
                                Some(u) => text_answer(Ok(u), r),
                                None => r == Some(Ok::<Value, ExecError>(Value::Null)),
                            }
                        },
                    },
                },
            },
            ScalarFunction::MakeTime => match (integer_arg(vs[0]), integer_arg(vs[1]), integer_arg(vs[2])) {
                (Some(Ok(h)), Some(Ok(m)), Some(Ok(sec))) => match make_time_text(h, m, sec) {
                    Some(t) => text_answer(Ok(t), r),
                    None => r == Some(Ok::<Value, ExecError>(Value::Null)),
                },
                (Some(Err(e)), _, _) => r == Some(Err::<Value, ExecError>(e)),
                (Some(Ok(_)), Some(Err(e)), _) => r == Some(Err::<Value, ExecError>(e)),
                (Some(Ok(_)), Some(Ok(_)), Some(Err(e))) => r == Some(Err::<Value, ExecError>(e)),
                _ => r is None,
            },
            ScalarFunction::SecToTime => match integer_arg(vs[0]) {
                None => r is None,
                Some(Err(e)) => r == Some(Err::<Value, ExecError>(e)),
                Some(Ok(seconds)) => text_answer(Ok(seconds_time_text(seconds)), r),
            },
            _ => r is None,
        }
    }
}

/// The text of a value.
fn text_arg(v: &Value) -> (r: Result<String, ExecError>)
    ensures
        match r {
            Ok(s) => text_of(*v) == Ok::<Seq<char>, ExecError>(s@),
            Err(e) => text_of(*v) == Err::<Seq<char>, ExecError>(e),
        },
{
    match v {
        Value::Null => Ok(String::new()),
        Value::Boolean(b) => {
            let mut out: Vec<char> = Vec::new();
            out.push(if *b { '1' } else { '0' });
            proof {
                assert(out@ =~= (if *b { seq!['1'] } else { seq!['0'] }));
            }
            Ok(string_of(out.as_slice()))
        },
        Value::Int64(x) => {
            let mut out: Vec<char> = Vec::new();
            if *x == i64::MIN {
                out.push('-');
                push_decimal(&mut out, 9223372036854775808u64);
                assert(out@ =~= signed_decimal(*x as int));
            } else {
                push_signed_decimal(&mut out, *x);
                assert(out@ =~= signed_decimal(*x as int));
            }
            Ok(string_of(out.as_slice()))
        },
        Value::UInt64(x) => {
            let mut out: Vec<char> = Vec::new();
            push_decimal(&mut out, *x);
            assert(out@ =~= decimal(*x as nat));
            Ok(string_of(out.as_slice()))
        },
        Value::Utf8(bytes) | Value::Binary(bytes) => match utf8_text(bytes.as_slice()) {
            Some(s) => Ok(s),
            None => Err(ExecError::InvalidUtf8Number),
        },
    }
}

/// The integer of an argument of the integer family.
fn int_arg(v: &Value) -> (r: Option<Result<i64, ExecError>>)
    ensures
        match r {
            None => integer_arg(*v) is None,
            Some(Ok(x)) => integer_arg(*v) == Some(Ok::<int, ExecError>(x as int)),
            Some(Err(e)) => integer_arg(*v) == Some(Err::<int, ExecError>(e)),
        },
{
    let i = match v {
        Value::Null => IntegerValue::Null,
        Value::Boolean(b) => IntegerValue::Boolean(*b),
        Value::Int64(x) => IntegerValue::Int64(*x),
        Value::UInt64(x) => IntegerValue::UInt64(*x),
        _ => return None,
    };
    Some(mysql_i64(&i))
}

/// A text result.
fn text_value(s: String) -> (r: Value)
    ensures
        is_text(r, s@),
{
    Value::Utf8(utf8_bytes(s))
}

/// Whether a value is a byte string.
fn is_binary(v: &Value) -> (r: bool)
    ensures
        r == (*v is Binary),
{
    match v {
        Value::Binary(_) => true,
        _ => false,
    }
}

/// Whether any argument is NULL.
fn any_null(values: &Vec<Value>) -> (r: bool)
    ensures
        r == has_null(values@),
{
    let mut i: usize = 0;
    while i < values.len()
        invariant
            i <= values@.len(),
            forall|j: int| 0 <= j < i ==> !(values@[j] is Null),
        decreases values@.len() - i,
    {
        if matches!(values[i], Value::Null) {
            return true;
        }
        i = i + 1;
    }
    false
}

/// The characters of a text with the space character removed from both
/// ends (`TRIM`'s default, which leaves tabs and other white space).
fn trim_spaces(text: &str) -> (r: String)
    ensures
        r@ == space_trimmed(text@),
{
    let chars = chars_of(text);
    let mut from: usize = 0;
    let mut to: usize = chars.len();
    assert(chars@.subrange(0, to as int) =~= chars@);
    while from < to && chars[from] == ' '
        invariant
            from <= to <= chars@.len(),
            to == chars@.len(),
            space_trimmed(chars@) == space_trimmed(chars@.subrange(from as int, to as int)),
        decreases to - from,
    {
        proof {
            assert(chars@.subrange(from as int, to as int).drop_first() =~= chars@.subrange(from + 1, to as int));
        }
        from = from + 1;
    }
    while from < to && chars[to - 1] == ' '
        invariant
            from <= to <= chars@.len(),
            space_trimmed(chars@) == space_trimmed(chars@.subrange(from as int, to as int)),
            from == to || chars@[from as int] != ' ',
        decreases to - from,
    {
        proof {
            let t = chars@.subrange(from as int, to as int);
            assert(t[0] != ' ');
            assert(t.drop_last() =~= chars@.subrange(from as int, to - 1));
        }
        to = to - 1;
    }
    let kept = crate::chars::slice_chars(chars.as_slice(), from, to);
    proof {
        let t = chars@.subrange(from as int, to as int);
        assert(t.len() == 0 || (t[0] != ' ' && t.last() != ' '));
    }
    string_of(kept.as_slice())
}

/// The characters of a text in reverse order.
fn reversed(text: &str) -> (r: String)
    ensures
        r@ == text@.reverse(),
{
    let chars = chars_of(text);
    let mut out: Vec<char> = Vec::new();
    let mut i: usize = chars.len();
    while i > 0
        invariant
            i <= chars@.len(),
            out@ == chars@.subrange(i as int, chars@.len() as int).reverse(),
        decreases i,
    {
        i = i - 1;
        out.push(chars[i]);
        proof {
            assert(out@ =~= chars@.subrange(i as int, chars@.len() as int).reverse());
        }
    }
    proof {
        assert(chars@.subrange(0, chars@.len() as int) =~= chars@);
    }
    string_of(out.as_slice())
}

/// The first `count` characters of a text (`LEFT`), or its last (`RIGHT`).
fn end_chars(text: &str, n: i64, left: bool) -> (r: String)
    ensures
        r@ == (if left {
            text@.take(kept_count(n as int, text@.len()))
        } else {
            text@.skip(text@.len() - kept_count(n as int, text@.len()))
        }),
{
    let chars = chars_of(text);
    let len = chars.len();
    let count: usize = if n < 0 {
        0
    } else if n as u64 > len as u64 {
        len
    } else {
        n as usize
    };
    let kept = if left {
        crate::chars::slice_chars(chars.as_slice(), 0, count)
    } else {
        crate::chars::slice_chars(chars.as_slice(), len - count, len)
    };
    proof {
        assert(count == kept_count(n as int, text@.len()));
        if left {
            assert(chars@.subrange(0, count as int) =~= text@.take(count as int));
        } else {
            assert(chars@.subrange(len - count, len as int) =~= text@.skip(len - count));
        }
    }
    string_of(kept.as_slice())
}

/// Evaluates a text function over its arguments: NULL where an argument
/// is NULL (for every function here), else the function over the text
/// and integers its arguments read as; `None` where the function, or the
/// number an argument's text spells, is evaluated elsewhere.
pub fn evaluate_scalar(function: ScalarFunction, values: &Vec<Value>, argument_types: &Vec<Option<DataType>>) -> (r: Option<
    Result<Value, ExecError>,
>)
    requires
        arity_ok(function, values@.len()),
    ensures
        scalar_result(function, values@, argument_types@, r),
{
    let here = match function {
        ScalarFunction::Substring | ScalarFunction::Lower | ScalarFunction::Upper | ScalarFunction::Trim
        | ScalarFunction::Length | ScalarFunction::CharLength | ScalarFunction::Locate | ScalarFunction::Instr
        | ScalarFunction::Like { .. } | ScalarFunction::SubstringIndex | ScalarFunction::Conv
        | ScalarFunction::Md5 | ScalarFunction::ToBase64 | ScalarFunction::Reverse | ScalarFunction::Left
        | ScalarFunction::Right | ScalarFunction::Concat | ScalarFunction::Repeat | ScalarFunction::Space
        | ScalarFunction::Lpad | ScalarFunction::Rpad | ScalarFunction::MakeTime | ScalarFunction::SecToTime
        | ScalarFunction::JsonArray | ScalarFunction::JsonObject | ScalarFunction::Hex | ScalarFunction::Unhex
        | ScalarFunction::FromBase64 | ScalarFunction::Ascii => true,
        _ => false,
    };
    if !here {
        return None;
    }
    let null_data = match function {
        ScalarFunction::JsonArray | ScalarFunction::JsonObject => true,
        _ => false,
    };
    if !null_data && any_null(values) {
        return Some(Ok(Value::Null));
    }
    let binary = (values.len() > 0 && is_binary(&values[0])) || (values.len() > 1 && is_binary(&values[1]));
    match function {
        ScalarFunction::Lower | ScalarFunction::Upper => {
            if let Value::Binary(bytes) = &values[0] {
                let mut copy: Vec<u8> = Vec::new();
                let mut i: usize = 0;
                while i < bytes.len()
                    invariant
                        i <= bytes@.len(),
                        copy@ == bytes@.subrange(0, i as int),
                    decreases bytes@.len() - i,
                {
                    copy.push(bytes[i]);
                    i = i + 1;
                    proof {
                        assert(copy@ =~= bytes@.subrange(0, i as int));
                    }
                }
                proof {
                    assert(copy@ =~= bytes@);
                }
                return Some(Ok(Value::Binary(copy)));
            }
            let text = match text_arg(&values[0]) {
                Ok(t) => t,
                Err(e) => return Some(Err(e)),
            };
            let out = match function {
                ScalarFunction::Lower => to_lower(text.as_str()),
                _ => to_upper(text.as_str()),
            };
            Some(Ok(text_value(out)))
        },
        ScalarFunction::Trim => match text_arg(&values[0]) {
            Ok(t) => Some(Ok(text_value(trim_spaces(t.as_str())))),
            Err(e) => Some(Err(e)),
        },
        ScalarFunction::Reverse => match text_arg(&values[0]) {
            Ok(t) => Some(Ok(text_value(reversed(t.as_str())))),
            Err(e) => Some(Err(e)),
        },
        ScalarFunction::Length => match text_arg(&values[0]) {
            Ok(t) => {
                let n = t.as_str().as_bytes().len();
                Some(Ok(Value::UInt64(n as u64)))
            },
            Err(e) => Some(Err(e)),
        },
        ScalarFunction::CharLength => match text_arg(&values[0]) {
            Ok(t) => {
                let n = chars_of(t.as_str()).len();
                Some(Ok(Value::UInt64(n as u64)))
            },
            Err(e) => Some(Err(e)),
        },
        ScalarFunction::Md5 => {
            if let Value::Binary(bytes) = &values[0] {
                return Some(Ok(text_value(md5_hex(bytes.as_slice()))));
            }
            match text_arg(&values[0]) {
                Ok(t) => Some(Ok(text_value(md5_hex(t.as_str().as_bytes())))),
                Err(e) => Some(Err(e)),
            }
        },
        ScalarFunction::ToBase64 => match text_arg(&values[0]) {
            Ok(t) => Some(Ok(text_value(to_base64(t.as_str().as_bytes())))),
            Err(e) => Some(Err(e)),
        },
        ScalarFunction::Like { negated, escape } => {
            let value = match text_arg(&values[0]) {
                Ok(t) => t,
                Err(e) => return Some(Err(e)),
            };
            let pattern = match text_arg(&values[1]) {
                Ok(t) => t,
                Err(e) => return Some(Err(e)),
            };
            let matched = like_matches(value.as_str(), pattern.as_str(), escape, binary);
            Some(Ok(Value::Boolean(matched != negated)))
        },
        ScalarFunction::Instr => {
            let haystack = match text_arg(&values[0]) {
                Ok(t) => t,
                Err(e) => return Some(Err(e)),
            };
            let needle = match text_arg(&values[1]) {
                Ok(t) => t,
                Err(e) => return Some(Err(e)),
            };
            Some(Ok(Value::UInt64(locate_folded(needle.as_str(), haystack.as_str(), 1, binary))))
        },
        ScalarFunction::Locate => {
            let needle = match text_arg(&values[0]) {
                Ok(t) => t,
                Err(e) => return Some(Err(e)),
            };
            let haystack = match text_arg(&values[1]) {
                Ok(t) => t,
                Err(e) => return Some(Err(e)),
            };
            let start = if values.len() > 2 {
                match int_arg(&values[2]) {
                    None => return None,
                    Some(Err(e)) => return Some(Err(e)),
                    Some(Ok(x)) => x,
                }
            } else {
                1
            };
            Some(Ok(Value::UInt64(locate_folded(needle.as_str(), haystack.as_str(), start, binary))))
        },
        ScalarFunction::Substring => {
            let text = match text_arg(&values[0]) {
                Ok(t) => t,
                Err(e) => return Some(Err(e)),
            };
            let start = match int_arg(&values[1]) {
                None => return None,
                Some(Err(e)) => return Some(Err(e)),
                Some(Ok(x)) => x,
            };
            let length = if values.len() > 2 {
                match int_arg(&values[2]) {
                    None => return None,
                    Some(Err(e)) => return Some(Err(e)),
                    Some(Ok(x)) => x,
                }
            } else {
                i64::MAX
            };
            Some(Ok(text_value(mysql_substring(text.as_str(), start, length))))
        },
        ScalarFunction::Left | ScalarFunction::Right => {
            let text = match text_arg(&values[0]) {
                Ok(t) => t,
                Err(e) => return Some(Err(e)),
            };
            let n = match int_arg(&values[1]) {
                None => return None,
                Some(Err(e)) => return Some(Err(e)),
                Some(Ok(x)) => x,
            };
            let left = match function {
                ScalarFunction::Left => true,
                _ => false,
            };
            Some(Ok(text_value(end_chars(text.as_str(), n, left))))
        },
        ScalarFunction::SubstringIndex => {
            let text = match text_arg(&values[0]) {
                Ok(t) => t,
                Err(e) => return Some(Err(e)),
            };
            let delimiter = match text_arg(&values[1]) {
                Ok(t) => t,
                Err(e) => return Some(Err(e)),
            };
            let count = match int_arg(&values[2]) {
                None => return None,
                Some(Err(e)) => return Some(Err(e)),
                Some(Ok(x)) => x,
            };
            Some(Ok(text_value(substring_index(text.as_str(), delimiter.as_str(), count))))
        },
        ScalarFunction::Conv => {
            let subject = match text_arg(&values[0]) {
                Ok(t) => t,
                Err(e) => return Some(Err(e)),
            };
            let from = match int_arg(&values[1]) {
                None => return None,
                Some(Err(e)) => return Some(Err(e)),
                Some(Ok(x)) => x,
            };
            let to = match int_arg(&values[2]) {
                None => return None,
                Some(Err(e)) => return Some(Err(e)),
                Some(Ok(x)) => x,
            };
            match conv_base(subject.as_str(), from, to) {
                Some(c) => Some(Ok(text_value(c))),
                None => Some(Ok(Value::Null)),
            }
        },
        ScalarFunction::JsonArray => match json_array(values, argument_types) {
            Some(Ok(t)) => Some(Ok(text_value(t))),
            Some(Err(e)) => Some(Err(e)),
            None => None,
        },
        ScalarFunction::JsonObject => match json_object(values, argument_types) {
            Some(Ok(t)) => Some(Ok(text_value(t))),
            Some(Err(e)) => Some(Err(e)),
            None => None,
        },
        ScalarFunction::Hex => match &values[0] {
            Value::Int64(x) => Some(Ok(text_value(hex_of_u64(*x as u64)))),
            Value::UInt64(x) => Some(Ok(text_value(hex_of_u64(*x)))),
            Value::Binary(bytes) => Some(Ok(text_value(hex_upper(bytes.as_slice())))),
            _ => match text_arg(&values[0]) {
                Ok(t) => Some(Ok(text_value(hex_upper(t.as_str().as_bytes())))),
                Err(e) => Some(Err(e)),
            },
        },
        ScalarFunction::Unhex | ScalarFunction::FromBase64 => {
            let text = match text_arg(&values[0]) {
                Ok(t) => t,
                Err(e) => return Some(Err(e)),
            };
            let decoded = match function {
                ScalarFunction::Unhex => unhex(text.as_str()),
                _ => base64_decode(text.as_str()),
            };
            match decoded {
                Some(b) => Some(Ok(Value::Binary(b))),
                None => Some(Ok(Value::Null)),
            }
        },
        ScalarFunction::Ascii => match text_arg(&values[0]) {
            Ok(t) => {
                let bytes = t.as_str().as_bytes();
                if bytes.len() > 0 {
                    Some(Ok(Value::UInt64(bytes[0] as u64)))
                } else {
                    Some(Ok(Value::UInt64(0)))
                }
            },
            Err(e) => Some(Err(e)),
        },
        ScalarFunction::Concat => match concat_values(values) {
            Ok(t) => Some(Ok(text_value(t))),
            Err(e) => Some(Err(e)),
        },
        ScalarFunction::Repeat => {
            let text = match text_arg(&values[0]) {
                Ok(t) => t,
                Err(e) => return Some(Err(e)),
            };
            let count = match int_arg(&values[1]) {
                None => return None,
                Some(Err(e)) => return Some(Err(e)),
                Some(Ok(x)) => x,
            };
            match repeat_text(text.as_str(), count) {
                Ok(t) => Some(Ok(text_value(t))),
                Err(e) => Some(Err(e)),
            }
        },
        ScalarFunction::Space => {
            let count = match int_arg(&values[0]) {
                None => return None,
                Some(Err(e)) => return Some(Err(e)),
                Some(Ok(x)) => x,
            };
            let space = string_of(&[' ']);
            proof {
                assert(space@ =~= seq![' ']);
            }
            match repeat_text(space.as_str(), count) {
                Ok(t) => Some(Ok(text_value(t))),
                Err(e) => Some(Err(e)),
            }
        },
        ScalarFunction::Lpad | ScalarFunction::Rpad => {
            let text = match text_arg(&values[0]) {
                Ok(t) => t,
                Err(e) => return Some(Err(e)),
            };
            let target = match int_arg(&values[1]) {
                None => return None,
                Some(Err(e)) => return Some(Err(e)),
                Some(Ok(x)) => x,
            };
            let pad = match text_arg(&values[2]) {
                Ok(t) => t,
                Err(e) => return Some(Err(e)),
            };
            let left = match function {
                ScalarFunction::Lpad => true,
                _ => false,
            };
            match mysql_pad(text.as_str(), target, pad.as_str(), left) {
                Ok(Some(t)) => Some(Ok(text_value(t))),
                Ok(None) => Some(Ok(Value::Null)),
                Err(e) => Some(Err(e)),
            }
        },
        ScalarFunction::MakeTime => {
            let hour = match int_arg(&values[0]) {
                None => return None,
                Some(Err(e)) => return Some(Err(e)),
                Some(Ok(x)) => x,
            };
            let minute = match int_arg(&values[1]) {
                None => return None,
                Some(Err(e)) => return Some(Err(e)),
                Some(Ok(x)) => x,
            };
            let second = match int_arg(&values[2]) {
                None => return None,
                Some(Err(e)) => return Some(Err(e)),
                Some(Ok(x)) => x,
            };
            match make_time(hour, minute, second) {
                Some(t) => Some(Ok(text_value(t))),
                None => Some(Ok(Value::Null)),
            }
        },
        ScalarFunction::SecToTime => {
            let seconds = match int_arg(&values[0]) {
                None => return None,
                Some(Err(e)) => return Some(Err(e)),
                Some(Ok(x)) => x,
            };
            Some(Ok(text_value(seconds_time(seconds))))
        },
        _ => None,
    }
}

/// An error reading a prefix of the arguments is the error of all of them.
proof fn lemma_concat_error(vs: Seq<Value>, k: int, e: ExecError)
    requires
        0 <= k <= vs.len(),
        concat_text(vs.take(k)) == Err::<Seq<char>, ExecError>(e),
    ensures
        concat_text(vs) == Err::<Seq<char>, ExecError>(e),
    decreases vs.len() - k,
{
    if k < vs.len() {
        assert(vs.take(k + 1).drop_last() =~= vs.take(k));
        lemma_concat_error(vs, k + 1, e);
    } else {
        assert(vs.take(k) =~= vs);
    }
}

/// The texts of a list of values, joined (`CONCAT`).
fn concat_values(values: &Vec<Value>) -> (r: Result<String, ExecError>)
    ensures
        match r {
            Ok(s) => concat_text(values@) == Ok::<Seq<char>, ExecError>(s@),
            Err(e) => concat_text(values@) == Err::<Seq<char>, ExecError>(e),
        },
{
    let mut out: Vec<char> = Vec::new();
    let mut i: usize = 0;
    assert(values@.take(0) =~= Seq::<Value>::empty());
    while i < values.len()
        invariant
            i <= values@.len(),
            concat_text(values@.take(i as int)) == Ok::<Seq<char>, ExecError>(out@),
        decreases values@.len() - i,
    {
        proof {
            assert(values@.take(i + 1).drop_last() =~= values@.take(i as int));
            assert(values@.take(i + 1).last() == values@[i as int]);
        }
        match text_arg(&values[i]) {
            Ok(t) => {
                let chars = chars_of(t.as_str());
                crate::chars::push_all(&mut out, chars.as_slice());
            },
            Err(e) => {
                proof {
                    lemma_concat_error(values@, i + 1, e);
                }
                return Err(e);
            },
        }
        i = i + 1;
    }
    assert(values@.take(values@.len() as int) =~= values@);
    Ok(string_of(out.as_slice()))
}

/// `REPEAT(text, count)`: empty for a count that is not positive.
fn repeat_text(text: &str, count: i64) -> (r: Result<String, ExecError>)
    ensures
        match r {
            Ok(s) => repeat_result(text@, count as int) == Ok::<Seq<char>, ExecError>(s@),
            Err(e) => repeat_result(text@, count as int) == Err::<Seq<char>, ExecError>(e),
        },
{
    if count <= 0 {
        return Ok(String::new());
    }
    repeat_capped(text, count)
}

/// `SEC_TO_TIME` of a whole number of seconds.
fn seconds_time(seconds: i64) -> (r: String)
    ensures
        r@ == seconds_time_text(seconds as int),
{
    let clamped: i64 = if seconds < -3020399 {
        -3020399
    } else if seconds > 3020399 {
        3020399
    } else {
        seconds
    };
    let m: u64 = if clamped < 0 { (-clamped) as u64 } else { clamped as u64 };
    let mut out: Vec<char> = Vec::new();
    if clamped < 0 {
        out.push('-');
    }
    push_padded(&mut out, m / 3600, 2);
    out.push(':');
    push_padded(&mut out, m / 60 % 60, 2);
    out.push(':');
    push_padded(&mut out, m % 60, 2);
    proof {
        let mi: int = if clamped < 0 { -clamped } else { clamped as int };
        assert(m as int == mi);
        assert(out@ =~= seconds_time_text(seconds as int));
    }
    string_of(out.as_slice())
}

/// One argument of a JSON constructor, by its declared type.
fn json_arg(v: &Value, dt: Option<DataType>) -> (r: Option<Result<JsonScalar, ExecError>>)
    ensures
        match r {
            Some(Ok(j)) => json_arg_text(*v, dt) == Some(Ok::<Seq<char>, ExecError>(scalar_text(j))),
            Some(Err(e)) => json_arg_text(*v, dt) == Some(Err::<Seq<char>, ExecError>(e)),
            None => json_arg_text(*v, dt) is None,
        },
{
    if matches!(v, Value::Null) {
        return Some(Ok(JsonScalar::Value(JsonDoc::Null)));
    }
    let json_typed = match dt {
        Some(DataType::Json) => true,
        _ => false,
    };
    if json_typed {
        return None;
    }
    let decimal_typed = match dt {
        Some(DataType::Decimal { .. }) => true,
        _ => false,
    };
    match v {
        Value::Utf8(bytes) => match utf8_text(bytes.as_slice()) {
            None => Some(Err(ExecError::InvalidUtf8Number)),
            Some(text) => if decimal_typed {
                Some(Ok(JsonScalar::Number(text)))
            } else {
                Some(Ok(JsonScalar::Value(JsonDoc::Text(text))))
            },
        },
        Value::Binary(bytes) => match utf8_text(bytes.as_slice()) {
            None => None,
            Some(text) => Some(Ok(JsonScalar::Value(JsonDoc::Text(text)))),
        },
        _ => match text_arg(v) {
            Ok(text) => Some(Ok(JsonScalar::Value(JsonDoc::Number(text)))),
            Err(e) => Some(Err(e)),
        },
    }
}

/// A prefix of the arguments that fails, or is printed elsewhere, decides
/// `JSON_ARRAY`.
proof fn lemma_json_texts_stop(vs: Seq<Value>, ts: Seq<Option<DataType>>, k: int)
    requires
        0 <= k <= vs.len(),
        !(json_arg_texts(vs.take(k), ts) matches Some(Ok(_))),
    ensures
        json_arg_texts(vs, ts) == json_arg_texts(vs.take(k), ts),
    decreases vs.len() - k,
{
    if k < vs.len() {
        assert(vs.take(k + 1).drop_last() =~= vs.take(k));
        lemma_json_texts_stop(vs, ts, k + 1);
    } else {
        assert(vs.take(k) =~= vs);
    }
}

/// `JSON_ARRAY`'s text.
fn json_array(values: &Vec<Value>, types: &Vec<Option<DataType>>) -> (r: Option<Result<String, ExecError>>)
    ensures
        match r {
            Some(Ok(t)) => json_arg_texts(values@, types@) matches Some(Ok(texts)) && t@ == seq!['['] + joined(
                texts,
            ) + seq![']'],
            Some(Err(e)) => json_arg_texts(values@, types@) == Some(Err::<Seq<Seq<char>>, ExecError>(e)),
            None => json_arg_texts(values@, types@) is None,
        },
{
    let mut items: Vec<JsonScalar> = Vec::new();
    let mut i: usize = 0;
    assert(values@.take(0) =~= Seq::<Value>::empty());
    assert(scalar_texts(items@) =~= Seq::<Seq<char>>::empty());
    while i < values.len()
        invariant
            i <= values@.len(),
            json_arg_texts(values@.take(i as int), types@) == Some(Ok::<Seq<Seq<char>>, ExecError>(scalar_texts(items@))),
        decreases values@.len() - i,
    {
        let dt = if i < types.len() { types[i] } else { None };
        proof {
            assert(values@.take(i + 1).drop_last() =~= values@.take(i as int));
            assert(values@.take(i + 1).last() == values@[i as int]);
            assert(dt == type_at(types@, i as int));
        }
        match json_arg(&values[i], dt) {
            Some(Ok(j)) => {
                let ghost before = items@;
                items.push(j);
                proof {
                    assert(scalar_texts(items@) =~= scalar_texts(before).push(scalar_text(j)));
                }
            },
            Some(Err(e)) => {
                proof {
                    lemma_json_texts_stop(values@, types@, i + 1);
                }
                return Some(Err(e));
            },
            None => {
                proof {
                    lemma_json_texts_stop(values@, types@, i + 1);
                }
                return None;
            },
        }
        i = i + 1;
    }
    assert(values@.take(values@.len() as int) =~= values@);
    Some(Ok(mysql_json_array_text(items.as_slice())))
}

/// The members of an object as key text and printed value.
pub open spec fn member_view(ms: Seq<(String, JsonScalar)>) -> Seq<(Seq<char>, Seq<char>)> {
    Seq::new(ms.len(), |i: int| (ms[i].0@, scalar_text(ms[i].1)))
}

/// `key_index` is the first index holding the key, or -1 where none does.
proof fn lemma_key_index(ms: Seq<(Seq<char>, Seq<char>)>, k: Seq<char>)
    ensures
        key_index(ms, k) == -1 ==> forall|i: int| 0 <= i < ms.len() ==> (#[trigger] ms[i]).0 != k,
        key_index(ms, k) != -1 ==> 0 <= key_index(ms, k) < ms.len() && ms[key_index(ms, k)].0 == k && forall|i: int|
            0 <= i < key_index(ms, k) ==> (#[trigger] ms[i]).0 != k,
    decreases ms.len(),
{
    if ms.len() > 0 {
        lemma_key_index(ms.drop_last(), k);
        assert forall|i: int| 0 <= i < ms.len() - 1 implies ms.drop_last()[i] == #[trigger] ms[i] by {}
    }
}

/// A prefix of the pairs that fails, or is printed elsewhere, decides
/// `JSON_OBJECT`.
proof fn lemma_json_members_stop(vs: Seq<Value>, ts: Seq<Option<DataType>>, k: nat, n: nat)
    requires
        k <= n,
        !(json_members(vs, ts, k) matches Some(Ok(_))),
    ensures
        json_members(vs, ts, n) == json_members(vs, ts, k),
    decreases n - k,
{
    if k < n {
        lemma_json_members_stop(vs, ts, k + 1, n);
    }
}

/// `JSON_OBJECT`'s text.
fn json_object(values: &Vec<Value>, types: &Vec<Option<DataType>>) -> (r: Option<Result<String, ExecError>>)
    requires
        values@.len() % 2 == 0,
    ensures
        match r {
            Some(Ok(t)) => json_members(values@, types@, values@.len() / 2) matches Some(Ok(ms)) && t@
                == object_text(ms),
            Some(Err(e)) => json_members(values@, types@, values@.len() / 2) == Some(
                Err::<Seq<(Seq<char>, Seq<char>)>, ExecError>(e),
            ),
            None => json_members(values@, types@, values@.len() / 2) is None,
        },
{
    let pairs = values.len() / 2;
    let mut members: Vec<(String, JsonScalar)> = Vec::new();
    let mut k: usize = 0;
    assert(member_view(members@) =~= Seq::<(Seq<char>, Seq<char>)>::empty());
    while k < pairs
        invariant
            pairs == values@.len() / 2,
            values@.len() % 2 == 0,
            k <= pairs,
            json_members(values@, types@, k as nat) == Some(
                Ok::<Seq<(Seq<char>, Seq<char>)>, ExecError>(member_view(members@)),
            ),
        decreases pairs - k,
    {
        assert(2 * k + 1 < values@.len()) by (nonlinear_arith)
            requires
                k < pairs,
                pairs == values@.len() / 2,
                values@.len() % 2 == 0,
        ;
        let n = values.len();
        assert(k + k < n);
        let i = k + k;
        if matches!(values[i], Value::Null) {
            proof {
                lemma_json_members_stop(values@, types@, (k + 1) as nat, pairs as nat);
            }
            return Some(Err(ExecError::InvalidExpressionType));
        }
        let key = match text_arg(&values[i]) {
            Ok(t) => t,
            Err(e) => {
                proof {
                    lemma_json_members_stop(values@, types@, (k + 1) as nat, pairs as nat);
                }
                return Some(Err(e));
            },
        };
        let dt = if i + 1 < types.len() { types[i + 1] } else { None };
        let entry = match json_arg(&values[i + 1], dt) {
            Some(Ok(j)) => j,
            Some(Err(e)) => {
                proof {
                    lemma_json_members_stop(values@, types@, (k + 1) as nat, pairs as nat);
                }
                return Some(Err(e));
            },
            None => {
                proof {
                    lemma_json_members_stop(values@, types@, (k + 1) as nat, pairs as nat);
                }
                return None;
            },
        };
        let ghost before = member_view(members@);
        let ghost p = (key@, scalar_text(entry));
        let mut j: usize = 0;
        while j < members.len() && members[j].0 != key
            invariant
                j <= members@.len(),
                before == member_view(members@),
                forall|x: int| 0 <= x < j ==> (#[trigger] members@[x]).0@ != key@,
            decreases members@.len() - j,
        {
            j = j + 1;
        }
        proof {
            lemma_key_index(before, key@);
            assert forall|x: int| 0 <= x < j implies (#[trigger] before[x]).0 != key@ by {
                assert(before[x].0 == members@[x].0@);
            }
            if j < members@.len() {
                assert(before[j as int].0 == key@);
                assert(key_index(before, key@) == j);
            } else {
                assert(key_index(before, key@) == -1);
            }
        }
        if j < members.len() {
            members.set(j, (key, entry));
            proof {
                assert(member_view(members@) =~= before.update(j as int, p));
            }
        } else {
            members.push((key, entry));
            proof {
                assert(member_view(members@) =~= before.push(p));
            }
        }
        k = k + 1;
    }
    let text = mysql_json_object_text(members.as_slice());
    proof {
        let ms = member_view(members@);
        assert(constructed_entries(members@) =~= Seq::new(
            ms.len(),
            |i: int| (encode_utf8(ms[i].0), json_quoted(ms[i].0) + seq![':', ' '] + ms[i].1),
        ));
    }
    Some(Ok(text))
}

/// The upper-case hexadecimal digits of `n` (`{:X}`).
fn hex_of_u64(n: u64) -> (r: String)
    ensures
        r@ == upper_hex_digits(n as nat),
{
    let mut digits: Vec<char> = Vec::new();
    let mut m: u64 = n;
    // Least significant digit first, then reversed.
    while m >= 16
        invariant
            upper_hex_digits(n as nat) == upper_hex_digits(m as nat) + digits@.reverse(),
        decreases m,
    {
        let d = (m % 16) as u8;
        let c = if d < 10 { (d + 48) as char } else { (d + 55) as char };
        proof {
            assert(c == hex_digit((m % 16) as int));
            assert(upper_hex_digits(m as nat) == upper_hex_digits((m / 16) as nat).push(c));
            assert(digits@.push(c).reverse() =~= seq![c] + digits@.reverse());
            assert(upper_hex_digits((m / 16) as nat).push(c) + digits@.reverse() =~= upper_hex_digits((m / 16) as nat)
                + (seq![c] + digits@.reverse()));
        }
        digits.push(c);
        m = m / 16;
    }
    let d = m as u8;
    let c = if d < 10 { (d + 48) as char } else { (d + 55) as char };
    digits.push(c);
    proof {
        assert(c == hex_digit(m as int));
        assert(digits@.reverse() =~= seq![c] + digits@.drop_last().reverse());
    }
    let mut out: Vec<char> = Vec::new();
    let mut i: usize = digits.len();
    while i > 0
        invariant
            i <= digits@.len(),
            out@ == digits@.subrange(i as int, digits@.len() as int).reverse(),
        decreases i,
    {
        i = i - 1;
        out.push(digits[i]);
        proof {
            assert(out@ =~= digits@.subrange(i as int, digits@.len() as int).reverse());
        }
    }
    proof {
        assert(digits@.subrange(0, digits@.len() as int) =~= digits@);
    }
    string_of(out.as_slice())
}

/// The index of the first `.` in a text, or -1.
pub open spec fn first_point(t: Seq<char>) -> int
    decreases t.len(),
{
    if t.len() == 0 {
        -1
    } else if first_point(t.drop_last()) >= 0 {
        first_point(t.drop_last())
    } else if t.last() == '.' {
        t.len() - 1
    } else {
        -1
    }
}

/// A text without its trailing zeros.
pub open spec fn without_trailing_zeros(t: Seq<char>) -> Seq<char>
    decreases t.len(),
{
    if t.len() > 0 && t.last() == '0' {
        without_trailing_zeros(t.drop_last())
    } else {
        t
    }
}

/// The fraction a number's text carries: what follows its first point,
/// trailing zeros dropped; `None` when that leaves nothing.
pub open spec fn fraction_of(t: Seq<char>) -> Option<Seq<char>> {
    if first_point(t) < 0 {
        None
    } else {
        let f = without_trailing_zeros(t.skip(first_point(t) + 1));
        if f.len() == 0 {
            None
        } else {
            Some(f)
        }
    }
}

/// The fraction a number's text carries, which `SEC_TO_TIME` and
/// `MAKETIME` keep after the whole seconds.
pub fn fraction_digits(text: &str) -> (r: Option<String>)
    ensures
        match r {
            Some(f) => fraction_of(text@) == Some(f@),
            None => fraction_of(text@) is None,
        },
{
    let chars = chars_of(text);
    let mut i: usize = 0;
    while i < chars.len() && chars[i] != '.'
        invariant
            i <= chars@.len(),
            forall|k: int| 0 <= k < i ==> chars@[k] != '.',
        decreases chars@.len() - i,
    {
        i = i + 1;
    }
    proof {
        lemma_first_point(chars@, i as int);
    }
    if i == chars.len() {
        return None;
    }
    let mut end: usize = chars.len();
    assert(chars@.subrange(i + 1, end as int) =~= chars@.skip(i + 1));
    while end > i + 1 && chars[end - 1] == '0'
        invariant
            i + 1 <= end <= chars@.len(),
            without_trailing_zeros(chars@.skip(i + 1)) == without_trailing_zeros(chars@.subrange(i + 1, end as int)),
        decreases end,
    {
        proof {
            assert(chars@.subrange(i + 1, end as int).drop_last() =~= chars@.subrange(i + 1, end - 1));
        }
        end = end - 1;
    }
    if end == i + 1 {
        proof {
            assert(chars@.subrange(i + 1, end as int).len() == 0);
        }
        return None;
    }
    let kept = crate::chars::slice_chars(chars.as_slice(), i + 1, end);
    Some(string_of(kept.as_slice()))
}

/// `first_point` is the first index of a `.`.
proof fn lemma_first_point(t: Seq<char>, i: int)
    requires
        0 <= i <= t.len(),
        forall|k: int| 0 <= k < i ==> t[k] != '.',
        i < t.len() ==> t[i] == '.',
    ensures
        first_point(t) == (if i == t.len() { -1 } else { i }),
    decreases t.len(),
{
    if t.len() > 0 {
        if i < t.len() {
            if i < t.len() - 1 {
                lemma_first_point(t.drop_last(), i);
            } else {
                lemma_first_point(t.drop_last(), t.len() - 1);
            }
        } else {
            lemma_first_point(t.drop_last(), t.len() - 1);
        }
    }
}

/// A time text with the fraction its argument carried appended.
pub open spec fn with_fraction(time: Seq<char>, fraction: Option<Seq<char>>) -> Seq<char> {
    match fraction {
        Some(f) => time + seq!['.'] + f,
        None => time,
    }
}

/// `SEC_TO_TIME` of whole seconds, keeping the fraction the argument
/// carried (`SEC_TO_TIME(1.5)` is `00:00:01.5`).
pub fn sec_to_time_text(seconds: i64, fraction: Option<String>) -> (r: String)
    ensures
        r@ == with_fraction(seconds_time_text(seconds as int), match fraction {
            Some(f) => Some(f@),
            None => None,
        }),
{
    let time = seconds_time(seconds);
    append_fraction(time, fraction)
}

/// `MAKETIME` of whole hours, minutes and seconds, keeping the fraction the
/// seconds argument carried (`MAKETIME(12, 15, 30.5)` is `12:15:30.5`).
pub fn make_time_text_with_fraction(hour: i64, minute: i64, second: i64, fraction: Option<String>) -> (r: Option<String>)
    ensures
        match r {
            Some(t) => make_time_text(hour as int, minute as int, second as int) matches Some(base) && t@
                == with_fraction(base, match fraction {
                Some(f) => Some(f@),
                None => None,
            }),
            None => make_time_text(hour as int, minute as int, second as int) is None,
        },
{
    match make_time(hour, minute, second) {
        Some(t) => Some(append_fraction(t, fraction)),
        None => None,
    }
}

/// A text with `.` and a fraction appended, where there is one.
fn append_fraction(time: String, fraction: Option<String>) -> (r: String)
    ensures
        r@ == with_fraction(time@, match fraction {
            Some(f) => Some(f@),
            None => None,
        }),
{
    match fraction {
        Some(f) => {
            let mut out = chars_of(time.as_str());
            out.push('.');
            let digits = chars_of(f.as_str());
            crate::chars::push_all(&mut out, digits.as_slice());
            string_of(out.as_slice())
        },
        None => time,
    }
}

} // verus!
