//! `MySQL` `TIME` values as text: rounding a fraction to the declared
//! precision, the ±838:59:59 clamp, and `CAST(... AS TIME)` of datetime,
//! `[days ]h:m[:s][.f]` and compact `HHMMSS` texts.

use crate::chars::{
    all_digits, chars_of, digits_value, integer_text, is_digit, padded, pow10, push_padded,
    slice_chars, string_of, trim, trimmed,
};
use crate::interval::{mysql_datetime_of, parse_mysql_datetime};
use crate::parts::ascii_value;
use crate::zone::{find_char, first_index};
use vstd::prelude::*;
use vstd::string::StringSliceAdditionalSpecFns;

verus! {

/// The largest `TIME`, 838:59:59, in seconds.
pub const MAX_TIME_SECONDS: u64 = 3020399;

/// The precision a `TIME` is rendered at: at most 6.
pub open spec fn time_precision(fsp: int) -> int {
    if fsp > 6 { 6 } else { fsp }
}

/// The seconds and fraction units of a `TIME` at precision `f`: the
/// fraction cut to `f` digits and rounded half up on the next byte, a full
/// second carried, and anything past 838:59:59 clamped there; `None` when a
/// kept fraction byte is not a digit or the seconds overflow `u64`.
pub open spec fn time_fields(hours: int, minutes: int, seconds: int, fraction: Seq<u8>, f: int) -> Option<(int, int)> {
    let present = if fraction.len() < f { fraction.len() as int } else { f };
    let total0 = hours * 3600 + minutes * 60 + seconds;
    match ascii_value(fraction.take(present)) {
        None => None,
        Some(kept) => {
            let units1 = kept * pow10((f - present) as nat) + if fraction.len() > f && fraction[f] >= 53 { 1int } else { 0int };
            let carry = units1 == pow10(f as nat);
            let total1 = if carry { total0 + 1 } else { total0 };
            let units2 = if carry { 0 } else { units1 };
            if total0 > u64::MAX || total1 > u64::MAX {
                None
            } else if total1 > MAX_TIME_SECONDS || (total1 == MAX_TIME_SECONDS && units2 != 0) {
                Some((MAX_TIME_SECONDS as int, 0))
            } else {
                Some((total1, units2))
            }
        },
    }
}

/// `[-]hh:mm:ss[.f…]`, the sign only for a non-zero value.
pub open spec fn time_rendered(negative: bool, total: int, units: int, f: int) -> Seq<char> {
    let sign = if negative && (total != 0 || units != 0) { seq!['-'] } else { Seq::empty() };
    sign + padded((total / 3600) as nat, 2) + seq![':'] + padded((total / 60 % 60) as nat, 2) + seq![':']
        + padded((total % 60) as nat, 2) + if f == 0 {
        Seq::empty()
    } else {
        seq!['.'] + padded(units as nat, f)
    }
}

/// A `TIME` from its fields and fraction digits (bytes) at precision `fsp`.
pub open spec fn time_text(negative: bool, hours: int, minutes: int, seconds: int, fraction: Seq<u8>, fsp: int) -> Option<Seq<char>> {
    match time_fields(hours, minutes, seconds, fraction, time_precision(fsp)) {
        None => None,
        Some((total, units)) => Some(time_rendered(negative, total, units, time_precision(fsp))),
    }
}

fn fraction_value(fraction: &[u8], present: usize) -> (r: Option<u64>)
    requires
        present <= 6,
        present <= fraction@.len(),
    ensures
        r matches Some(v) ==> ascii_value(fraction@.take(present as int)) == Some(v as nat) && v < pow10(present as nat),
        r is None ==> ascii_value(fraction@.take(present as int)) is None,
{
    let mut value: u64 = 0;
    let mut i: usize = 0;
    while i < present
        invariant
            i <= present <= 6,
            present <= fraction@.len(),
            ascii_value(fraction@.take(i as int)) == Some(value as nat),
            value < pow10(i as nat),
        decreases present - i,
    {
        let b = fraction[i];
        proof {
            assert(fraction@.take(i + 1).drop_last() =~= fraction@.take(i as int));
            assert(fraction@.take(i + 1).last() == b);
        }
        if b < 48 || b > 57 {
            proof {
                lemma_no_value_extends(fraction@.take(present as int), i as int + 1);
                assert(fraction@.take(present as int).subrange(0, i + 1) =~= fraction@.take(i + 1));
            }
            return None;
        }
        proof {
            lemma_pow_small(i as nat);
        }
        value = value * 10 + (b - 48) as u64;
        i = i + 1;
    }
    Some(value)
}

proof fn lemma_pow_small(i: nat)
    requires
        i <= 6,
    ensures
        pow10(i) <= 1000000,
        pow10(i + 1) == 10 * pow10(i),
{
    reveal_with_fuel(pow10, 8);
}

proof fn lemma_no_value_extends(s: Seq<u8>, k: int)
    requires
        0 <= k <= s.len(),
        ascii_value(s.subrange(0, k)) is None,
    ensures
        ascii_value(s) is None,
    decreases s.len() - k,
{
    if k < s.len() {
        assert(s.subrange(0, k + 1).drop_last() =~= s.subrange(0, k));
        lemma_no_value_extends(s, k + 1);
    } else {
        assert(s.subrange(0, k) =~= s);
    }
}

fn ten_to(k: usize) -> (r: u64)
    requires
        k <= 6,
    ensures
        r == pow10(k as nat),
{
    proof {
        reveal_with_fuel(pow10, 7);
    }
    if k == 0 { 1 } else if k == 1 { 10 } else if k == 2 { 100 } else if k == 3 { 1000 } else if k == 4 { 10000 } else if k == 5 { 100000 } else { 1000000 }
}

fn time_values(hours: u64, minutes: u64, seconds: u64, fraction: &[u8], f: usize) -> (r: Option<(u64, u64)>)
    requires
        f <= 6,
    ensures
        r matches Some((t, u)) ==> time_fields(hours as int, minutes as int, seconds as int, fraction@, f as int) == Some((t as int, u as int)),
        r is None ==> time_fields(hours as int, minutes as int, seconds as int, fraction@, f as int) is None,
{
    let scale = ten_to(f);
    let present: usize = if fraction.len() < f { fraction.len() } else { f };
    let kept = match fraction_value(fraction, present) {
        Some(v) => v,
        None => return None,
    };
    let shift = ten_to(f - present);
    proof {
        lemma_pow_split(present as nat, (f - present) as nat);
        lemma_pow_small(f as nat);
    }
    assert(kept * shift < pow10(f as nat)) by (nonlinear_arith)
        requires
            kept < pow10(present as nat),
            pow10(f as nat) == pow10(present as nat) * shift,
            shift >= 1,
    ;
    let mut units: u64 = kept * shift;
    if fraction.len() > f && fraction[f] >= 53 {
        units = units + 1;
    }
    let hour_seconds = match hours.checked_mul(3600) {
        Some(v) => v,
        None => return None,
    };
    let minute_seconds = match minutes.checked_mul(60) {
        Some(v) => v,
        None => return None,
    };
    let mut total = match hour_seconds.checked_add(minute_seconds) {
        Some(v) => match v.checked_add(seconds) {
            Some(w) => w,
            None => return None,
        },
        None => return None,
    };
    if units == scale {
        total = match total.checked_add(1) {
            Some(v) => v,
            None => return None,
        };
        units = 0;
    }
    if total > MAX_TIME_SECONDS || (total == MAX_TIME_SECONDS && units != 0) {
        total = MAX_TIME_SECONDS;
        units = 0;
    }
    Some((total, units))
}

/// Renders a `TIME` from its fields and the bytes of its fraction.
pub fn format_time_parts(negative: bool, hours: u64, minutes: u64, seconds: u64, fraction: &[u8], fsp: u8) -> (r: Option<String>)
    ensures
        r matches Some(s) ==> time_text(negative, hours as int, minutes as int, seconds as int, fraction@, fsp as int) == Some(s@),
        r is None ==> time_text(negative, hours as int, minutes as int, seconds as int, fraction@, fsp as int) is None,
{
    let f: usize = if fsp > 6 { 6 } else { fsp as usize };
    let (total, units) = match time_values(hours, minutes, seconds, fraction, f) {
        Some(v) => v,
        None => return None,
    };
    let mut out: Vec<char> = Vec::new();
    if negative && (total != 0 || units != 0) {
        out.push('-');
    }
    push_padded(&mut out, total / 3600, 2);
    out.push(':');
    push_padded(&mut out, total / 60 % 60, 2);
    out.push(':');
    push_padded(&mut out, total % 60, 2);
    if f > 0 {
        out.push('.');
        push_padded(&mut out, units, f);
    }
    assert(out@ =~= time_rendered(negative, total as int, units as int, f as int));
    Some(string_of(out.as_slice()))
}

proof fn lemma_pow_split(a: nat, b: nat)
    ensures
        pow10(a + b) == pow10(a) * pow10(b),
        pow10(b) >= 1,
    decreases b,
{
    if b == 0 {
        assert(pow10(0) == 1);
        assert(a + b == a);
    } else {
        let c = (b - 1) as nat;
        lemma_pow_split(a, c);
        assert(a + b == (a + c) + 1);
        assert(pow10(a + b) == 10 * pow10(a + c));
        assert(pow10(b) == 10 * pow10(c));
        assert(pow10(a) * (10 * pow10(c)) == 10 * (pow10(a) * pow10(c))) by (nonlinear_arith);
    }
}

/// `MySQL`'s rendering of a `TIME` at precision `fsp`, the fraction given
/// as text: rounded half up, clamped to ±838:59:59.
pub fn format_mysql_time(negative: bool, hours: u64, minutes: u64, seconds: u64, fraction: &str, fsp: u8) -> (r: Option<String>)
    ensures
        r matches Some(s) ==> time_text(negative, hours as int, minutes as int, seconds as int, fraction.spec_bytes(), fsp as int) == Some(s@),
        r is None ==> time_text(negative, hours as int, minutes as int, seconds as int, fraction.spec_bytes(), fsp as int) is None,
{
    format_time_parts(negative, hours, minutes, seconds, fraction.as_bytes(), fsp)
}

/// `u64::from_str`: an optional `+`, then one or more ASCII digits, the
/// value within `u64`.
pub open spec fn u64_text(s: Seq<char>) -> Option<int> {
    if s.len() > 0 && s[0] == '-' {
        None
    } else {
        match integer_text(s) {
            Some(v) => if v <= u64::MAX { Some(v) } else { None },
            None => None,
        }
    }
}

/// Whether every character is an ASCII digit.
pub fn digits_only(s: &[char]) -> (r: bool)
    ensures
        r == all_digits(s@),
{
    let mut k: usize = 0;
    while k < s.len()
        invariant
            k <= s@.len(),
            forall|j: int| 0 <= j < k ==> is_digit(#[trigger] s@[j]),
        decreases s@.len() - k,
    {
        if !('0' <= s[k] && s[k] <= '9') {
            assert(!is_digit(s@[k as int]));
            return false;
        }
        k = k + 1;
    }
    true
}

/// `u64::from_str` over characters.
pub fn parse_u64(s: &[char]) -> (r: Option<u64>)
    ensures
        r matches Some(v) ==> u64_text(s@) == Some(v as int),
        r is None ==> u64_text(s@) is None,
{
    let len = s.len();
    if len == 0 || s[0] == '-' {
        return None;
    }
    let start: usize = if s[0] == '+' { 1 } else { 0 };
    let ghost body = if s@[0] == '+' { s@.drop_first() } else { s@ };
    assert(body =~= s@.skip(start as int));
    if start == len {
        return None;
    }
    let mut value: u128 = 0;
    let mut i: usize = start;
    while i < len
        invariant
            len == s@.len(),
            s@.len() > 0,
            s@[0] != '-',
            start == (if s@[0] == '+' { 1int } else { 0int }),
            body == (if s@[0] == '+' { s@.drop_first() } else { s@ }),
            start <= i <= len,
            body == s@.skip(start as int),
            all_digits(s@.subrange(start as int, i as int)),
            value == digits_value(s@.subrange(start as int, i as int)),
            value <= u64::MAX,
        decreases len - i,
    {
        let c = s[i];
        if !('0' <= c && c <= '9') {
            proof {
                assert(body[i - start] == c);
                assert(!is_digit(body[i - start]));
            }
            return None;
        }
        proof {
            let t = s@.subrange(start as int, i + 1);
            assert(t.drop_last() =~= s@.subrange(start as int, i as int));
            assert forall|j: int| 0 <= j < t.len() implies is_digit(#[trigger] t[j]) by {
                if j < t.len() - 1 {
                    assert(t[j] == s@.subrange(start as int, i as int)[j]);
                }
            }
        }
        value = value * 10 + (c as u32 - 48) as u128;
        if value > 18446744073709551615 {
            proof {
                assert(s@.subrange(start as int, i + 1) =~= body.take(i + 1 - start));
                lemma_digits_grow(s@.subrange(start as int, i + 1), body);
            }
            return None;
        }
        i = i + 1;
    }
    assert(s@.subrange(start as int, len as int) =~= body);
    Some(value as u64)
}

proof fn lemma_digits_grow(prefix: Seq<char>, s: Seq<char>)
    requires
        prefix.len() <= s.len(),
        prefix == s.take(prefix.len() as int),
        all_digits(s) || !all_digits(s),
    ensures
        all_digits(s) ==> digits_value(s) >= digits_value(prefix),
    decreases s.len(),
{
    if s.len() > prefix.len() {
        let t = s.drop_last();
        assert(prefix == t.take(prefix.len() as int));
        if all_digits(s) {
            assert(all_digits(t)) by {
                assert forall|j: int| 0 <= j < t.len() implies is_digit(#[trigger] t[j]) by {
                    assert(t[j] == s[j]);
                }
            }
        }
        lemma_digits_grow(prefix, t);
    } else {
        assert(prefix =~= s);
    }
}

/// The hours, minutes and seconds of `h:m:s`, `h:m` or compact `HHMMSS`.
pub open spec fn clock_fields(c: Seq<char>) -> Option<(int, int, int)> {
    match first_index(c, ':') {
        None => if c.len() > 0 && all_digits(c) {
            match u64_text(c) {
                Some(v) => Some((v / 10000, v / 100 % 100, v % 100)),
                None => None,
            }
        } else {
            None
        },
        Some(i) => {
            let a = c.take(i);
            let rest = c.skip(i + 1);
            match first_index(rest, ':') {
                None => match (u64_text(a), u64_text(rest)) {
                    (Some(h), Some(m)) => Some((h, m, 0)),
                    _ => None,
                },
                Some(j) => {
                    let b = rest.take(j);
                    let tail = rest.skip(j + 1);
                    if first_index(tail, ':') is Some {
                        None
                    } else {
                        match (u64_text(a), u64_text(b), u64_text(tail)) {
                            (Some(h), Some(m), Some(sec)) => Some((h, m, sec)),
                            _ => None,
                        }
                    }
                },
            }
        },
    }
}

fn clock_values(c: &[char]) -> (r: Option<(u64, u64, u64)>)
    ensures
        r matches Some((h, m, s)) ==> clock_fields(c@) == Some((h as int, m as int, s as int)),
        r is None ==> clock_fields(c@) is None,
{
    let _len = c.len();
    match find_char(c, ':') {
        None => {
            if c.len() == 0 || !digits_only(c) {
                return None;
            }
            match parse_u64(c) {
                Some(v) => Some((v / 10000, v / 100 % 100, v % 100)),
                None => None,
            }
        },
        Some(i) => {
            let a = slice_chars(c, 0, i);
            let rest = slice_chars(c, i + 1, c.len());
            proof {
                assert(a@ =~= c@.take(i as int));
                assert(rest@ =~= c@.skip(i + 1));
            }
            match find_char(rest.as_slice(), ':') {
                None => match (parse_u64(a.as_slice()), parse_u64(rest.as_slice())) {
                    (Some(h), Some(m)) => Some((h, m, 0)),
                    _ => None,
                },
                Some(j) => {
                    let b = slice_chars(rest.as_slice(), 0, j);
                    let tail = slice_chars(rest.as_slice(), j + 1, rest.len());
                    proof {
                        assert(b@ =~= rest@.take(j as int));
                        assert(tail@ =~= rest@.skip(j + 1));
                    }
                    if find_char(tail.as_slice(), ':').is_some() {
                        return None;
                    }
                    match (parse_u64(a.as_slice()), parse_u64(b.as_slice()), parse_u64(tail.as_slice())) {
                        (Some(h), Some(m), Some(sec)) => Some((h, m, sec)),
                        _ => None,
                    }
                },
            }
        },
    }
}

/// The bytes of an ASCII text.
pub open spec fn ascii_bytes(s: Seq<char>) -> Seq<u8> {
    Seq::new(s.len(), |i: int| s[i] as u8)
}

fn to_ascii_bytes(s: &[char]) -> (r: Vec<u8>)
    ensures
        r@ == ascii_bytes(s@),
{
    let mut out: Vec<u8> = Vec::new();
    let mut i: usize = 0;
    while i < s.len()
        invariant
            i <= s@.len(),
            out@ == ascii_bytes(s@.take(i as int)),
        decreases s@.len() - i,
    {
        out.push(s[i] as u8);
        i = i + 1;
        assert(out@ =~= ascii_bytes(s@.take(i as int)));
    }
    assert(s@.take(s@.len() as int) =~= s@);
    out
}

/// A leading `-` (then a `+`) taken off: whether it was negative, and the
/// rest.
pub open spec fn unsigned_part(t: Seq<char>) -> (bool, Seq<char>) {
    let negative = t.len() > 0 && t[0] == '-';
    let u0 = if negative { t.drop_first() } else { t };
    (negative, if u0.len() > 0 && u0[0] == '+' { u0.drop_first() } else { u0 })
}

/// The text before the first `.` and the text after it (empty without one).
pub open spec fn split_fraction(u: Seq<char>) -> (Seq<char>, Seq<char>) {
    match first_index(u, '.') {
        Some(i) => (u.take(i), u.skip(i + 1)),
        None => (u, Seq::empty()),
    }
}

/// A `days ` prefix taken off: its value (`u64::MAX` when it is not a
/// number) and the clock after it.
pub open spec fn split_days(clock: Seq<char>) -> (int, Seq<char>) {
    match first_index(clock, ' ') {
        Some(i) => (
            match u64_text(clock.take(i)) {
                Some(v) => v,
                None => u64::MAX as int,
            },
            clock.skip(i + 1),
        ),
        None => (0, clock),
    }
}

/// `CAST(text AS TIME)` of a text that is no datetime.
pub open spec fn clock_cast(t: Seq<char>, fsp: int) -> Option<Seq<char>> {
    let (negative, u) = unsigned_part(t);
    let (clock, fraction) = split_fraction(u);
    let (days, rest) = split_days(clock);
    if !all_digits(fraction) {
        None
    } else {
        match clock_fields(rest) {
            None => None,
            Some((h, m, sec)) => if m > 59 || sec > 59 || days == u64::MAX {
                None
            } else if days * 24 + h > u64::MAX {
                None
            } else {
                time_text(negative, days * 24 + h, m, sec, ascii_bytes(fraction), fsp)
            },
        }
    }
}

/// `CAST(text AS TIME)` at precision `fsp`: a datetime text keeps its
/// clock; otherwise an optional sign, optional `days `, then `h:m:s`,
/// `h:m` or compact `HHMMSS`, and an all-digit fraction after a `.`; days
/// fold into the hours.
pub open spec fn cast_time_text(text: Seq<char>, fsp: int) -> Option<Seq<char>> {
    let t = trimmed(text);
    match mysql_datetime_of(t) {
        Ok(dt) => time_text(false, dt.hour as int, dt.minute as int, dt.second as int, ascii_bytes(padded((dt.nanos / 1000) as nat, 6)), fsp),
        Err(_) => clock_cast(t, fsp),
    }
}

fn unsigned_at(t: &[char]) -> (r: (bool, Vec<char>))
    ensures
        r.0 == unsigned_part(t@).0,
        r.1@ == unsigned_part(t@).1,
{
    let negative = t.len() > 0 && t[0] == '-';
    let u0 = if negative { slice_chars(t, 1, t.len()) } else { slice_chars(t, 0, t.len()) };
    let u = if u0.len() > 0 && u0[0] == '+' { slice_chars(u0.as_slice(), 1, u0.len()) } else { slice_chars(u0.as_slice(), 0, u0.len()) };
    proof {
        assert(u0@ =~= (if negative { t@.drop_first() } else { t@ }));
        assert(u@ =~= (if u0@.len() > 0 && u0@[0] == '+' { u0@.drop_first() } else { u0@ }));
    }
    (negative, u)
}

fn fraction_at(u: &[char]) -> (r: (Vec<char>, Vec<char>))
    ensures
        r.0@ == split_fraction(u@).0,
        r.1@ == split_fraction(u@).1,
{
    let _len = u.len();
    match find_char(u, '.') {
        Some(i) => {
            let clock = slice_chars(u, 0, i);
            let fraction = slice_chars(u, i + 1, u.len());
            assert(clock@ =~= u@.take(i as int));
            assert(fraction@ =~= u@.skip(i + 1));
            (clock, fraction)
        },
        None => {
            let clock = slice_chars(u, 0, u.len());
            assert(clock@ =~= u@);
            (clock, Vec::new())
        },
    }
}

fn days_at(clock: &[char]) -> (r: (u64, Vec<char>))
    ensures
        r.0 as int == split_days(clock@).0,
        r.1@ == split_days(clock@).1,
{
    let _len = clock.len();
    match find_char(clock, ' ') {
        Some(i) => {
            let head = slice_chars(clock, 0, i);
            assert(head@ =~= clock@.take(i as int));
            let d = match parse_u64(head.as_slice()) {
                Some(v) => v,
                None => 18446744073709551615u64,
            };
            let rest = slice_chars(clock, i + 1, clock.len());
            assert(rest@ =~= clock@.skip(i + 1));
            (d, rest)
        },
        None => {
            let rest = slice_chars(clock, 0, clock.len());
            assert(rest@ =~= clock@);
            (0u64, rest)
        },
    }
}

fn clock_cast_at(t: &[char], fsp: u8) -> (r: Option<String>)
    ensures
        r matches Some(s) ==> clock_cast(t@, fsp as int) == Some(s@),
        r is None ==> clock_cast(t@, fsp as int) is None,
{
    let (negative, u) = unsigned_at(t);
    let (clock, fraction) = fraction_at(u.as_slice());
    let (days, rest) = days_at(clock.as_slice());
    if !digits_only(fraction.as_slice()) {
        return None;
    }
    let (h, m, sec) = match clock_values(rest.as_slice()) {
        Some(v) => v,
        None => return None,
    };
    if m > 59 || sec > 59 || days == 18446744073709551615u64 {
        return None;
    }
    let hours = match days.checked_mul(24) {
        Some(v) => match v.checked_add(h) {
            Some(w) => w,
            None => return None,
        },
        None => return None,
    };
    let bytes = to_ascii_bytes(fraction.as_slice());
    format_time_parts(negative, hours, m, sec, bytes.as_slice(), fsp)
}

/// `MySQL` `CAST(text AS TIME)`: hours may exceed 23, a day prefix folds
/// into the hours, compact numbers read as `HHMMSS`, and the fraction is
/// rounded to `fsp` before the ±838:59:59 clamp.
pub fn cast_mysql_time(text: &str, fsp: u8) -> (r: Option<String>)
    ensures
        r matches Some(s) ==> cast_time_text(text@, fsp as int) == Some(s@),
        r is None ==> cast_time_text(text@, fsp as int) is None,
{
    let chars = chars_of(text);
    let t = trim(chars.as_slice());
    let ts = string_of(t.as_slice());
    if let Ok(dt) = parse_mysql_datetime(ts.as_str()) {
        let mut digits: Vec<char> = Vec::new();
        push_padded(&mut digits, (dt.nanos / 1000) as u64, 6);
        let bytes = to_ascii_bytes(digits.as_slice());
        return format_time_parts(false, dt.hour as u64, dt.minute as u64, dt.second as u64, bytes.as_slice(), fsp);
    }
    clock_cast_at(t.as_slice(), fsp)
}

} // verus!
