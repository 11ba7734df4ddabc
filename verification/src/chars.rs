//! Text as sequences of characters: the std conversions, decimal
//! rendering and reading, and trimming, each with its contract.
use vstd::prelude::*;

verus! {

/// The characters of a string (`str::chars`).
#[verifier::external_body]
pub(crate) fn chars_of(text: &str) -> (r: Vec<char>)
    ensures
        r@ == text@,
{
    text.chars().collect()
}

/// A string of the given characters (`FromIterator<char>` for `String`).
#[verifier::external_body]
pub(crate) fn string_of(chars: &[char]) -> (r: String)
    ensures
        r@ == chars@,
{
    chars.iter().collect()
}

/// The character of one decimal digit.
pub open spec fn digit_char(d: int) -> char {
    (d + 48) as char
}

/// The decimal digits of `n`, without leading zeros ("0" for zero).
pub open spec fn decimal(n: nat) -> Seq<char>
    decreases n,
{
    if n < 10 {
        seq![digit_char(n as int)]
    } else {
        decimal(n / 10).push(digit_char((n % 10) as int))
    }
}

/// `count` zero characters.
pub open spec fn zeros(count: int) -> Seq<char> {
    Seq::new(if count > 0 { count as nat } else { 0 }, |i: int| '0')
}

/// The decimal digits of `n` left-padded with zeros to `width` (Rust's
/// `{:0width$}` of an unsigned value).
pub open spec fn padded(n: nat, width: int) -> Seq<char> {
    zeros(width - decimal(n).len()) + decimal(n)
}

/// Rust's `{:0width$}` of a signed value: the sign, then zeros, then the
/// digits of the magnitude, `width` characters at least.
pub open spec fn signed_padded(v: int, width: int) -> Seq<char> {
    if v < 0 {
        seq!['-'] + zeros(width - 1 - decimal((-v) as nat).len()) + decimal((-v) as nat)
    } else {
        padded(v as nat, width)
    }
}

/// Rust's `{}` of a signed value.
pub open spec fn signed_decimal(v: int) -> Seq<char> {
    if v < 0 { seq!['-'] + decimal((-v) as nat) } else { decimal(v as nat) }
}

/// The number of decimal digits of `n`.
pub fn digit_count(n: u64) -> (r: usize)
    ensures
        r == decimal(n as nat).len(),
        1 <= r <= 20,
    decreases n,
{
    proof {
        assert(pow10(20) == 100000000000000000000) by {
            reveal_with_fuel(pow10, 21);
        }
        lemma_decimal_len(n as nat, 20);
    }
    if n < 10 {
        1
    } else {
        digit_count(n / 10) + 1
    }
}

/// Ten to the `k`.
pub open spec fn pow10(k: nat) -> nat
    decreases k,
{
    if k == 0 { 1 } else { 10 * pow10((k - 1) as nat) }
}

/// A number below ten to the `k` has at most `k` digits.
pub proof fn lemma_decimal_len(n: nat, k: nat)
    requires
        n < pow10(k),
    ensures
        1 <= decimal(n).len() <= (if k == 0 { 1 } else { k }),
    decreases n,
{
    if n >= 10 {
        assert(k >= 1) by {
            if k == 0 {
                assert(pow10(0) == 1);
            }
        }
        assert(n / 10 < pow10((k - 1) as nat));
        lemma_decimal_len(n / 10, (k - 1) as nat);
        if k == 1 {
            assert(pow10(1) == 10) by {
                reveal_with_fuel(pow10, 2);
            }
        }
    }
}

/// Appends the decimal digits of `n`.
pub fn push_decimal(out: &mut Vec<char>, n: u64)
    ensures
        final(out)@ == old(out)@ + decimal(n as nat),
    decreases n,
{
    if n >= 10 {
        push_decimal(out, n / 10);
    }
    let d = (n % 10) as u8;
    out.push((d + 48) as char);
    proof {
        if n >= 10 {
            assert(out@ =~= old(out)@ + decimal((n / 10) as nat).push(digit_char((n % 10) as int)));
        } else {
            assert(out@ =~= old(out)@ + decimal(n as nat));
        }
    }
}

/// A padded number is at least `width` characters long.
pub proof fn lemma_padded_len(n: nat, width: int)
    ensures
        padded(n, width).len() >= width,
        padded(n, width).len() >= decimal(n).len(),
{
}

/// Appends `n` zero-padded to `width` digits.
pub fn push_padded(out: &mut Vec<char>, n: u64, width: usize)
    ensures
        final(out)@ == old(out)@ + padded(n as nat, width as int),
{
    let count = digit_count(n);
    let mut i: usize = count;
    while i < width
        invariant
            count <= i,
            i <= width || i == count,
            out@ == old(out)@ + zeros(i - count),
        decreases width - i,
    {
        out.push('0');
        i = i + 1;
        assert(out@ =~= old(out)@ + zeros(i - count));
    }
    let ghost mid = out@;
    push_decimal(out, n);
    assert(zeros(i - count) =~= zeros(width - count));
    assert(out@ =~= old(out)@ + padded(n as nat, width as int));
}

/// Appends a signed value zero-padded to `width` characters, sign included.
pub fn push_signed_padded(out: &mut Vec<char>, v: i64, width: usize)
    requires
        v > i64::MIN,
        width >= 1,
    ensures
        final(out)@ == old(out)@ + signed_padded(v as int, width as int),
{
    if v < 0 {
        out.push('-');
        let magnitude = (-v) as u64;
        let ghost after_sign = out@;
        push_padded(out, magnitude, width - 1);
        assert(out@ =~= old(out)@ + signed_padded(v as int, width as int));
    } else {
        push_padded(out, v as u64, width);
    }
}

/// Appends the decimal text of a signed value.
pub fn push_signed_decimal(out: &mut Vec<char>, v: i64)
    requires
        v > i64::MIN,
    ensures
        final(out)@ == old(out)@ + signed_decimal(v as int),
{
    if v < 0 {
        out.push('-');
        push_decimal(out, (-v) as u64);
        assert(out@ =~= old(out)@ + signed_decimal(v as int));
    } else {
        push_decimal(out, v as u64);
    }
}

/// Appends every character of `src`.
pub fn push_all(out: &mut Vec<char>, src: &[char])
    ensures
        final(out)@ == old(out)@ + src@,
{
    let mut i: usize = 0;
    while i < src.len()
        invariant
            i <= src@.len(),
            out@ == old(out)@ + src@.subrange(0, i as int),
        decreases src@.len() - i,
    {
        out.push(src[i]);
        i = i + 1;
        assert(out@ =~= old(out)@ + src@.subrange(0, i as int));
    }
    assert(src@.subrange(0, src@.len() as int) =~= src@);
}

/// Unicode `White_Space`, which `char::is_whitespace` tests.
pub open spec fn is_white_space(c: char) -> bool {
    let v = c as u32;
    (9 <= v <= 13) || v == 32 || v == 0x85 || v == 0xA0 || v == 0x1680 || (0x2000 <= v <= 0x200A)
        || v == 0x2028 || v == 0x2029 || v == 0x202F || v == 0x205F || v == 0x3000
}

/// `char::is_whitespace`.
pub fn white_space(c: char) -> (r: bool)
    ensures
        r == is_white_space(c),
{
    let v = c as u32;
    (9 <= v && v <= 13) || v == 32 || v == 0x85 || v == 0xA0 || v == 0x1680 || (0x2000 <= v && v
        <= 0x200A) || v == 0x2028 || v == 0x2029 || v == 0x202F || v == 0x205F || v == 0x3000
}

/// The number of leading white-space characters.
pub open spec fn leading_space(s: Seq<char>) -> nat
    decreases s.len(),
{
    if s.len() > 0 && is_white_space(s[0]) { 1 + leading_space(s.drop_first()) } else { 0 }
}

/// The number of trailing white-space characters.
pub open spec fn trailing_space(s: Seq<char>) -> nat
    decreases s.len(),
{
    if s.len() > 0 && is_white_space(s.last()) { 1 + trailing_space(s.drop_last()) } else { 0 }
}

/// `str::trim_start`.
pub open spec fn trim_start(s: Seq<char>) -> Seq<char> {
    s.subrange(leading_space(s) as int, s.len() as int)
}

/// `str::trim`: white space removed from both ends.
pub open spec fn trimmed(s: Seq<char>) -> Seq<char> {
    let t = trim_start(s);
    t.subrange(0, t.len() - trailing_space(t))
}

proof fn lemma_leading_bound(s: Seq<char>)
    ensures
        leading_space(s) <= s.len(),
    decreases s.len(),
{
    if s.len() > 0 && is_white_space(s[0]) {
        lemma_leading_bound(s.drop_first());
    }
}

proof fn lemma_trailing_bound(s: Seq<char>)
    ensures
        trailing_space(s) <= s.len(),
    decreases s.len(),
{
    if s.len() > 0 && is_white_space(s.last()) {
        lemma_trailing_bound(s.drop_last());
    }
}

/// The index of the first character that is not white space.
pub fn leading_space_count(s: &[char]) -> (r: usize)
    ensures
        r == leading_space(s@),
        r <= s@.len(),
{
    let mut i: usize = 0;
    assert(s@.subrange(0, s@.len() as int) =~= s@);
    while i < s.len() && white_space(s[i])
        invariant
            i <= s@.len(),
            leading_space(s@) == i + leading_space(s@.subrange(i as int, s@.len() as int)),
        decreases s@.len() - i,
    {
        proof {
            let t = s@.subrange(i as int, s@.len() as int);
            assert(t.drop_first() =~= s@.subrange(i + 1, s@.len() as int));
        }
        i = i + 1;
    }
    proof {
        let t = s@.subrange(i as int, s@.len() as int);
        assert(t.len() == 0 || !is_white_space(t[0]));
        assert(s@.subrange(0, s@.len() as int) =~= s@);
    }
    i
}

/// The number of trailing white-space characters.
pub fn trailing_space_count(s: &[char]) -> (r: usize)
    ensures
        r == trailing_space(s@),
        r <= s@.len(),
{
    let mut n: usize = s.len();
    assert(s@.subrange(0, s@.len() as int) =~= s@);
    while n > 0 && white_space(s[n - 1])
        invariant
            n <= s@.len(),
            trailing_space(s@) == (s@.len() - n) + trailing_space(s@.subrange(0, n as int)),
        decreases n,
    {
        proof {
            let t = s@.subrange(0, n as int);
            assert(t.drop_last() =~= s@.subrange(0, n - 1));
        }
        n = n - 1;
    }
    (s.len() - n) as usize
}

/// A copy of `s[start..end]`.
pub fn slice_chars(s: &[char], start: usize, end: usize) -> (r: Vec<char>)
    requires
        start <= end <= s@.len(),
    ensures
        r@ == s@.subrange(start as int, end as int),
{
    let mut r: Vec<char> = Vec::new();
    let mut i: usize = start;
    while i < end
        invariant
            start <= i <= end,
            end <= s@.len(),
            r@ == s@.subrange(start as int, i as int),
        decreases end - i,
    {
        r.push(s[i]);
        i = i + 1;
        assert(r@ =~= s@.subrange(start as int, i as int));
    }
    r
}

/// `str::trim`.
pub fn trim(s: &[char]) -> (r: Vec<char>)
    ensures
        r@ == trimmed(s@),
{
    let start = leading_space_count(s);
    let rest = slice_chars(s, start, s.len());
    let tail = trailing_space_count(rest.as_slice());
    slice_chars(rest.as_slice(), 0, rest.len() - tail)
}

/// `str::trim_start`.
pub fn trim_leading(s: &[char]) -> (r: Vec<char>)
    ensures
        r@ == trim_start(s@),
{
    let start = leading_space_count(s);
    slice_chars(s, start, s.len())
}

/// Whether a character is an ASCII digit.
pub open spec fn is_digit(c: char) -> bool {
    '0' <= c <= '9'
}

/// Whether every character is an ASCII digit.
pub open spec fn all_digits(s: Seq<char>) -> bool {
    forall|i: int| 0 <= i < s.len() ==> is_digit(#[trigger] s[i])
}

/// The value of a run of ASCII digits.
pub open spec fn digits_value(s: Seq<char>) -> nat
    decreases s.len(),
{
    if s.len() == 0 {
        0
    } else {
        digits_value(s.drop_last()) * 10 + ((s.last() as u32) - 48) as nat
    }
}

/// What Rust's integer `FromStr` reads: an optional sign, then one or more
/// ASCII digits and nothing else.
pub open spec fn integer_text(s: Seq<char>) -> Option<int> {
    if s.len() == 0 {
        None
    } else {
        let negative = s[0] == '-';
        let body = if s[0] == '-' || s[0] == '+' { s.drop_first() } else { s };
        if body.len() == 0 || !all_digits(body) {
            None
        } else if negative {
            Some(-(digits_value(body) as int))
        } else {
            Some(digits_value(body) as int)
        }
    }
}

/// `i32::from_str`: `None` for malformed text and for values outside `i32`.
pub open spec fn i32_text(s: Seq<char>) -> Option<i32> {
    match integer_text(s) {
        Some(v) => if i32::MIN <= v <= i32::MAX { Some(v as i32) } else { None },
        None => None,
    }
}

/// The digits' value, saturated at `cap`.
pub fn saturated_digits(s: &[char], cap: u64) -> (r: (bool, u64))
    requires
        cap <= 0x1_0000_0000u64,
    ensures
        r.0 == all_digits(s@),
        r.0 ==> r.1 == (if digits_value(s@) > cap { cap as nat } else { digits_value(s@) }),
{
    let mut acc: u64 = 0;
    let mut i: usize = 0;
    while i < s.len()
        invariant
            i <= s@.len(),
            cap <= 0x1_0000_0000u64,
            all_digits(s@.subrange(0, i as int)),
            acc == (if digits_value(s@.subrange(0, i as int)) > cap { cap as nat } else {
                digits_value(s@.subrange(0, i as int))
            }),
        decreases s@.len() - i,
    {
        let c = s[i];
        if !('0' <= c && c <= '9') {
            proof {
                assert(!is_digit(s@[i as int]));
            }
            return (false, 0);
        }
        let d = (c as u32 - 48) as u64;
        let ghost prev = digits_value(s@.subrange(0, i as int));
        let next = acc * 10 + d;
        acc = if next > cap { cap } else { next };
        proof {
            let t = s@.subrange(0, i + 1);
            assert(t.drop_last() =~= s@.subrange(0, i as int));
            assert(digits_value(t) == prev * 10 + d);
            assert(all_digits(t)) by {
                assert forall|j: int| 0 <= j < t.len() implies is_digit(#[trigger] t[j]) by {
                    if j < i {
                        assert(t[j] == s@.subrange(0, i as int)[j]);
                    }
                }
            }
        }
        i = i + 1;
    }
    assert(s@.subrange(0, s@.len() as int) =~= s@);
    (true, acc)
}

/// `i32::from_str` over characters.
pub fn parse_i32(s: &[char]) -> (r: Option<i32>)
    ensures
        r == i32_text(s@),
{
    if s.len() == 0 {
        return None;
    }
    let negative = s[0] == '-';
    let signed = s[0] == '-' || s[0] == '+';
    let body = if signed { slice_chars(s, 1, s.len()) } else { slice_chars(s, 0, s.len()) };
    proof {
        if signed {
            assert(body@ =~= s@.drop_first());
        } else {
            assert(body@ =~= s@);
        }
    }
    if body.len() == 0 {
        return None;
    }
    let (ok, value) = saturated_digits(body.as_slice(), 0x8000_0001u64);
    if !ok {
        return None;
    }
    if negative {
        if value > 0x8000_0000u64 {
            None
        } else {
            Some((-(value as i64)) as i32)
        }
    } else {
        if value > 0x7fff_ffffu64 {
            None
        } else {
            Some(value as i32)
        }
    }
}

/// `i64::from_str`: `None` for malformed text and for values outside `i64`.
pub open spec fn i64_text(s: Seq<char>) -> Option<int> {
    match integer_text(s) {
        Some(v) => if i64::MIN <= v <= i64::MAX { Some(v) } else { None },
        None => None,
    }
}

/// The digits' value, saturated at `cap`, in 128 bits.
fn saturated_digits_wide(s: &[char], cap: u128) -> (r: (bool, u128))
    requires
        cap <= 0x1_0000_0000_0000_0000u128,
    ensures
        r.0 == all_digits(s@),
        r.0 ==> r.1 == (if digits_value(s@) > cap { cap as nat } else { digits_value(s@) }),
{
    let mut acc: u128 = 0;
    let mut i: usize = 0;
    while i < s.len()
        invariant
            i <= s@.len(),
            cap <= 0x1_0000_0000_0000_0000u128,
            all_digits(s@.subrange(0, i as int)),
            acc == (if digits_value(s@.subrange(0, i as int)) > cap { cap as nat } else {
                digits_value(s@.subrange(0, i as int))
            }),
        decreases s@.len() - i,
    {
        let c = s[i];
        if !('0' <= c && c <= '9') {
            proof {
                assert(!is_digit(s@[i as int]));
            }
            return (false, 0);
        }
        let d = (c as u32 - 48) as u128;
        let ghost prev = digits_value(s@.subrange(0, i as int));
        let next = acc * 10 + d;
        acc = if next > cap { cap } else { next };
        proof {
            let t = s@.subrange(0, i + 1);
            assert(t.drop_last() =~= s@.subrange(0, i as int));
            assert(digits_value(t) == prev * 10 + d);
            assert(all_digits(t)) by {
                assert forall|j: int| 0 <= j < t.len() implies is_digit(#[trigger] t[j]) by {
                    if j < i {
                        assert(t[j] == s@.subrange(0, i as int)[j]);
                    }
                }
            }
        }
        i = i + 1;
    }
    assert(s@.subrange(0, s@.len() as int) =~= s@);
    (true, acc)
}

/// `i64::from_str` over characters.
pub fn parse_i64(s: &[char]) -> (r: Option<i64>)
    ensures
        r matches Some(v) ==> i64_text(s@) == Some(v as int),
        r is None ==> i64_text(s@) is None,
{
    if s.len() == 0 {
        return None;
    }
    let negative = s[0] == '-';
    let signed = s[0] == '-' || s[0] == '+';
    let body = if signed { slice_chars(s, 1, s.len()) } else { slice_chars(s, 0, s.len()) };
    proof {
        if signed {
            assert(body@ =~= s@.drop_first());
        } else {
            assert(body@ =~= s@);
        }
    }
    if body.len() == 0 {
        return None;
    }
    let (ok, value) = saturated_digits_wide(body.as_slice(), 0x8000_0000_0000_0001u128);
    if !ok {
        return None;
    }
    if negative {
        if value > 0x8000_0000_0000_0000u128 {
            None
        } else if value == 0x8000_0000_0000_0000u128 {
            Some(i64::MIN)
        } else {
            Some(-(value as i64))
        }
    } else {
        if value > 0x7fff_ffff_ffff_ffffu128 {
            None
        } else {
            Some(value as i64)
        }
    }
}

} // verus!
