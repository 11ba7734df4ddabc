//! `MySQL`'s text functions over characters: `SUBSTRING`,
//! `SUBSTRING_INDEX`, `LOCATE`, `MAKETIME`, `CONV`, `LPAD`/`RPAD` and
//! `REPEAT`.
use crate::chars::{
    chars_of, decimal, is_white_space, leading_space, padded, push_all, push_padded, slice_chars, string_of, trailing_space, trim, trimmed,
};
use crate::decimal::ExecError;
use vstd::prelude::*;
use vstd::string::StringSliceAdditionalSpecFns;

verus! {

/// `REPEAT`, `SPACE` and pad results are capped at 4096 bytes.
pub const STRING_BUILD_CAP: usize = 4096;

/// `SUBSTRING(value, start, length)` over characters: a positive start
/// counts from 1 at the left, a negative one from the right; start 0 or a
/// length below 1 gives the empty string.
pub open spec fn substring_chars(v: Seq<char>, start: int, length: int) -> Seq<char> {
    if start == 0 || length <= 0 {
        Seq::empty()
    } else {
        let first = if start > 0 { start - 1 } else if v.len() + start > 0 { v.len() + start } else { 0 };
        let from = if first > v.len() { v.len() as int } else { first };
        let to = if from + length > v.len() { v.len() as int } else { from + length };
        v.subrange(from, to)
    }
}

/// `MySQL` `SUBSTRING`.
pub fn mysql_substring(value: &str, start: i64, length: i64) -> (r: String)
    ensures
        r@ == substring_chars(value@, start as int, length as int),
{
    if start == 0 || length <= 0 {
        return String::new();
    }
    let chars = chars_of(value);
    let count = chars.len();
    let first: usize = if start > 0 {
        if (start - 1) as u64 > count as u64 { count } else { (start - 1) as usize }
    } else {
        let back: u64 = if start == i64::MIN { 0x8000_0000_0000_0000u64 } else { (-start) as u64 };
        if back >= count as u64 { 0 } else { count - back as usize }
    };
    let to: usize = if (length as u64) >= (count - first) as u64 { count } else { first + length as usize };
    let part = slice_chars(chars.as_slice(), first, to);
    string_of(part.as_slice())
}

/// Whether `d` occurs in `t` at `i`.
pub open spec fn occurs_at(t: Seq<char>, d: Seq<char>, i: int) -> bool {
    0 <= i && i + d.len() <= t.len() && t.subrange(i, i + d.len()) == d
}

/// The first occurrence of `d` in `t` at or after `from`.
#[verifier::opaque]
pub open spec fn find_from(t: Seq<char>, d: Seq<char>, from: int) -> Option<int> {
    if exists|i: int| from <= i && occurs_at(t, d, i) {
        Some(choose|i: int| from <= i && occurs_at(t, d, i) && forall|j: int| from <= j < i ==> !occurs_at(t, d, j))
    } else {
        None
    }
}

/// The last occurrence of `d` in `t` that ends by `end`.
#[verifier::opaque]
pub open spec fn rfind_before(t: Seq<char>, d: Seq<char>, end: int) -> Option<int> {
    if exists|i: int| i + d.len() <= end && occurs_at(t, d, i) {
        Some(choose|i: int| i + d.len() <= end && occurs_at(t, d, i) && forall|j: int| i < j && j + d.len() <= end ==> !occurs_at(t, d, j))
    } else {
        None
    }
}

/// Where the `k`-th occurrence of `d` from the left starts, scanning past
/// each found occurrence, starting at `from`.
pub open spec fn nth_from_left(t: Seq<char>, d: Seq<char>, k: nat, from: int) -> Option<int>
    decreases k,
{
    match find_from(t, d, from) {
        None => None,
        Some(i) => if k <= 1 { Some(i) } else { nth_from_left(t, d, (k - 1) as nat, i + d.len()) },
    }
}

/// Where the `k`-th occurrence of `d` from the right starts, each found
/// occurrence ending the text searched next.
pub open spec fn nth_from_right(t: Seq<char>, d: Seq<char>, k: nat, end: int) -> Option<int>
    decreases k,
{
    match rfind_before(t, d, end) {
        None => None,
        Some(i) => if k <= 1 { Some(i) } else { nth_from_right(t, d, (k - 1) as nat, i) },
    }
}

/// `SUBSTRING_INDEX`: everything before the `count`-th delimiter from the
/// left, or after the `count`-th from the right when `count` is negative;
/// the whole text when there are fewer delimiters.
pub open spec fn substring_index_chars(t: Seq<char>, d: Seq<char>, count: int) -> Seq<char> {
    if d.len() == 0 || count == 0 {
        Seq::empty()
    } else if count > 0 {
        match nth_from_left(t, d, count as nat, 0) {
            Some(i) => t.subrange(0, i),
            None => t,
        }
    } else {
        match nth_from_right(t, d, (-count) as nat, t.len() as int) {
            Some(i) => t.subrange(i + d.len(), t.len() as int),
            None => t,
        }
    }
}

/// Whether `d` occurs in `t` at `i`.
pub(crate) fn matches_at(t: &[char], d: &[char], i: usize) -> (r: bool)
    requires
        i <= t@.len(),
    ensures
        r == occurs_at(t@, d@, i as int),
{
    let limit = t.len();
    if d.len() > limit - i {
        return false;
    }
    let mut j: usize = 0;
    while j < d.len()
        invariant
            j <= d@.len(),
            limit == t@.len(),
            i + d@.len() <= limit,
            forall|k: int| 0 <= k < j ==> t@[i + k] == d@[k],
        decreases d@.len() - j,
    {
        if t[i + j] != d[j] {
            proof {
                assert(t@.subrange(i as int, i + d@.len())[j as int] != d@[j as int]);
            }
            return false;
        }
        j = j + 1;
    }
    assert(t@.subrange(i as int, i + d@.len()) =~= d@);
    true
}

/// The first occurrence of `d` at or after `from`.
pub(crate) fn find_chars(t: &[char], d: &[char], from: usize) -> (r: Option<usize>)
    requires
        from <= t@.len(),
    ensures
        r matches Some(i) ==> find_from(t@, d@, from as int) == Some(i as int) && i + d@.len() <= t@.len() && from <= i,
        r is None ==> find_from(t@, d@, from as int) is None,
{
    let mut i: usize = from;
    loop
        invariant
            from <= i <= t@.len(),
            forall|j: int| from <= j < i ==> !occurs_at(t@, d@, j),
        decreases t@.len() - i,
    {
        if matches_at(t, d, i) {
            proof {
                reveal(find_from);
                lemma_first_occurrence(t@, d@, from as int, i as int);
            }
            return Some(i);
        }
        if i == t.len() {
            proof {
                reveal(find_from);
                assert forall|j: int| from <= j implies !occurs_at(t@, d@, j) by {
                    if j > t@.len() {
                        assert(!occurs_at(t@, d@, j));
                    }
                }
            }
            return None;
        }
        i = i + 1;
    }
}

/// The least occurrence at or after `from` is the one `choose` picks.
proof fn lemma_first_occurrence(t: Seq<char>, d: Seq<char>, from: int, i: int)
    requires
        from <= i,
        occurs_at(t, d, i),
        forall|j: int| from <= j < i ==> !occurs_at(t, d, j),
    ensures
        find_from(t, d, from) == Some(i),
{
    reveal(find_from);
    let w = choose|k: int| from <= k && occurs_at(t, d, k) && forall|j: int| from <= j < k ==> !occurs_at(t, d, j);
    if w < i {
        assert(!occurs_at(t, d, w));
    } else if w > i {
        assert(!occurs_at(t, d, i));
    }
}

/// The greatest occurrence ending by `end` is the one `choose` picks.
proof fn lemma_last_occurrence(t: Seq<char>, d: Seq<char>, end: int, i: int)
    requires
        i + d.len() <= end,
        occurs_at(t, d, i),
        forall|j: int| i < j && j + d.len() <= end ==> !occurs_at(t, d, j),
    ensures
        rfind_before(t, d, end) == Some(i),
{
    reveal(rfind_before);
    let w = choose|k: int| k + d.len() <= end && occurs_at(t, d, k) && forall|j: int| k < j && j + d.len() <= end ==> !occurs_at(t, d, j);
    if w < i {
        assert(!occurs_at(t, d, i));
    } else if w > i {
        assert(!occurs_at(t, d, w));
    }
}

/// The last occurrence of `d` ending by `end`.
fn rfind_chars(t: &[char], d: &[char], end: usize) -> (r: Option<usize>)
    requires
        end <= t@.len(),
    ensures
        r matches Some(i) ==> rfind_before(t@, d@, end as int) == Some(i as int) && i + d@.len() <= end,
        r is None ==> rfind_before(t@, d@, end as int) is None,
{
    if d.len() > end {
        proof {
            reveal(rfind_before);
            assert forall|i: int| i + d@.len() <= end implies !occurs_at(t@, d@, i) by {}
        }
        return None;
    }
    let mut i: usize = end - d.len();
    loop
        invariant
            i + d@.len() <= end,
            end <= t@.len(),
            forall|j: int| i < j && j + d@.len() <= end ==> !occurs_at(t@, d@, j),
        decreases i,
    {
        if matches_at(t, d, i) {
            proof {
                lemma_last_occurrence(t@, d@, end as int, i as int);
            }
            return Some(i);
        }
        if i == 0 {
            proof {
                reveal(rfind_before);
                assert forall|j: int| j + d@.len() <= end implies !occurs_at(t@, d@, j) by {
                    if j < 0 {
                        assert(!occurs_at(t@, d@, j));
                    }
                }
            }
            return None;
        }
        i = i - 1;
    }
}

/// `MySQL` `SUBSTRING_INDEX`. Fewer occurrences than requested returns the
/// whole subject rather than NULL, which is what makes it usable for URL
/// and UTM splitting.
pub fn substring_index(text: &str, delimiter: &str, count: i64) -> (r: String)
    ensures
        r@ == substring_index_chars(text@, delimiter@, count as int),
{
    let t = chars_of(text);
    let d = chars_of(delimiter);
    if d.len() == 0 || count == 0 {
        return String::new();
    }
    if count > 0 {
        let wanted: u64 = count as u64;
        let mut end: usize = 0;
        let mut taken: u64 = 0;
        while taken < wanted
            invariant
                d@.len() > 0,
                t@ == text@,
                d@ == delimiter@,
                taken < wanted,
                wanted == count,
                end <= t@.len(),
                nth_from_left(t@, d@, wanted as nat, 0) == nth_from_left(t@, d@, (wanted - taken) as nat, end as int),
            decreases t@.len() - end,
        {
            let found = find_chars(t.as_slice(), d.as_slice(), end);
            proof {
                reveal_with_fuel(nth_from_left, 2);
            }
            match found {
                Some(offset) => {
                    assert(offset + d@.len() <= t@.len());
                    assert(t@.len() == t.len());
                    if taken + 1 == wanted {
                        let part = slice_chars(t.as_slice(), 0, offset);
                        assert(nth_from_left(t@, d@, (wanted - taken) as nat, end as int) == Some(offset as int));
                        return string_of(part.as_slice());
                    }
                    end = offset + d.len();
                    taken = taken + 1;
                },
                None => {
                    assert(nth_from_left(t@, d@, (wanted - taken) as nat, end as int) is None);
                    return text.to_owned();
                },
            }
        }
        return text.to_owned();
    }
    let wanted: u64 = if count == i64::MIN { 0x8000_0000_0000_0000u64 } else { (-count) as u64 };
    let mut start: usize = t.len();
    let mut taken: u64 = 0;
    while taken < wanted
        invariant
            d@.len() > 0,
            t@ == text@,
            d@ == delimiter@,
            taken < wanted,
            wanted == -count,
            start <= t@.len(),
            nth_from_right(t@, d@, wanted as nat, t@.len() as int) == nth_from_right(t@, d@, (wanted - taken) as nat, start as int),
        decreases start,
    {
        let found = rfind_chars(t.as_slice(), d.as_slice(), start);
        proof {
            reveal_with_fuel(nth_from_right, 2);
        }
        match found {
            Some(offset) => {
                assert(t@.len() == t.len());
                if taken + 1 == wanted {
                    let part = slice_chars(t.as_slice(), offset + d.len(), t.len());
                    assert(nth_from_right(t@, d@, (wanted - taken) as nat, start as int) == Some(offset as int));
                    return string_of(part.as_slice());
                }
                start = offset;
                taken = taken + 1;
            },
            None => {
                assert(nth_from_right(t@, d@, (wanted - taken) as nat, start as int) is None);
                return text.to_owned();
            },
        }
    }
    text.to_owned()
}

/// `LOCATE(needle, haystack, start)`: the one-based character position of
/// the first occurrence at or after `start`, or 0.
pub open spec fn locate_position(needle: Seq<char>, haystack: Seq<char>, start: int) -> int {
    if start <= 0 || start - 1 >= haystack.len() {
        0
    } else {
        match find_from(haystack, needle, start - 1) {
            Some(i) => if i + 1 > u64::MAX { u64::MAX as int } else { i + 1 },
            None => 0,
        }
    }
}

/// One-based character position of `needle` in `haystack` at or after
/// `start`, or 0. Both sides arrive already case-folded or deliberately
/// not: a binary operand must compare exactly.
pub fn locate(needle: &str, haystack: &str, start: i64) -> (r: u64)
    ensures
        r == locate_position(needle@, haystack@, start as int),
{
    if start <= 0 {
        return 0;
    }
    let h = chars_of(haystack);
    let n = chars_of(needle);
    if (start - 1) as u64 >= h.len() as u64 {
        return 0;
    }
    match find_chars(h.as_slice(), n.as_slice(), (start - 1) as usize) {
        Some(i) => if i as u64 == u64::MAX { u64::MAX } else { i as u64 + 1 },
        None => 0,
    }
}

/// `MAKETIME(hour, minute, second)`: `None` for a minute or second outside
/// 0..=59; hours beyond 838 clamp to `838:59:59`, `MySQL`'s TIME ceiling.
pub open spec fn make_time_text(hour: int, minute: int, second: int) -> Option<Seq<char>> {
    if !(0 <= minute <= 59) || !(0 <= second <= 59) {
        None
    } else {
        let magnitude = if hour < 0 { -hour } else { hour };
        let (h, m, s) = if magnitude > 838 { (838int, 59int, 59int) } else { (magnitude, minute, second) };
        Some((if hour < 0 { seq!['-'] } else { Seq::empty() }) + padded(h as nat, 2) + seq![':'] + padded(m as nat, 2) + seq![':'] + padded(s as nat, 2))
    }
}

/// `MySQL` `MAKETIME`, built by formatting rather than through a clock
/// type: `MySQL`'s TIME spans -838:59:59..=838:59:59, which no civil-time
/// type represents.
pub fn make_time(hour: i64, minute: i64, second: i64) -> (r: Option<String>)
    ensures
        r matches Some(s) ==> make_time_text(hour as int, minute as int, second as int) == Some(s@),
        r is None ==> make_time_text(hour as int, minute as int, second as int) is None,
{
    if minute < 0 || minute > 59 || second < 0 || second > 59 {
        return None;
    }
    let negative = hour < 0;
    let magnitude: u64 = if hour == i64::MIN { 0x8000_0000_0000_0000u64 } else if hour < 0 { (-hour) as u64 } else { hour as u64 };
    let (h, m, s): (u64, u64, u64) = if magnitude > 838 { (838, 59, 59) } else { (magnitude, minute as u64, second as u64) };
    let mut out: Vec<char> = Vec::new();
    if negative {
        out.push('-');
    }
    push_padded(&mut out, h, 2);
    out.push(':');
    push_padded(&mut out, m, 2);
    out.push(':');
    push_padded(&mut out, s, 2);
    assert(out@ =~= make_time_text(hour as int, minute as int, second as int).unwrap());
    Some(string_of(out.as_slice()))
}


/// `char::to_digit(radix)`: the value of an ASCII digit or letter, when it
/// is below the radix.
pub open spec fn digit_in(c: char, base: int) -> Option<int> {
    let v = c as u32;
    let d = if 48 <= v <= 57 { v - 48 } else if 97 <= v <= 122 { v - 87 } else if 65 <= v <= 90 { v - 55 } else { 99 };
    if d < base { Some(d as int) } else { None }
}

/// The value of the leading digits valid in `base`, read left to right
/// and saturating at `u64::MAX`; reading stops at the first other
/// character.
pub open spec fn leading_value(s: Seq<char>, base: int, acc: int) -> int
    decreases s.len(),
{
    if s.len() == 0 {
        acc
    } else {
        match digit_in(s[0], base) {
            None => acc,
            Some(d) => leading_value(s.drop_first(), base, if acc * base + d > u64::MAX { u64::MAX as int } else { acc * base + d }),
        }
    }
}

/// An upper-case digit of a radix up to 36.
pub open spec fn radix_char(d: int) -> char {
    if d < 10 { (d + 48) as char } else { (d + 55) as char }
}

/// The digits of `n` in `base`, most significant first.
pub open spec fn radix_digits(n: nat, base: nat) -> Seq<char>
    decreases n,
{
    if n < base || base < 2 {
        seq![radix_char(n as int)]
    } else {
        proof {
            assert(n / base < n) by (nonlinear_arith)
                requires
                    n >= base,
                    base >= 2,
            ;
        }
        radix_digits(n / base, base).push(radix_char((n % base) as int))
    }
}

/// `CONV(subject, from, to)`: re-bases an integer between bases 2..=36. A
/// negative target base asks for a signed reading; otherwise the value is
/// unsigned 64-bit, a leading minus wrapping in that space.
pub open spec fn conv_text(subject: Seq<char>, from: int, to: int) -> Option<Seq<char>> {
    let from_base = if from < 0 { -from } else { from };
    let to_base = if to < 0 { -to } else { to };
    if !(2 <= from_base <= 36) || !(2 <= to_base <= 36) {
        None
    } else {
        let t = trimmed(subject);
        let negative = t.len() > 0 && t[0] == '-';
        let digits = if negative || (t.len() > 0 && t[0] == '+') { t.drop_first() } else { t };
        let magnitude = leading_value(digits, from_base, 0);
        let value = if negative && magnitude > 0 { 0x1_0000_0000_0000_0000int - magnitude } else { magnitude };
        let signed = if value >= 0x8000_0000_0000_0000int { value - 0x1_0000_0000_0000_0000int } else { value };
        if to < 0 && signed < 0 {
            Some(seq!['-'] + radix_digits((-signed) as nat, to_base as nat))
        } else {
            Some(radix_digits(value as nat, to_base as nat))
        }
    }
}

/// A digit written in a base reads back as itself.
proof fn lemma_radix_char_digit(d: int, base: int)
    requires
        0 <= d < base <= 36,
    ensures
        digit_in(radix_char(d), base) == Some(d),
        !is_white_space(radix_char(d)),
        radix_char(d) != '-',
        radix_char(d) != '+',
{
    if d < 10 {
        assert(radix_char(d) as u32 == d + 48);
    } else {
        assert(radix_char(d) as u32 == d + 55);
    }
}

/// Every character of the digits of a number is a digit of the base.
proof fn lemma_radix_digits_valid(n: nat, base: nat)
    requires
        2 <= base <= 36,
    ensures
        radix_digits(n, base).len() > 0,
        forall|i: int| 0 <= i < radix_digits(n, base).len() ==> {
            &&& digit_in(#[trigger] radix_digits(n, base)[i], base as int) is Some
            &&& !is_white_space(radix_digits(n, base)[i])
            &&& radix_digits(n, base)[i] != '-'
            &&& radix_digits(n, base)[i] != '+'
        },
    decreases n,
{
    if n < base {
        lemma_radix_char_digit(n as int, base as int);
    } else {
        assert(n / base < n) by (nonlinear_arith)
            requires
                n >= base,
                base >= 2,
        ;
        lemma_radix_digits_valid(n / base, base);
        lemma_radix_char_digit((n % base) as int, base as int);
        let init = radix_digits(n / base, base);
        assert forall|i: int| 0 <= i < radix_digits(n, base).len() implies {
            &&& digit_in(#[trigger] radix_digits(n, base)[i], base as int) is Some
            &&& !is_white_space(radix_digits(n, base)[i])
            &&& radix_digits(n, base)[i] != '-'
            &&& radix_digits(n, base)[i] != '+'
        } by {
            if i < init.len() {
                assert(radix_digits(n, base)[i] == init[i]);
            }
        }
    }
}

/// Reading one more digit multiplies by the base and adds it.
proof fn lemma_leading_value_push(s: Seq<char>, c: char, base: int, acc: int)
    requires
        forall|i: int| 0 <= i < s.len() ==> digit_in(#[trigger] s[i], base) is Some,
    ensures
        leading_value(s.push(c), base, acc) == match digit_in(c, base) {
            None => leading_value(s, base, acc),
            Some(d) => {
                let v = leading_value(s, base, acc);
                if v * base + d > u64::MAX {
                    u64::MAX as int
                } else {
                    v * base + d
                }
            },
        },
    decreases s.len(),
{
    if s.len() == 0 {
        assert(s.push(c).drop_first() =~= Seq::<char>::empty());
        assert(s.push(c)[0] == c);
        assert(leading_value(s, base, acc) == acc);
        match digit_in(c, base) {
            Some(d) => {
                let next = if acc * base + d > u64::MAX { u64::MAX as int } else { acc * base + d };
                assert(leading_value(Seq::<char>::empty(), base, next) == next);
            },
            None => {},
        }
    } else {
        assert(digit_in(s[0], base) is Some);
        let d0 = digit_in(s[0], base)->0;
        let next = if acc * base + d0 > u64::MAX { u64::MAX as int } else { acc * base + d0 };
        assert forall|i: int| 0 <= i < s.drop_first().len() implies digit_in(#[trigger] s.drop_first()[i], base) is Some by {
            assert(s.drop_first()[i] == s[i + 1]);
        }
        lemma_leading_value_push(s.drop_first(), c, base, next);
        assert(s.push(c).drop_first() =~= s.drop_first().push(c));
        assert(s.push(c)[0] == s[0]);
        assert(leading_value(s, base, acc) == leading_value(s.drop_first(), base, next));
        assert(leading_value(s.push(c), base, acc) == leading_value(s.drop_first().push(c), base, next));
    }
}

/// The digits of a number read back as the number.
proof fn lemma_radix_digits_value(n: nat, base: nat)
    requires
        2 <= base <= 36,
        n <= u64::MAX,
    ensures
        leading_value(radix_digits(n, base), base as int, 0) == n,
    decreases n,
{
    if n < base {
        lemma_radix_char_digit(n as int, base as int);
        let ds = radix_digits(n, base);
        assert(ds == seq![radix_char(n as int)]);
        assert(ds.drop_first() =~= Seq::<char>::empty());
        assert(leading_value(ds.drop_first(), base as int, n as int) == n);
        assert(0 * base + n == n);
    } else {
        assert(n / base < n && (n / base) * base + n % base == n && n % base < base) by (nonlinear_arith)
            requires
                n >= base,
                base >= 2,
        ;
        lemma_radix_digits_value(n / base, base);
        lemma_radix_digits_valid(n / base, base);
        lemma_radix_char_digit((n % base) as int, base as int);
        lemma_leading_value_push(radix_digits(n / base, base), radix_char((n % base) as int), base as int, 0);
        assert(radix_digits(n, base) == radix_digits(n / base, base).push(radix_char((n % base) as int)));
        let q = (n / base) as int;
        assert(q * base + (n % base) as int == n as int);
    }
}

/// A digit string with no white space, sign or surrounding space trims to
/// itself.
proof fn lemma_digits_trimmed(s: Seq<char>)
    requires
        s.len() > 0,
        forall|i: int| 0 <= i < s.len() ==> !is_white_space(#[trigger] s[i]),
    ensures
        trimmed(s) == s,
{
    assert(leading_space(s) == 0);
    assert(s.subrange(0, s.len() as int) =~= s);
    assert(trailing_space(s) == 0);
    assert(s.subrange(0, s.len() as int) =~= s);
}

/// `CONV` round-trips: a number written in base 10 and converted to a base
/// from 2 to 36 gives its digits in that base, and converting those back
/// to base 10 gives the number's decimal digits again.
pub proof fn law_conv_round_trip(n: u64, base: int)
    requires
        2 <= base <= 36,
    ensures
        conv_text(radix_digits(n as nat, 10), 10, base) == Some(radix_digits(n as nat, base as nat)),
        conv_text(radix_digits(n as nat, base as nat), base, 10) == Some(radix_digits(n as nat, 10)),
{
    lemma_radix_digits_valid(n as nat, 10);
    lemma_radix_digits_valid(n as nat, base as nat);
    lemma_digits_trimmed(radix_digits(n as nat, 10));
    lemma_digits_trimmed(radix_digits(n as nat, base as nat));
    lemma_radix_digits_value(n as nat, 10);
    lemma_radix_digits_value(n as nat, base as nat);
    assert(digit_in(radix_digits(n as nat, 10)[0], 10) is Some);
    assert(digit_in(radix_digits(n as nat, base as nat)[0], base) is Some);
}

fn digit_of(c: char, base: u64) -> (r: Option<u64>)
    requires
        2 <= base <= 36,
    ensures
        r matches Some(d) ==> digit_in(c, base as int) == Some(d as int) && d < base,
        r is None ==> digit_in(c, base as int) is None,
{
    let v = c as u32;
    let d: u32 = if 48 <= v && v <= 57 { v - 48 } else if 97 <= v && v <= 122 { v - 87 } else if 65 <= v && v <= 90 { v - 55 } else { 99 };
    if (d as u64) < base { Some(d as u64) } else { None }
}

fn radix_digit(d: u64) -> (c: char)
    requires
        d < 36,
    ensures
        c == radix_char(d as int),
{
    let b: u8 = d as u8;
    if b < 10 { (b + 48) as char } else { (b + 55) as char }
}

fn push_radix(out: &mut Vec<char>, n: u64, base: u64)
    requires
        2 <= base <= 36,
    ensures
        final(out)@ == old(out)@ + radix_digits(n as nat, base as nat),
    decreases n,
{
    let d = n % base;
    if n >= base {
        assert(n / base < n) by (nonlinear_arith)
            requires
                n >= base,
                base >= 2,
        ;
        push_radix(out, n / base, base);
    } else {
        proof {
            vstd::arithmetic::div_mod::lemma_small_mod(n as nat, base as nat);
        }
    }
    out.push(radix_digit(d));
    proof {
        if n >= base {
            assert(out@ =~= old(out)@ + radix_digits((n / base) as nat, base as nat).push(radix_char((n % base) as int)));
        } else {
            assert(out@ =~= old(out)@ + radix_digits(n as nat, base as nat));
        }
    }
}

/// `MySQL` `CONV`. Parsing stops at the first digit invalid for the source
/// base, and an overlong source saturates at the unsigned ceiling rather
/// than wrapping to a small number.
pub fn conv_base(subject: &str, from: i64, to: i64) -> (r: Option<String>)
    ensures
        r matches Some(s) ==> conv_text(subject@, from as int, to as int) == Some(s@),
        r is None ==> conv_text(subject@, from as int, to as int) is None,
{
    // Range-check before taking magnitudes: i64::MIN has no positive
    // counterpart.
    if from < -36 || (from > -2 && from < 2) || from > 36 || to < -36 || (to > -2 && to < 2) || to > 36 {
        return None;
    }
    let from_base: u64 = if from < 0 { (-from) as u64 } else { from as u64 };
    let to_base: u64 = if to < 0 { (-to) as u64 } else { to as u64 };
    let chars = chars_of(subject);
    let t = trim(chars.as_slice());
    let negative = t.len() > 0 && t[0] == '-';
    let digits = if negative || (t.len() > 0 && t[0] == '+') {
        slice_chars(t.as_slice(), 1, t.len())
    } else {
        slice_chars(t.as_slice(), 0, t.len())
    };
    proof {
        if negative || (t@.len() > 0 && t@[0] == '+') {
            assert(digits@ =~= t@.drop_first());
        } else {
            assert(digits@ =~= t@);
        }
    }
    assert(digits@.subrange(0, digits@.len() as int) =~= digits@);
    let mut magnitude: u64 = 0;
    let mut i: usize = 0;
    let mut stopped = false;
    while i < digits.len() && !stopped
        invariant
            i <= digits@.len(),
            2 <= from_base <= 36,
            leading_value(digits@, from_base as int, 0) == leading_value(digits@.subrange(i as int, digits@.len() as int), from_base as int, magnitude as int),
            stopped ==> leading_value(digits@.subrange(i as int, digits@.len() as int), from_base as int, magnitude as int) == magnitude,
        decreases (digits@.len() - i) * 2 + if stopped { 0int } else { 1int },
    {
        match digit_of(digits[i], from_base) {
            None => {
                stopped = true;
            },
            Some(d) => {
                proof {
                    let rest = digits@.subrange(i as int, digits@.len() as int);
                    assert(rest.drop_first() =~= digits@.subrange(i + 1, digits@.len() as int));
                }
                magnitude = match magnitude.checked_mul(from_base) {
                    Some(scaled) => match scaled.checked_add(d) {
                        Some(sum) => sum,
                        None => u64::MAX,
                    },
                    None => {
                        assert(magnitude * from_base + d > u64::MAX) by (nonlinear_arith)
                            requires
                                magnitude * from_base > u64::MAX,
                                d >= 0,
                        ;
                        u64::MAX
                    },
                };
                i = i + 1;
            },
        }
    }
    let magnitude = magnitude;
    assert(leading_value(digits@, from_base as int, 0) == magnitude as int) by {
        if !stopped {
            assert(digits@.subrange(i as int, digits@.len() as int) =~= Seq::<char>::empty());
        }
    }
    let value: u64 = if negative && magnitude > 0 { u64::MAX - magnitude + 1 } else { magnitude };
    let mut out: Vec<char> = Vec::new();
    if to < 0 && value >= 0x8000_0000_0000_0000u64 {
        out.push('-');
        push_radix(&mut out, u64::MAX - value + 1, to_base);
    } else {
        push_radix(&mut out, value, to_base);
    }
    Some(string_of(out.as_slice()))
}

} // verus!

verus! {

/// `n` copies of `s`, one after another.
pub open spec fn repeated(s: Seq<char>, n: nat) -> Seq<char>
    decreases n,
{
    if n == 0 {
        Seq::empty()
    } else {
        repeated(s, (n - 1) as nat) + s
    }
}

proof fn lemma_repeated_empty(n: nat)
    ensures
        repeated(Seq::<char>::empty(), n) == Seq::<char>::empty(),
    decreases n,
{
    if n > 0 {
        lemma_repeated_empty((n - 1) as nat);
        assert(repeated(Seq::<char>::empty(), (n - 1) as nat) + Seq::<char>::empty() =~= Seq::<char>::empty());
    }
}

/// Whether `REPEAT(text, count)` stays within the build cap: an empty text
/// always does, a negative count counts as the largest one.
pub open spec fn repeat_fits(byte_len: int, count: int) -> bool {
    byte_len == 0 || (count >= 0 && byte_len * count <= STRING_BUILD_CAP)
}

/// `REPEAT(text, count)` and `SPACE(count)`, refused with
/// `NumericOverflow` beyond the build cap.
pub fn repeat_capped(text: &str, count: i64) -> (r: Result<String, ExecError>)
    ensures
        r is Ok <==> repeat_fits(text.spec_bytes().len() as int, count as int),
        r matches Ok(s) ==> s@ == repeated(text@, if count < 0 { 0 } else { count as nat }),
        r matches Err(e) ==> e == ExecError::NumericOverflow,
{
    let byte_len = text.as_bytes().len();
    assert(byte_len as int == text.spec_bytes().len());
    let chars = chars_of(text);
    if byte_len == 0 {
        proof {
            if text@.len() > 0 {
                assert(text.spec_bytes() == vstd::utf8::encode_utf8(text@));
                assert(vstd::utf8::encode_utf8(text@).len() >= 1);
            }
            assert(text@ =~= Seq::<char>::empty());
            lemma_repeated_empty(if count < 0 { 0 } else { count as nat });
        }
        return Ok(String::new());
    }
    if count < 0 || count > 4096 {
        assert(count > 4096 ==> byte_len * count > 4096) by (nonlinear_arith)
            requires
                byte_len >= 1,
        ;
        return Err(ExecError::NumericOverflow);
    }
    let times = count as usize;
    let capped: usize = if byte_len > 4097 { 4097 } else { byte_len };
    assert(capped * times <= 4097 * 4096) by (nonlinear_arith)
        requires
            capped <= 4097,
            times <= 4096,
    ;
    assert((capped * times > 4096) == (byte_len * times > 4096)) by (nonlinear_arith)
        requires
            capped == (if byte_len > 4097 { 4097 } else { byte_len }),
            times >= 0,
    ;
    if capped * times > STRING_BUILD_CAP {
        return Err(ExecError::NumericOverflow);
    }
    let mut out: Vec<char> = Vec::new();
    let mut k: usize = 0;
    while k < times
        invariant
            k <= times,
            chars@ == text@,
            out@ == repeated(text@, k as nat),
        decreases times - k,
    {
        push_all(&mut out, chars.as_slice());
        k = k + 1;
    }
    Ok(string_of(out.as_slice()))
}

/// `pad` repeated until it is `n` characters long.
pub open spec fn cycled(pad: Seq<char>, n: nat) -> Seq<char> {
    Seq::new(n, |i: int| pad[i % pad.len() as int])
}

/// `LPAD`/`RPAD(text, target, pad)`: `None` stands for SQL `NULL`, given
/// for a negative target and for a needed but empty pad.
pub open spec fn padded_text(text: Seq<char>, target: int, pad: Seq<char>, left: bool) -> Option<Seq<char>> {
    if target < 0 {
        None
    } else if target <= text.len() {
        Some(text.subrange(0, target))
    } else if pad.len() == 0 {
        None
    } else if left {
        Some(cycled(pad, (target - text.len()) as nat) + text)
    } else {
        Some(text + cycled(pad, (target - text.len()) as nat))
    }
}

/// `MySQL` `LPAD` (`left`) and `RPAD`; a target beyond the build cap is
/// refused with `NumericOverflow`.
pub fn mysql_pad(text: &str, target: i64, pad: &str, left: bool) -> (r: Result<Option<String>, ExecError>)
    ensures
        r is Err <==> target > STRING_BUILD_CAP,
        r matches Err(e) ==> e == ExecError::NumericOverflow,
        r matches Ok(v) ==> (v matches Some(s) ==> padded_text(text@, target as int, pad@, left) == Some(s@)),
        r matches Ok(v) ==> (v is None ==> padded_text(text@, target as int, pad@, left) is None),
{
    if target < 0 {
        return Ok(None);
    }
    if target > 4096 {
        return Err(ExecError::NumericOverflow);
    }
    let target = target as usize;
    let chars = chars_of(text);
    let length = chars.len();
    if target <= length {
        let head = slice_chars(chars.as_slice(), 0, target);
        return Ok(Some(string_of(head.as_slice())));
    }
    let pad_chars = chars_of(pad);
    if pad_chars.len() == 0 {
        return Ok(None);
    }
    let need = target - length;
    let plen = pad_chars.len();
    let mut filler: Vec<char> = Vec::new();
    let mut k: usize = 0;
    let mut j: usize = 0;
    while k < need
        invariant
            k <= need,
            pad_chars@ == pad@,
            pad_chars@.len() > 0,
            plen == pad_chars@.len(),
            j < pad_chars@.len(),
            j == (k as int) % (pad_chars@.len() as int),
            filler@ == cycled(pad@, k as nat),
        decreases need - k,
    {
        filler.push(pad_chars[j]);
        proof {
            assert(filler@ =~= cycled(pad@, (k + 1) as nat));
        }
        assert(((k + 1) as int) % (pad_chars@.len() as int) == if j + 1 == pad_chars@.len() { 0 } else { j + 1 }) by (nonlinear_arith)
            requires
                j == (k as int) % (pad_chars@.len() as int),
                j < pad_chars@.len(),
                pad_chars@.len() > 0,
        ;
        j = if j + 1 == plen { 0 } else { j + 1 };
        k = k + 1;
    }
    let mut out: Vec<char> = Vec::new();
    if left {
        push_all(&mut out, filler.as_slice());
        push_all(&mut out, chars.as_slice());
    } else {
        push_all(&mut out, chars.as_slice());
        push_all(&mut out, filler.as_slice());
    }
    Ok(Some(string_of(out.as_slice())))
}

} // verus!
