//! The text side of MySQL's number handling: the numeric prefix a string
//! converts through, thousands grouping for `FORMAT`, and the `YEAR` a
//! number or a date's text stands for. Reading and rounding the doubles
//! themselves is the caller's.
use crate::chars::{chars_of, push_all, slice_chars, string_of, trim_leading, trim_start};
use crate::time_text::{parse_u64, u64_text};
use vstd::prelude::*;

verus! {

/// Where a scan for a number's prefix stands.
pub struct NumberScan {
    pub stopped: bool,
    pub end: nat,
    pub digit: bool,
    pub decimal: bool,
    pub exponent: bool,
    pub needs_digit: bool,
}

/// One character of the scan at `index`: a sign first or right after the
/// exponent marker, digits, one `.` before any exponent, one `e`/`E` after
/// a digit; the first other character stops the scan.
pub open spec fn scan_step(s: NumberScan, index: nat, c: char) -> NumberScan {
    if s.stopped {
        s
    } else if (c == '+' || c == '-') && (index == 0 || s.needs_digit) {
        NumberScan { end: index + 1, ..s }
    } else if '0' <= c <= '9' {
        NumberScan { end: index + 1, digit: true, needs_digit: false, ..s }
    } else if c == '.' && !s.decimal && !s.exponent {
        NumberScan { end: index + 1, decimal: true, ..s }
    } else if (c == 'e' || c == 'E') && s.digit && !s.exponent {
        NumberScan { end: index + 1, exponent: true, needs_digit: true, ..s }
    } else {
        NumberScan { stopped: true, ..s }
    }
}

/// The scan after the first `k` characters.
pub open spec fn scan(t: Seq<char>, k: nat) -> NumberScan
    decreases k,
{
    if k == 0 || k > t.len() {
        NumberScan {
            stopped: false,
            end: 0,
            digit: false,
            decimal: false,
            exponent: false,
            needs_digit: false,
        }
    } else {
        scan_step(scan(t, (k - 1) as nat), (k - 1) as nat, t[k - 1])
    }
}

/// The position of the last `e` or `E` before `end`.
pub open spec fn last_exponent(t: Seq<char>, end: int) -> int
    decreases end,
{
    if end <= 0 {
        0
    } else if t[end - 1] == 'e' || t[end - 1] == 'E' {
        end - 1
    } else {
        last_exponent(t, end - 1)
    }
}

/// The numeric prefix MySQL converts a string through: leading white space
/// skipped, then the longest run the scan accepts, without an exponent
/// marker that no digit follows; `None` when it has no digit (the string
/// converts to 0).
pub open spec fn number_prefix(value: Seq<char>) -> Option<Seq<char>> {
    let t = trim_start(value);
    let s = scan(t, t.len());
    if !s.digit {
        None
    } else if s.needs_digit {
        Some(t.take(last_exponent(t, s.end as int)))
    } else {
        Some(t.take(s.end as int))
    }
}

/// The numeric prefix of a string, for the caller to read as a double.
pub fn mysql_number_prefix(value: &str) -> (r: Option<String>)
    ensures
        match r {
            Some(p) => number_prefix(value@) == Some(p@),
            None => number_prefix(value@) is None,
        },
{
    let chars = chars_of(value);
    let t = trim_leading(chars.as_slice());
    let ghost tv = trim_start(value@);
    assert(t@ == tv);
    let mut stopped = false;
    let mut end: usize = 0;
    let mut digit = false;
    let mut decimal = false;
    let mut exponent = false;
    let mut needs_digit = false;
    let mut i: usize = 0;
    while i < t.len()
        invariant
            i <= t@.len(),
            t@ == tv,
            scan(tv, i as nat) == (NumberScan {
                stopped: stopped,
                end: end as nat,
                digit: digit,
                decimal: decimal,
                exponent: exponent,
                needs_digit: needs_digit,
            }),
            end <= i,
        decreases t@.len() - i,
    {
        let c = t[i];
        if !stopped {
            if (c == '+' || c == '-') && (i == 0 || needs_digit) {
                end = i + 1;
            } else if '0' <= c && c <= '9' {
                end = i + 1;
                digit = true;
                needs_digit = false;
            } else if c == '.' && !decimal && !exponent {
                end = i + 1;
                decimal = true;
            } else if (c == 'e' || c == 'E') && digit && !exponent {
                end = i + 1;
                exponent = true;
                needs_digit = true;
            } else {
                stopped = true;
            }
        }
        i = i + 1;
    }
    if !digit {
        return None;
    }
    let cut = if needs_digit {
        let mut k = end;
        while k > 0 && !(t[k - 1] == 'e' || t[k - 1] == 'E')
            invariant
                k <= end <= t@.len(),
                t@ == tv,
                last_exponent(tv, k as int) == last_exponent(tv, end as int),
            decreases k,
        {
            k = k - 1;
        }
        if k > 0 {
            k - 1
        } else {
            0
        }
    } else {
        end
    };
    proof {
        if needs_digit {
            assert(cut == last_exponent(tv, end as int));
        }
    }
    let mut out: Vec<char> = Vec::new();
    let mut j: usize = 0;
    while j < cut
        invariant
            j <= cut <= t@.len(),
            out@ == t@.subrange(0, j as int),
        decreases cut - j,
    {
        out.push(t[j]);
        j = j + 1;
        assert(out@ =~= t@.subrange(0, j as int));
    }
    Some(string_of(out.as_slice()))
}

/// The position of the first `c` in `s`.
pub open spec fn first_index(s: Seq<char>, c: char) -> Option<int> {
    if exists|i: int| 0 <= i < s.len() && s[i] == c {
        Some(choose|i: int| 0 <= i < s.len() && s[i] == c && forall|j: int| 0 <= j < i ==> s[j] != c)
    } else {
        None
    }
}

/// Digits with a `,` before every group of three counted from the right.
pub open spec fn grouped(digits: Seq<char>, k: nat) -> Seq<char>
    decreases k,
{
    if k == 0 || k > digits.len() {
        Seq::empty()
    } else {
        let index = k - 1;
        grouped(digits, (k - 1) as nat) + (if index > 0 && (digits.len() - index) % 3 == 0 {
            seq![',']
        } else {
            Seq::empty()
        }) + seq![digits[index]]
    }
}

/// Text without one leading `-`.
pub open spec fn unsigned_part(f: Seq<char>) -> Seq<char> {
    if f.len() > 0 && f[0] == '-' {
        f.drop_first()
    } else {
        f
    }
}

/// What comes before the first `.`.
pub open spec fn integer_part(s: Seq<char>) -> Seq<char> {
    match first_index(s, '.') {
        Some(i) => s.take(i),
        None => s,
    }
}

/// What comes after the first `.`.
pub open spec fn fraction_part(s: Seq<char>) -> Seq<char> {
    match first_index(s, '.') {
        Some(i) => s.skip(i + 1),
        None => Seq::empty(),
    }
}

/// `FORMAT`'s en_US grouping of formatted decimal text: the sign kept, a
/// `,` between every three digits of the integer part, the fraction after
/// the first `.` unchanged.
#[verifier::opaque]
pub open spec fn thousands_grouped(formatted: Seq<char>) -> Seq<char> {
    let rest = unsigned_part(formatted);
    let integer = integer_part(rest);
    let fraction = fraction_part(rest);
    (if formatted.len() > 0 && formatted[0] == '-' {
        seq!['-']
    } else {
        Seq::<char>::empty()
    }) + grouped(integer, integer.len()) + (if fraction.len() == 0 {
        Seq::<char>::empty()
    } else {
        seq!['.'] + fraction
    })
}

/// The first position of `c`.
fn find_first(s: &[char], c: char) -> (r: Option<usize>)
    ensures
        match r {
            Some(i) => first_index(s@, c) == Some(i as int) && i < s@.len(),
            None => first_index(s@, c) is None,
        },
{
    let mut i: usize = 0;
    while i < s.len()
        invariant
            i <= s@.len(),
            forall|j: int| 0 <= j < i ==> s@[j] != c,
        decreases s@.len() - i,
    {
        if s[i] == c {
            proof {
                let w = choose|k: int| 0 <= k < s@.len() && s@[k] == c && forall|j: int| 0 <= j < k ==> s@[j] != c;
                assert(0 <= i < s@.len() && s@[i as int] == c && forall|j: int| 0 <= j < i ==> s@[j] != c);
                if w < i {
                    assert(s@[w] != c);
                } else if w > i {
                    assert(s@[i as int] != c);
                }
            }
            return Some(i);
        }
        i = i + 1;
    }
    None
}

/// The parts `group_thousands` cuts are the integer and fraction parts.
proof fn lemma_parts(rest: Seq<char>, integer_end: int, fraction_start: int, found: Option<usize>)
    requires
        match found {
            Some(i) => first_index(rest, '.') == Some(i as int) && i < rest.len() && integer_end == i
                && fraction_start == i + 1,
            None => first_index(rest, '.') is None && integer_end == rest.len() && fraction_start
                == rest.len(),
        },
    ensures
        rest.subrange(0, integer_end) == integer_part(rest),
        rest.subrange(fraction_start, rest.len() as int) == fraction_part(rest),
{
    match found {
        Some(i) => {
            assert(rest.subrange(0, integer_end) =~= rest.take(i as int));
            assert(rest.subrange(fraction_start, rest.len() as int) =~= rest.skip(i + 1));
        },
        None => {
            assert(rest.subrange(0, integer_end) =~= rest);
            assert(rest.subrange(fraction_start, rest.len() as int) =~= Seq::<char>::empty());
        },
    }
}

/// The pieces `group_thousands` writes make up `thousands_grouped`.
proof fn lemma_grouped_assembly(
    formatted: Seq<char>,
    out: Seq<char>,
    negative: bool,
    integer: Seq<char>,
    fraction: Seq<char>,
    grouped_part: Seq<char>,
)
    requires
        negative == (formatted.len() > 0 && formatted[0] == '-'),
        integer == integer_part(unsigned_part(formatted)),
        fraction == fraction_part(unsigned_part(formatted)),
        grouped_part == grouped(integer, integer.len()),
        out == (if negative { seq!['-'] } else { Seq::<char>::empty() }) + grouped_part + (if fraction.len()
            == 0 {
            Seq::<char>::empty()
        } else {
            seq!['.'] + fraction
        }),
    ensures
        out == thousands_grouped(formatted),
{
    reveal(thousands_grouped);
}

/// Digits grouped in threes from the right.
fn grouped_digits(digits: &[char]) -> (r: Vec<char>)
    ensures
        r@ == grouped(digits@, digits@.len()),
{
    let n = digits.len();
    let mut out: Vec<char> = Vec::new();
    let mut i: usize = 0;
    while i < n
        invariant
            i <= n == digits@.len(),
            out@ == grouped(digits@, i as nat),
        decreases n - i,
    {
        if i > 0 && (n - i) % 3 == 0 {
            out.push(',');
        }
        out.push(digits[i]);
        i = i + 1;
        assert(out@ =~= grouped(digits@, i as nat));
    }
    out
}

/// Formatted decimal text cut into its sign, integer part and fraction.
fn split_formatted(chars: &[char]) -> (r: (bool, Vec<char>, Vec<char>))
    ensures
        r.0 == (chars@.len() > 0 && chars@[0] == '-'),
        r.1@ == integer_part(unsigned_part(chars@)),
        r.2@ == fraction_part(unsigned_part(chars@)),
{
    let negative = chars.len() > 0 && chars[0] == '-';
    let start: usize = if negative { 1 } else { 0 };
    let rest = slice_chars(chars, start, chars.len());
    assert(rest@ =~= unsigned_part(chars@));
    let found = find_first(rest.as_slice(), '.');
    let (integer_end, fraction_start) = match found {
        Some(i) => (i, i + 1),
        None => (rest.len(), rest.len()),
    };
    let integer = slice_chars(rest.as_slice(), 0, integer_end);
    let fraction = slice_chars(rest.as_slice(), fraction_start, rest.len());
    proof {
        lemma_parts(rest@, integer_end as int, fraction_start as int, found);
    }
    (negative, integer, fraction)
}

/// Groups the integer digits of formatted decimal text in threes, as
/// `FORMAT` writes them.
pub fn group_thousands(formatted: &str) -> (r: String)
    ensures
        r@ == thousands_grouped(formatted@),
{
    let chars = chars_of(formatted);
    let (negative, integer, fraction) = split_formatted(chars.as_slice());
    let mut out: Vec<char> = Vec::new();
    if negative {
        out.push('-');
    }
    let grouped_part = grouped_digits(integer.as_slice());
    push_all(&mut out, grouped_part.as_slice());
    if fraction.len() > 0 {
        out.push('.');
        push_all(&mut out, fraction.as_slice());
    }
    assert(out@ =~= (if negative { seq!['-'] } else { Seq::<char>::empty() }) + grouped_part@ + (
    if fraction@.len() == 0 {
        Seq::<char>::empty()
    } else {
        seq!['.'] + fraction@
    }));
    proof {
        lemma_grouped_assembly(formatted@, out@, negative, integer@, fraction@, grouped_part@);
    }
    string_of(out.as_slice())
}

/// Whether a string has a numeric prefix worth reading as a `YEAR`: after
/// leading white space and one optional sign, a digit, or a `.` and a digit.
pub open spec fn numeric_start(text: Seq<char>) -> bool {
    let t = trim_start(text);
    let u = if t.len() > 0 && (t[0] == '+' || t[0] == '-') { t.drop_first() } else { t };
    (u.len() > 0 && '0' <= u[0] <= '9') || (u.len() > 1 && u[0] == '.' && '0' <= u[1] <= '9')
}

/// Whether a string starts like a number.
pub fn has_numeric_start(text: &str) -> (r: bool)
    ensures
        r == numeric_start(text@),
{
    let chars = chars_of(text);
    let t = trim_leading(chars.as_slice());
    let start: usize = if t.len() > 0 && (t[0] == '+' || t[0] == '-') { 1 } else { 0 };
    let n = t.len();
    (n > start && '0' <= t[start] && t[start] <= '9') || (n > start + 1 && t[start] == '.' && '0'
        <= t[start + 1] && t[start + 1] <= '9')
}

/// The `YEAR` a whole number in `0..=2155` stands for: 0 is 2000 when it
/// came from a string and 0 otherwise, 1 to 69 are 2001 to 2069, 70 to 99
/// are 1970 to 1999, 1901 to 2155 are themselves, anything else is NULL.
pub open spec fn year_of_number(year: int, from_text: bool) -> Option<int> {
    if year == 0 {
        Some(if from_text { 2000 } else { 0 })
    } else if 1 <= year <= 69 {
        Some(year + 2000)
    } else if 70 <= year <= 99 {
        Some(year + 1900)
    } else if 1901 <= year <= 2155 {
        Some(year)
    } else {
        None
    }
}

/// The `YEAR` of a rounded number.
pub fn year_from_number(year: u64, from_text: bool) -> (r: Option<u64>)
    ensures
        match r {
            Some(y) => year_of_number(year as int, from_text) == Some(y as int),
            None => year_of_number(year as int, from_text) is None,
        },
{
    if year == 0 {
        Some(if from_text { 2000 } else { 0 })
    } else if year <= 69 {
        Some(year + 2000)
    } else if year <= 99 {
        Some(year + 1900)
    } else if 1901 <= year && year <= 2155 {
        Some(year)
    } else {
        None
    }
}

/// The `YEAR` of canonical date or datetime text: its first four
/// characters read as a number, NULL for year 0 or text that does not
/// start with four ASCII characters.
pub open spec fn year_of_date(text: Seq<char>) -> Option<int> {
    if text.len() >= 4 && (forall|i: int| 0 <= i < 4 ==> #[trigger] text[i] <= '\u{7f}') {
        match u64_text(text.take(4)) {
            Some(y) => if y != 0 { Some(y) } else { None },
            None => None,
        }
    } else {
        None
    }
}

/// The `YEAR` of a date's text.
pub fn year_of_date_text(text: &str) -> (r: Option<u64>)
    ensures
        match r {
            Some(y) => year_of_date(text@) == Some(y as int),
            None => year_of_date(text@) is None,
        },
{
    let chars = chars_of(text);
    if chars.len() < 4 {
        return None;
    }
    let mut i: usize = 0;
    while i < 4
        invariant
            i <= 4 <= chars@.len(),
            chars@ == text@,
            forall|j: int| 0 <= j < i ==> #[trigger] chars@[j] <= '\u{7f}',
        decreases 4 - i,
    {
        if chars[i] > '\u{7f}' {
            assert(!(chars@[i as int] <= '\u{7f}'));
            return None;
        }
        i = i + 1;
    }
    let mut head: Vec<char> = Vec::new();
    head.push(chars[0]);
    head.push(chars[1]);
    head.push(chars[2]);
    head.push(chars[3]);
    assert(head@ =~= chars@.take(4));
    match parse_u64(head.as_slice()) {
        Some(y) => if y != 0 {
            Some(y)
        } else {
            None
        },
        None => None,
    }
}

} // verus!
