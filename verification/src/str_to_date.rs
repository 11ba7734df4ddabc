//! `STR_TO_DATE`: format-directed parsing that keeps incomplete dates
//! until the SQL mode decides whether they are permitted, which parsing to
//! a civil date cannot do.
use crate::calendar::{
    date_at_day_number, date_at_ordinal, date_exists, date_from_ordinal, date_of_day_number,
    day_number, days_from_ce, valid_ymd, weekday_from_monday, weekday_from_sunday,
    weekday_monday_first, weekday_sunday_first, CivilDate, MAX_YEAR,
};
use crate::chars::{
    chars_of, digits_value, is_digit, is_white_space, leading_space, padded, pow10, push_padded,
    string_of, trim_start, white_space, lemma_padded_len,
};
use crate::session::ascii_lower;
use vstd::prelude::*;

verus! {

/// The fields a `STR_TO_DATE` format has filled so far.
#[derive(Clone, Copy, Debug)]
pub struct DateParts {
    pub year: u32,
    pub month: u32,
    pub day: u32,
    pub hour: u32,
    pub minute: u32,
    pub second: u32,
    pub micros: u32,
    pub twelve_hour: bool,
    pub afternoon: bool,
    pub year_day: Option<u32>,
    pub weekday: Option<u32>,
    pub week: Option<(char, u32)>,
    pub week_year: Option<(char, u32)>,
}

/// Nothing filled yet.
pub open spec fn empty_parts() -> DateParts {
    DateParts {
        year: 0,
        month: 0,
        day: 0,
        hour: 0,
        minute: 0,
        second: 0,
        micros: 0,
        twelve_hour: false,
        afternoon: false,
        year_day: None,
        weekday: None,
        week: None,
        week_year: None,
    }
}

/// The type a `STR_TO_DATE` result is rendered as.
#[derive(Clone, Copy, Debug, PartialEq, Eq, Structural)]
pub enum TargetType {
    Date32,
    DateTime64 { fsp: u8 },
    Time64 { fsp: u8 },
}

/// The leading ASCII digits of `s`, at most `limit` of them.
pub open spec fn digit_run(s: Seq<char>, limit: nat) -> nat
    decreases limit,
{
    if limit == 0 || s.len() == 0 || !is_digit(s[0]) {
        0
    } else {
        1 + digit_run(s.drop_first(), (limit - 1) as nat)
    }
}

/// A number of at most `limit` leading digits: its value, its digit count
/// and the rest of the input; `None` when no digit leads.
pub open spec fn number_of(s: Seq<char>, limit: nat) -> Option<(u32, u32, Seq<char>)> {
    let n = digit_run(s, limit);
    if n == 0 {
        None
    } else {
        Some((digits_value(s.take(n as int)) as u32, n as u32, s.skip(n as int)))
    }
}

/// A year of one or two digits: 70..99 are the 1900s, the rest the 2000s.
pub open spec fn short_year_of(year: int) -> int {
    year + if year <= 69 { 2000int } else { 1900int }
}

/// Whether a character is an ASCII letter.
pub open spec fn is_alpha(c: char) -> bool {
    ('a' <= c <= 'z') || ('A' <= c <= 'Z')
}

/// Whether a character is ASCII punctuation.
pub open spec fn is_punct(c: char) -> bool {
    ('!' <= c <= '/') || (':' <= c <= '@') || ('[' <= c <= '`') || ('{' <= c <= '~')
}

/// What a `%#`, `%@` or `%.` directive skips.
#[derive(Clone, Copy, Debug, PartialEq, Eq, Structural)]
pub enum SkipClass {
    Digits,
    Letters,
    Punctuation,
}

/// Whether a character is of a skip class.
pub open spec fn in_class(c: char, class: SkipClass) -> bool {
    match class {
        SkipClass::Digits => is_digit(c),
        SkipClass::Letters => is_alpha(c),
        SkipClass::Punctuation => is_punct(c),
    }
}

/// The leading characters of a class, at most `limit` of them.
pub open spec fn class_run(s: Seq<char>, class: SkipClass, limit: nat) -> nat
    decreases limit,
{
    if limit == 0 || s.len() == 0 || !in_class(s[0], class) {
        0
    } else {
        1 + class_run(s.drop_first(), class, (limit - 1) as nat)
    }
}

/// ASCII lower case of a text.
pub open spec fn lowered(s: Seq<char>) -> Seq<char> {
    Seq::new(s.len(), |i: int| ascii_lower(s[i]))
}

/// Month names, lower case.
pub open spec fn month_table() -> Seq<Seq<char>> {
    seq![
        "january"@, "february"@, "march"@, "april"@, "may"@, "june"@, "july"@, "august"@,
        "september"@, "october"@, "november"@, "december"@,
    ]
}

/// Weekday names, lower case, Sunday first.
pub open spec fn day_table() -> Seq<Seq<char>> {
    seq!["sunday"@, "monday"@, "tuesday"@, "wednesday"@, "thursday"@, "friday"@, "saturday"@]
}

/// Whether `name` begins the candidate (its first three letters when
/// abbreviated).
pub open spec fn name_fits(candidate: Seq<char>, name: Seq<char>, abbreviated: bool) -> bool {
    let c = if abbreviated && candidate.len() >= 3 { candidate.take(3) } else { candidate };
    name.len() <= c.len() && c.take(name.len() as int) == name
}

/// The first index at or after `from` whose name `name` begins.
pub open spec fn fitting_from(names: Seq<Seq<char>>, name: Seq<char>, abbreviated: bool, from: int) -> Option<int>
    decreases names.len() - from,
{
    if from < 0 || from >= names.len() {
        None
    } else if name_fits(names[from], name, abbreviated) {
        Some(from)
    } else {
        fitting_from(names, name, abbreviated, from + 1)
    }
}

/// A name read from the leading ASCII letters (any case): its index when
/// exactly one name fits, and the rest of the input.
pub open spec fn named_of(s: Seq<char>, names: Seq<Seq<char>>, abbreviated: bool) -> Option<(u32, Seq<char>)> {
    let n = class_run(s, SkipClass::Letters, s.len());
    let name = lowered(s.take(n as int));
    if n == 0 {
        None
    } else {
        match fitting_from(names, name, abbreviated, 0) {
            None => None,
            Some(i) => if fitting_from(names, name, abbreviated, i + 1) is Some {
                None
            } else {
                Some((i as u32, s.skip(n as int)))
            },
        }
    }
}

proof fn lemma_digit_run_bound(s: Seq<char>, limit: nat)
    ensures
        digit_run(s, limit) <= limit,
        digit_run(s, limit) <= s.len(),
        forall|i: int| 0 <= i < digit_run(s, limit) ==> is_digit(#[trigger] s[i]),
    decreases limit,
{
    if !(limit == 0 || s.len() == 0 || !is_digit(s[0])) {
        lemma_digit_run_bound(s.drop_first(), (limit - 1) as nat);
        assert forall|i: int| 0 <= i < digit_run(s, limit) implies is_digit(#[trigger] s[i]) by {
            if i > 0 {
                assert(s[i] == s.drop_first()[i - 1]);
            }
        }
    }
}

proof fn lemma_class_run_bound(s: Seq<char>, class: SkipClass, limit: nat)
    ensures
        class_run(s, class, limit) <= limit,
        class_run(s, class, limit) <= s.len(),
    decreases limit,
{
    if !(limit == 0 || s.len() == 0 || !in_class(s[0], class)) {
        lemma_class_run_bound(s.drop_first(), class, (limit - 1) as nat);
    }
}

proof fn lemma_digits_value_bound(s: Seq<char>)
    requires
        forall|i: int| 0 <= i < s.len() ==> is_digit(#[trigger] s[i]),
    ensures
        digits_value(s) < pow10(s.len()),
    decreases s.len(),
{
    if s.len() > 0 {
        let t = s.drop_last();
        assert forall|i: int| 0 <= i < t.len() implies is_digit(#[trigger] t[i]) by {
            assert(t[i] == s[i]);
        }
        lemma_digits_value_bound(t);
        let d = ((s.last() as u32) - 48) as nat;
        assert(is_digit(s[s.len() - 1]));
        assert(digits_value(s) < pow10(s.len())) by (nonlinear_arith)
            requires
                digits_value(s) == digits_value(t) * 10 + d,
                digits_value(t) < pow10(t.len()),
                d <= 9,
                pow10(s.len()) == 10 * pow10(t.len()),
        ;
    }
}

/// The leading characters of a class from `pos`, at most `limit`.
fn class_count(text: &[char], pos: usize, class: SkipClass, limit: usize) -> (r: usize)
    requires
        pos <= text@.len(),
    ensures
        r == class_run(text@.skip(pos as int), class, limit as nat),
        pos + r <= text@.len(),
{
    let len = text.len();
    let mut n: usize = 0;
    let mut stop = false;
    proof {
        lemma_class_run_bound(text@.skip(pos as int), class, limit as nat);
    }
    while !stop && n < limit && pos + n < len
        invariant
            len == text@.len(),
            pos <= text@.len(),
            n <= limit,
            pos + n <= text@.len(),
            class_run(text@.skip(pos as int), class, limit as nat) == n + class_run(text@.skip((pos + n) as int), class, (limit - n) as nat),
            stop ==> class_run(text@.skip((pos + n) as int), class, (limit - n) as nat) == 0,
        decreases limit - n, if stop { 0int } else { 1int },
    {
        let c = text[pos + n];
        let fits = match class {
            SkipClass::Digits => '0' <= c && c <= '9',
            SkipClass::Letters => ('a' <= c && c <= 'z') || ('A' <= c && c <= 'Z'),
            SkipClass::Punctuation => ('!' <= c && c <= '/') || (':' <= c && c <= '@') || ('[' <= c && c <= '`')
                || ('{' <= c && c <= '~'),
        };
        proof {
            assert(text@.skip((pos + n) as int)[0] == c);
        }
        if fits {
            proof {
                assert(text@.skip((pos + n) as int).drop_first() =~= text@.skip((pos + n + 1) as int));
            }
            n = n + 1;
        } else {
            stop = true;
        }
    }
    n
}

proof fn lemma_digit_class(s: Seq<char>, limit: nat)
    ensures
        digit_run(s, limit) == class_run(s, SkipClass::Digits, limit),
    decreases limit,
{
    if !(limit == 0 || s.len() == 0 || !is_digit(s[0])) {
        lemma_digit_class(s.drop_first(), (limit - 1) as nat);
    }
}

/// Reads a number of at most `limit` (at most 6) digits from `pos`.
fn number(text: &[char], pos: usize, limit: usize) -> (r: Option<(u32, u32, usize)>)
    requires
        pos <= text@.len(),
        limit <= 6,
    ensures
        r matches Some((v, n, q)) ==> q <= text@.len() && number_of(text@.skip(pos as int), limit as nat) == Some(
            (v, n, text@.skip(q as int)),
        ),
        r is None ==> number_of(text@.skip(pos as int), limit as nat) is None,
        r matches Some((v, n, q)) ==> 1 <= n <= limit && v < pow10(n as nat),
{
    let n = class_count(text, pos, SkipClass::Digits, limit);
    proof {
        lemma_digit_class(text@.skip(pos as int), limit as nat);
        lemma_digit_run_bound(text@.skip(pos as int), limit as nat);
    }
    if n == 0 {
        return None;
    }
    let ghost run = text@.skip(pos as int).take(n as int);
    let len = text.len();
    let mut value: u32 = 0;
    let mut i: usize = 0;
    while i < n
        invariant
            i <= n <= limit <= 6,
            len == text@.len(),
            pos + n <= text@.len(),
            run == text@.skip(pos as int).take(n as int),
            forall|k: int| 0 <= k < n ==> is_digit(#[trigger] run[k]),
            value == digits_value(run.take(i as int)),
        decreases n - i,
    {
        let c = text[pos + i];
        proof {
            assert(c == run[i as int]);
            assert(run.take(i + 1).drop_last() =~= run.take(i as int));
            let t = run.take(i as int);
            assert forall|k: int| 0 <= k < t.len() implies is_digit(#[trigger] t[k]) by {
                assert(t[k] == run[k]);
            }
            lemma_digits_value_bound(t);
            lemma_pow_le(i as nat, 5);
            assert(pow10(5) == 100000) by {
                reveal_with_fuel(pow10, 6);
            }
        }
        value = value * 10 + (c as u32 - 48);
        i = i + 1;
    }
    proof {
        assert(run.take(n as int) =~= run);
        assert forall|k: int| 0 <= k < run.len() implies is_digit(#[trigger] run[k]) by {}
        lemma_digits_value_bound(run);
    }
    Some((value, n as u32, pos + n))
}

proof fn lemma_pow_le(a: nat, b: nat)
    requires
        a <= b,
    ensures
        pow10(a) <= pow10(b),
    decreases b,
{
    if a < b {
        lemma_pow_le(a, (b - 1) as nat);
    }
}

/// `MySQL`'s two-digit year rule.
pub fn short_year(year: u32) -> (r: u32)
    requires
        year <= 99,
    ensures
        r == short_year_of(year as int),
{
    year + if year <= 69 { 2000 } else { 1900 }
}

/// Skips the characters of a class from `pos`.
fn skip(text: &[char], pos: usize, class: SkipClass) -> (r: usize)
    requires
        pos <= text@.len(),
    ensures
        r == pos + class_run(text@.skip(pos as int), class, (text@.len() - pos) as nat),
        r <= text@.len(),
{
    pos + class_count(text, pos, class, text.len() - pos)
}

/// The name tables `STR_TO_DATE` reads.
#[derive(Clone, Copy, Debug, PartialEq, Eq, Structural)]
pub enum NameTable {
    Months,
    Days,
}

/// The names of a table.
pub open spec fn table_names(table: NameTable) -> Seq<Seq<char>> {
    match table {
        NameTable::Months => month_table(),
        NameTable::Days => day_table(),
    }
}

fn table_len(table: NameTable) -> (r: usize)
    ensures
        r == table_names(table).len(),
{
    match table {
        NameTable::Months => 12,
        NameTable::Days => 7,
    }
}

fn table_entry(table: NameTable, i: usize) -> (r: &'static str)
    requires
        i < table_names(table).len(),
    ensures
        r@ == table_names(table)[i as int],
{
    match table {
        NameTable::Months => match i {
            0 => "january",
            1 => "february",
            2 => "march",
            3 => "april",
            4 => "may",
            5 => "june",
            6 => "july",
            7 => "august",
            8 => "september",
            9 => "october",
            10 => "november",
            _ => "december",
        },
        NameTable::Days => match i {
            0 => "sunday",
            1 => "monday",
            2 => "tuesday",
            3 => "wednesday",
            4 => "thursday",
            5 => "friday",
            _ => "saturday",
        },
    }
}

fn lower_char(c: char) -> (r: char)
    ensures
        r == ascii_lower(c),
{
    if 'A' <= c && c <= 'Z' {
        ((c as u8) + 32) as char
    } else {
        c
    }
}

fn fits_name(candidate: &[char], name: &[char], abbreviated: bool) -> (r: bool)
    ensures
        r == name_fits(candidate@, name@, abbreviated),
{
    let limit: usize = if abbreviated && candidate.len() >= 3 { 3 } else { candidate.len() };
    let ghost c = if abbreviated && candidate@.len() >= 3 { candidate@.take(3) } else { candidate@ };
    assert(c.len() == limit);
    if name.len() > limit {
        return false;
    }
    let mut k: usize = 0;
    while k < name.len()
        invariant
            name@.len() <= limit <= candidate@.len(),
            c.len() == limit,
            c == (if abbreviated && candidate@.len() >= 3 { candidate@.take(3) } else { candidate@ }),
            k <= name@.len(),
            forall|m: int| 0 <= m < k ==> c[m] == name@[m],
        decreases name@.len() - k,
    {
        if candidate[k] != name[k] {
            assert(c.take(name@.len() as int)[k as int] != name@[k as int]);
            return false;
        }
        k = k + 1;
    }
    assert(c.take(name@.len() as int) =~= name@);
    true
}

fn first_fitting(table: NameTable, name: &[char], abbreviated: bool, from: usize) -> (r: Option<usize>)
    requires
        from <= table_names(table).len(),
    ensures
        r matches Some(i) ==> fitting_from(table_names(table), name@, abbreviated, from as int) == Some(i as int),
        r is None ==> fitting_from(table_names(table), name@, abbreviated, from as int) is None,
    decreases table_names(table).len() - from,
{
    if from >= table_len(table) {
        return None;
    }
    let candidate = chars_of(table_entry(table, from));
    if fits_name(candidate.as_slice(), name, abbreviated) {
        Some(from)
    } else {
        first_fitting(table, name, abbreviated, from + 1)
    }
}

/// Reads a name of a table from `pos`: its index when exactly one name
/// begins with the leading letters.
fn named(text: &[char], pos: usize, table: NameTable, abbreviated: bool) -> (r: Option<(u32, usize)>)
    requires
        pos <= text@.len(),
    ensures
        r matches Some((i, q)) ==> q <= text@.len() && named_of(text@.skip(pos as int), table_names(table), abbreviated)
            == Some((i, text@.skip(q as int))),
        r is None ==> named_of(text@.skip(pos as int), table_names(table), abbreviated) is None,
{
    let ghost s = text@.skip(pos as int);
    let n = class_count(text, pos, SkipClass::Letters, text.len() - pos);
    proof {
        lemma_class_run_bound(s, SkipClass::Letters, s.len());
    }
    if n == 0 {
        return None;
    }
    let mut name: Vec<char> = Vec::new();
    let mut k: usize = 0;
    let len = text.len();
    while k < n
        invariant
            len == text@.len(),
            pos + n <= text@.len(),
            s == text@.skip(pos as int),
            k <= n,
            name@ == lowered(s.take(k as int)),
        decreases n - k,
    {
        name.push(lower_char(text[pos + k]));
        k = k + 1;
        assert(name@ =~= lowered(s.take(k as int)));
    }
    let first = match first_fitting(table, name.as_slice(), abbreviated, 0) {
        Some(i) => i,
        None => return None,
    };
    proof {
        assert(fitting_from(table_names(table), name@, abbreviated, 0) == Some(first as int));
        lemma_fitting_bound(table_names(table), name@, abbreviated, 0);
    }
    if first_fitting(table, name.as_slice(), abbreviated, first + 1).is_some() {
        return None;
    }
    proof {
        assert(text@.skip((pos + n) as int) =~= s.skip(n as int));
    }
    Some((first as u32, pos + n))
}

proof fn lemma_fitting_bound(names: Seq<Seq<char>>, name: Seq<char>, abbreviated: bool, from: int)
    ensures
        fitting_from(names, name, abbreviated, from) matches Some(i) ==> from <= i < names.len(),
    decreases names.len() - from,
{
    if 0 <= from < names.len() && !name_fits(names[from], name, abbreviated) {
        lemma_fitting_bound(names, name, abbreviated, from + 1);
    }
}

/// One `%` directive other than `%r` and `%T` read from the input: the
/// parts it fills and the rest of the input, or `None` when the input does
/// not fit it or the directive is unknown.
pub open spec fn step(p: DateParts, s: Seq<char>, d: char) -> Option<(DateParts, Seq<char>)> {
    if d == 'Y' || d == 'y' {
        match number_of(s, if d == 'y' { 2 } else { 4 }) {
            Some((v, n, rest)) => Some((DateParts { year: if n <= 2 { short_year_of(v as int) as u32 } else { v }, ..p }, rest)),
            None => None,
        }
    } else if d == 'm' || d == 'c' {
        match number_of(s, 2) {
            Some((v, _, rest)) => Some((DateParts { month: v, ..p }, rest)),
            None => None,
        }
    } else if d == 'd' || d == 'e' {
        match number_of(s, 2) {
            Some((v, _, rest)) => Some((DateParts { day: v, ..p }, rest)),
            None => None,
        }
    } else if d == 'D' {
        match number_of(s, 2) {
            Some((v, _, rest)) => Some((DateParts { day: v, ..p }, rest.skip(class_run(rest, SkipClass::Letters, 2) as int))),
            None => None,
        }
    } else if d == 'H' || d == 'k' {
        match number_of(s, 2) {
            Some((v, _, rest)) => Some((DateParts { hour: v, ..p }, rest)),
            None => None,
        }
    } else if d == 'h' || d == 'I' || d == 'l' {
        match number_of(s, 2) {
            Some((v, _, rest)) => Some((DateParts { hour: v, twelve_hour: true, ..p }, rest)),
            None => None,
        }
    } else if d == 'i' {
        match number_of(s, 2) {
            Some((v, _, rest)) => Some((DateParts { minute: v, ..p }, rest)),
            None => None,
        }
    } else if d == 's' || d == 'S' {
        match number_of(s, 2) {
            Some((v, _, rest)) => Some((DateParts { second: v, ..p }, rest)),
            None => None,
        }
    } else if d == 'f' {
        match number_of(s, 6) {
            Some((v, n, rest)) => Some((DateParts { micros: (v * pow10((6 - n) as nat)) as u32, ..p }, rest)),
            None => None,
        }
    } else if d == 'p' {
        if !p.twelve_hour || s.len() < 2 {
            None
        } else if ascii_lower(s[0]) == 'p' && ascii_lower(s[1]) == 'm' {
            Some((DateParts { afternoon: true, ..p }, s.skip(2)))
        } else if ascii_lower(s[0]) == 'a' && ascii_lower(s[1]) == 'm' {
            Some((p, s.skip(2)))
        } else {
            None
        }
    } else if d == 'M' || d == 'b' {
        match named_of(s, month_table(), d == 'b') {
            Some((i, rest)) => Some((DateParts { month: (i + 1) as u32, ..p }, rest)),
            None => None,
        }
    } else if d == 'W' || d == 'a' {
        match named_of(s, day_table(), d == 'a') {
            Some((i, rest)) => Some((DateParts { weekday: Some(i), ..p }, rest)),
            None => None,
        }
    } else if d == 'w' {
        match number_of(s, 1) {
            Some((v, _, rest)) => if v > 6 { None } else { Some((DateParts { weekday: Some(v), ..p }, rest)) },
            None => None,
        }
    } else if d == 'j' {
        match number_of(s, 3) {
            Some((v, _, rest)) => Some((DateParts { year_day: Some(v), ..p }, rest)),
            None => None,
        }
    } else if d == 'U' || d == 'u' || d == 'V' || d == 'v' {
        match number_of(s, 2) {
            Some((v, _, rest)) => Some((DateParts { week: Some((d, v)), ..p }, rest)),
            None => None,
        }
    } else if d == 'X' || d == 'x' {
        match number_of(s, 4) {
            Some((v, _, rest)) => Some((DateParts { week_year: Some((d, v)), ..p }, rest)),
            None => None,
        }
    } else if d == '#' {
        Some((p, s.skip(class_run(s, SkipClass::Digits, s.len()) as int)))
    } else if d == '@' {
        Some((p, s.skip(class_run(s, SkipClass::Letters, s.len()) as int)))
    } else if d == '.' {
        Some((p, s.skip(class_run(s, SkipClass::Punctuation, s.len()) as int)))
    } else if d == '%' {
        if s.len() > 0 && s[0] == '%' { Some((p, s.drop_first())) } else { None }
    } else {
        None
    }
}

/// The parts a format reads from the input, and the rest of the input:
/// white space before each format character is skipped, white space in the
/// format matches nothing, other characters must match themselves, and once
/// the input runs out the remaining fields stay as they are. `%r` and `%T`
/// read `%h:%i:%s %p` and `%H:%i:%s`.
pub open spec fn consume(p: DateParts, input: Seq<char>, fmt: Seq<char>, nested: bool) -> Option<(DateParts, Seq<char>)>
    decreases (if nested { 0int } else { 1int }), fmt.len(),
{
    if fmt.len() == 0 {
        Some((p, input))
    } else {
        let c = fmt[0];
        let s = trim_start(input);
        if s.len() == 0 {
            Some((p, s))
        } else if is_white_space(c) {
            consume(p, s, fmt.drop_first(), nested)
        } else if c != '%' {
            if s[0] == c { consume(p, s.drop_first(), fmt.drop_first(), nested) } else { None }
        } else if fmt.len() < 2 {
            None
        } else {
            let d = fmt[1];
            let rest = fmt.subrange(2, fmt.len() as int);
            if d == 'r' || d == 'T' {
                if nested {
                    None
                } else {
                    match consume(p, s, if d == 'r' { "%h:%i:%s %p"@ } else { "%H:%i:%s"@ }, true) {
                        Some((q, t)) => consume(q, t, rest, nested),
                        None => None,
                    }
                }
            } else {
                match step(p, s, d) {
                    Some((q, t)) => consume(q, t, rest, nested),
                    None => None,
                }
            }
        }
    }
}

proof fn lemma_skip_skip(s: Seq<char>, a: int, b: int)
    requires
        0 <= a,
        0 <= b,
        a + b <= s.len(),
    ensures
        s.skip(a).skip(b) == s.skip(a + b),
{
    assert(s.skip(a).skip(b) =~= s.skip(a + b));
}

fn number_at(text: &[char], pos: usize, limit: usize) -> (r: Option<(u32, u32, usize)>)
    requires
        pos <= text@.len(),
        limit <= 6,
    ensures
        r matches Some((v, n, q)) ==> q <= text@.len() && number_of(text@.skip(pos as int), limit as nat) == Some(
            (v, n, text@.skip(q as int)),
        ) && 1 <= n <= limit && v < pow10(n as nat),
        r is None ==> number_of(text@.skip(pos as int), limit as nat) is None,
{
    number(text, pos, limit)
}

/// Reads one `%` directive other than `%r` and `%T` from `pos`.
fn step_at(p: DateParts, text: &[char], pos: usize, d: char) -> (r: Option<(DateParts, usize)>)
    requires
        pos <= text@.len(),
    ensures
        r matches Some((q, k)) ==> k <= text@.len() && step(p, text@.skip(pos as int), d) == Some((q, text@.skip(k as int))),
        r is None ==> step(p, text@.skip(pos as int), d) is None,
{
    let ghost s = text@.skip(pos as int);
    let _len = text.len();
    proof {
        assert(pow10(1) == 10 && pow10(2) == 100 && pow10(6) == 1000000) by {
            reveal_with_fuel(pow10, 7);
        }
    }
    if d == 'Y' || d == 'y' {
        match number_at(text, pos, if d == 'y' { 2 } else { 4 }) {
            Some((v, n, q)) => {
                let year = if n <= 2 {
                    proof {
                        lemma_pow_le(n as nat, 2);
                    }
                    short_year(v)
                } else {
                    v
                };
                Some((DateParts { year, ..p }, q))
            },
            None => None,
        }
    } else if d == 'm' || d == 'c' {
        match number_at(text, pos, 2) {
            Some((v, _, q)) => Some((DateParts { month: v, ..p }, q)),
            None => None,
        }
    } else if d == 'd' || d == 'e' {
        match number_at(text, pos, 2) {
            Some((v, _, q)) => Some((DateParts { day: v, ..p }, q)),
            None => None,
        }
    } else if d == 'D' {
        match number_at(text, pos, 2) {
            Some((v, _, q)) => {
                let n = class_count(text, q, SkipClass::Letters, 2);
                proof {
                    lemma_skip_skip(text@, q as int, n as int);
                }
                Some((DateParts { day: v, ..p }, q + n))
            },
            None => None,
        }
    } else if d == 'H' || d == 'k' {
        match number_at(text, pos, 2) {
            Some((v, _, q)) => Some((DateParts { hour: v, ..p }, q)),
            None => None,
        }
    } else if d == 'h' || d == 'I' || d == 'l' {
        match number_at(text, pos, 2) {
            Some((v, _, q)) => Some((DateParts { hour: v, twelve_hour: true, ..p }, q)),
            None => None,
        }
    } else if d == 'i' {
        match number_at(text, pos, 2) {
            Some((v, _, q)) => Some((DateParts { minute: v, ..p }, q)),
            None => None,
        }
    } else if d == 's' || d == 'S' {
        match number_at(text, pos, 2) {
            Some((v, _, q)) => Some((DateParts { second: v, ..p }, q)),
            None => None,
        }
    } else if d == 'f' {
        match number_at(text, pos, 6) {
            Some((v, n, q)) => {
                let scale: u32 = if n == 1 { 100000 } else if n == 2 { 10000 } else if n == 3 { 1000 } else if n == 4 { 100 } else if n == 5 { 10 } else { 1 };
                assert(scale == pow10((6 - n) as nat) && v * scale < 1000000) by {
                    reveal_with_fuel(pow10, 7);
                    assert(v * scale < 1000000) by (nonlinear_arith)
                        requires
                            v < pow10(n as nat),
                            scale * pow10(n as nat) == 1000000,
                    ;
                }
                Some((DateParts { micros: v * scale, ..p }, q))
            },
            None => None,
        }
    } else if d == 'p' {
        if !p.twelve_hour || text.len() - pos < 2 {
            return None;
        }
        let a = lower_char(text[pos]);
        let b = lower_char(text[pos + 1]);
        proof {
            assert(s[0] == text@[pos as int] && s[1] == text@[pos + 1]);
            lemma_skip_skip(text@, pos as int, 2);
        }
        if a == 'p' && b == 'm' {
            Some((DateParts { afternoon: true, ..p }, pos + 2))
        } else if a == 'a' && b == 'm' {
            Some((p, pos + 2))
        } else {
            None
        }
    } else if d == 'M' || d == 'b' {
        match named(text, pos, NameTable::Months, d == 'b') {
            Some((i, q)) => {
                assert(i < 12) by {
                    lemma_fitting_bound(month_table(), lowered(s.take(class_run(s, SkipClass::Letters, s.len()) as int)), d == 'b', 0);
                }
                Some((DateParts { month: i + 1, ..p }, q))
            },
            None => None,
        }
    } else if d == 'W' || d == 'a' {
        match named(text, pos, NameTable::Days, d == 'a') {
            Some((i, q)) => Some((DateParts { weekday: Some(i), ..p }, q)),
            None => None,
        }
    } else if d == 'w' {
        match number_at(text, pos, 1) {
            Some((v, _, q)) => if v > 6 {
                None
            } else {
                Some((DateParts { weekday: Some(v), ..p }, q))
            },
            None => None,
        }
    } else if d == 'j' {
        match number_at(text, pos, 3) {
            Some((v, _, q)) => Some((DateParts { year_day: Some(v), ..p }, q)),
            None => None,
        }
    } else if d == 'U' || d == 'u' || d == 'V' || d == 'v' {
        match number_at(text, pos, 2) {
            Some((v, _, q)) => Some((DateParts { week: Some((d, v)), ..p }, q)),
            None => None,
        }
    } else if d == 'X' || d == 'x' {
        match number_at(text, pos, 4) {
            Some((v, _, q)) => Some((DateParts { week_year: Some((d, v)), ..p }, q)),
            None => None,
        }
    } else if d == '#' || d == '@' || d == '.' {
        let class = if d == '#' { SkipClass::Digits } else if d == '@' { SkipClass::Letters } else { SkipClass::Punctuation };
        let q = skip(text, pos, class);
        proof {
            lemma_skip_skip(text@, pos as int, q - pos);
        }
        Some((p, q))
    } else if d == '%' {
        if pos < text.len() && text[pos] == '%' {
            proof {
                assert(s[0] == text@[pos as int]);
                lemma_skip_skip(text@, pos as int, 1);
            }
            Some((p, pos + 1))
        } else {
            None
        }
    } else {
        None
    }
}

/// The white space at `pos` skipped.
fn skip_space(text: &[char], pos: usize) -> (r: usize)
    requires
        pos <= text@.len(),
    ensures
        r <= text@.len(),
        text@.skip(r as int) == trim_start(text@.skip(pos as int)),
{
    let len = text.len();
    let mut q = pos;
    let ghost s = text@.skip(pos as int);
    while q < len && white_space(text[q])
        invariant
            len == text@.len(),
            pos <= q <= text@.len(),
            s == text@.skip(pos as int),
            leading_space(s) == (q - pos) + leading_space(text@.skip(q as int)),
        decreases len - q,
    {
        proof {
            assert(text@.skip(q as int).drop_first() =~= text@.skip(q + 1));
        }
        q = q + 1;
    }
    proof {
        assert(leading_space(text@.skip(q as int)) == 0);
        assert(text@.skip(q as int) =~= s.subrange(leading_space(s) as int, s.len() as int));
    }
    q
}

/// Reads a format from `pos`: the parts it fills and where the input it
/// leaves begins.
fn consume_at(parts: DateParts, text: &[char], start: usize, fmt: &[char], nested: bool) -> (r: Option<(DateParts, usize)>)
    requires
        start <= text@.len(),
    ensures
        r matches Some((q, k)) ==> k <= text@.len() && consume(parts, text@.skip(start as int), fmt@, nested) == Some((q, text@.skip(k as int))),
        r is None ==> consume(parts, text@.skip(start as int), fmt@, nested) is None,
    decreases (if nested { 0int } else { 1int }),
{
    let len = text.len();
    let mut p = parts;
    let mut pos = start;
    let mut j: usize = 0;
    let ghost whole = consume(p, text@.skip(pos as int), fmt@, nested);
    assert(fmt@.skip(0) =~= fmt@);
    while j < fmt.len()
        invariant
            len == text@.len(),
            pos <= text@.len(),
            j <= fmt@.len(),
            whole == consume(p, text@.skip(pos as int), fmt@.skip(j as int), nested),
            whole == consume(parts, text@.skip(start as int), fmt@, nested),
        decreases fmt@.len() - j,
    {
        let c = fmt[j];
        let ghost f = fmt@.skip(j as int);
        assert(f[0] == c);
        let at = skip_space(text, pos);
        assert(f.len() > 0);
        assert(trim_start(text@.skip(pos as int)) == text@.skip(at as int));
        if at == len {
            assert(text@.skip(at as int) =~= Seq::<char>::empty());
            assert(consume(p, text@.skip(pos as int), f, nested) == Some((p, text@.skip(at as int))));
            return Some((p, at));
        }
        proof {
            assert(text@.skip(at as int)[0] == text@[at as int]);
        }
        if white_space(c) {
            assert(f.drop_first() =~= fmt@.skip(j + 1));
            pos = at;
            j = j + 1;
        } else if c != '%' {
            if text[at] != c {
                assert(consume(p, text@.skip(pos as int), f, nested) is None);
                return None;
            }
            proof {
                assert(f.drop_first() =~= fmt@.skip(j + 1));
                assert(text@.skip(at as int).drop_first() =~= text@.skip(at + 1));
            }
            pos = at + 1;
            j = j + 1;
        } else {
            if j + 1 >= fmt.len() {
                return None;
            }
            let d = fmt[j + 1];
            proof {
                assert(f[1] == d);
                assert(f.subrange(2, f.len() as int) =~= fmt@.skip(j + 2));
            }
            if d == 'r' || d == 'T' {
                if nested {
                    return None;
                }
                let sub = if d == 'r' { chars_of("%h:%i:%s %p") } else { chars_of("%H:%i:%s") };
                match consume_at(p, text, at, sub.as_slice(), true) {
                    Some((q, k)) => {
                        p = q;
                        pos = k;
                    },
                    None => return None,
                }
            } else {
                match step_at(p, text, at, d) {
                    Some((q, k)) => {
                        p = q;
                        pos = k;
                    },
                    None => return None,
                }
            }
            j = j + 2;
        }
    }
    assert(fmt@.skip(j as int) =~= Seq::<char>::empty());
    Some((p, pos))
}

/// The parts with a date set, when its year is one `STR_TO_DATE` keeps.
pub open spec fn with_date(p: DateParts, d: CivilDate) -> Option<DateParts> {
    if d.year < 0 || d.year > 9999 {
        None
    } else {
        Some(DateParts { year: d.year as u32, month: d.month, day: d.day, ..p })
    }
}

/// The year a week number counts in: `%V` needs `%X`, `%v` needs `%x`,
/// and `%U`/`%u` take the plain year and refuse a week year.
pub open spec fn week_anchor_year(mode: char, week_year: Option<(char, u32)>, year: u32) -> Option<int> {
    match week_year {
        Some((m, y)) => if (mode == 'V' && m == 'X') || (mode == 'v' && m == 'x') {
            Some(y as int)
        } else {
            None
        },
        None => if mode == 'U' || mode == 'u' {
            Some(year as int)
        } else {
            None
        },
    }
}

/// The date of a weekday in a numbered week: Sunday-first weeks (`%U`,
/// `%V`) count from the year's first Sunday, Monday-first ones from the
/// Monday of the week holding January 4.
pub open spec fn week_date(year: int, mode: char, week: int, weekday: int) -> Option<CivilDate> {
    let sunday = mode == 'U' || mode == 'V';
    let anchor = CivilDate { year: year as i32, month: 1, day: if sunday { 1 } else { 4 } };
    let offset = if sunday { (7 - weekday_from_sunday(anchor)) % 7 } else { -weekday_from_monday(anchor) };
    let day = if sunday { weekday } else { (weekday + 6) % 7 };
    let n = days_from_ce(anchor) + offset + (week - 1) * 7 + day;
    if year > MAX_YEAR {
        None
    } else if n < i32::MIN || n > i32::MAX {
        None
    } else {
        date_at_day_number(n)
    }
}

/// A day of the year, given with a non-zero year, sets the date.
pub open spec fn ordinal_step(p: DateParts) -> Option<DateParts> {
    match p.year_day {
        Some(o) => if p.year != 0 {
            match date_at_ordinal(p.year as int, o as int) {
                Some(d) => with_date(p, d),
                None => None,
            }
        } else {
            Some(p)
        },
        None => Some(p),
    }
}

/// A week number, which needs a weekday, sets the date; `year` is the
/// year the format gave.
pub open spec fn week_step(p: DateParts, year: u32) -> Option<DateParts> {
    match p.week {
        None => Some(p),
        Some((mode, week)) => match p.weekday {
            None => None,
            Some(wd) => if week > 53 || ((mode == 'V' || mode == 'v') && week == 0) {
                None
            } else {
                match week_anchor_year(mode, p.week_year, year) {
                    None => None,
                    Some(y) => match week_date(y, mode, week as int, wd as int) {
                        Some(d) => with_date(p, d),
                        None => None,
                    },
                }
            },
        },
    }
}

/// A full date must exist, year zero counting as year one (no leap year).
pub open spec fn existing(p: DateParts) -> Option<DateParts> {
    if p.month != 0 && p.day != 0 && !valid_ymd((if p.year < 1 { 1 } else { p.year }) as i32, p.month, p.day) {
        None
    } else {
        Some(p)
    }
}

/// Completes the date from a day of the year or a week and weekday, and
/// refuses fields out of range and a full date that does not exist.
pub open spec fn finish_date(p: DateParts) -> Option<DateParts> {
    if p.year > 9999 || p.month > 12 || p.day > 31 {
        None
    } else {
        match ordinal_step(p) {
            None => None,
            Some(p1) => match week_step(p1, p.year) {
                None => None,
                Some(p2) => existing(p2),
            },
        }
    }
}

fn set_date(p: DateParts, d: CivilDate) -> (r: Option<DateParts>)
    ensures
        r == with_date(p, d),
        r matches Some(q) ==> q.day == d.day && q.year <= 9999,
{
    if d.year < 0 || d.year > 9999 {
        None
    } else {
        Some(DateParts { year: d.year as u32, month: d.month, day: d.day, ..p })
    }
}

fn date_of_week(year: u32, mode: char, week: u32, weekday: u32) -> (r: Option<CivilDate>)
    requires
        week <= 53,
    ensures
        r == week_date(year as int, mode, week as int, weekday as int),
        r matches Some(d) ==> d.day <= 31,
{
    if year > 262142 {
        return None;
    }
    let sunday = mode == 'U' || mode == 'V';
    let anchor = CivilDate { year: year as i32, month: 1, day: if sunday { 1 } else { 4 } };
    let offset: i64 = if sunday {
        ((7 - weekday_sunday_first(anchor)) % 7) as i64
    } else {
        -(weekday_monday_first(anchor) as i64)
    };
    let day: i64 = if sunday { weekday as i64 } else { ((weekday % 7 + 6) % 7) as i64 };
    assert(day == (if sunday { weekday as int } else { (weekday + 6) % 7 }));
    let base = day_number(anchor) as i64;
    let n: i64 = base + offset + (week as i64 - 1) * 7 + day;
    if n < -2147483648 || n > 2147483647 {
        return None;
    }
    date_of_day_number(n as i32)
}

fn ordinal_at(p: DateParts) -> (r: Option<DateParts>)
    requires
        p.year <= 9999,
        p.day <= 31,
    ensures
        r == ordinal_step(p),
        r matches Some(q) ==> q.day <= 31 && q.year <= 9999,
{
    match p.year_day {
        Some(o) => if p.year != 0 {
            match date_from_ordinal(p.year as i32, o) {
                Some(d) => set_date(p, d),
                None => None,
            }
        } else {
            Some(p)
        },
        None => Some(p),
    }
}

fn week_at(p: DateParts, year: u32) -> (r: Option<DateParts>)
    requires
        p.year <= 9999,
        p.day <= 31,
    ensures
        r == week_step(p, year),
        r matches Some(q) ==> q.day <= 31 && q.year <= 9999,
{
    match p.week {
        None => Some(p),
        Some((mode, week)) => match p.weekday {
            None => None,
            Some(wd) => if week > 53 || ((mode == 'V' || mode == 'v') && week == 0) {
                None
            } else {
                let anchor_year: Option<u32> = match p.week_year {
                    Some((m, y)) => if (mode == 'V' && m == 'X') || (mode == 'v' && m == 'x') {
                        Some(y)
                    } else {
                        None
                    },
                    None => if mode == 'U' || mode == 'u' {
                        Some(year)
                    } else {
                        None
                    },
                };
                match anchor_year {
                    None => None,
                    Some(y) => match date_of_week(y, mode, week, wd) {
                        Some(d) => set_date(p, d),
                        None => None,
                    },
                }
            },
        },
    }
}

/// Completes the parsed parts into a date.
fn finish(p: DateParts) -> (r: Option<DateParts>)
    ensures
        r == finish_date(p),
        r matches Some(q) ==> q.day <= 31,
{
    if p.year > 9999 || p.month > 12 || p.day > 31 {
        return None;
    }
    let p1 = match ordinal_at(p) {
        Some(q) => q,
        None => return None,
    };
    let p2 = match week_at(p1, p.year) {
        Some(q) => q,
        None => return None,
    };
    if p2.month != 0 && p2.day != 0 && !date_exists(if p2.year < 1 { 1 } else { p2.year as i32 }, p2.month, p2.day) {
        return None;
    }
    Some(p2)
}

/// The fractional-second precision a target type renders.
pub open spec fn target_fsp(target: Option<TargetType>) -> int {
    match target {
        Some(TargetType::DateTime64 { fsp }) => fsp as int,
        Some(TargetType::Time64 { fsp }) => fsp as int,
        _ => 0,
    }
}

/// `STR_TO_DATE(text, format)` rendered for its target type. A twelve-hour
/// clock needs an hour in 1..=12; `policy` bit 1 refuses a zero date part
/// (`NO_ZERO_IN_DATE`-style), bit 2 a zero month or day in a non-zero year
/// (`NO_ZERO_DATE`-style), neither for a time target. A time target folds
/// the days into the hours.
pub open spec fn str_to_date_text(text: Seq<char>, format: Seq<char>, target: Option<TargetType>, policy: u64) -> Option<Seq<char>> {
    match consume(empty_parts(), trim_start(text), format, false) {
        None => None,
        Some((parsed, _)) => match finish_date(parsed) {
            None => None,
            Some(p) => if p.twelve_hour && !(1 <= p.hour <= 12) {
                None
            } else {
                let hour = if p.twelve_hour { p.hour % 12 + if p.afternoon { 12int } else { 0int } } else { p.hour as int };
                let time_only = target matches Some(TargetType::Time64 { .. });
                if hour > 23 || p.minute > 59 || p.second > 59 {
                    None
                } else if !time_only && ((policy & 1 != 0 && (p.year == 0 || p.month == 0 || p.day == 0)) || (
                policy & 2 != 0 && p.year != 0 && (p.month == 0 || p.day == 0))) {
                    None
                } else {
                    Some(rendered(p, hour, target))
                }
            },
        },
    }
}

/// The date of accepted parts as `YYYY-MM-DD`.
pub open spec fn date_text(p: DateParts) -> Seq<char> {
    padded(p.year as nat, 4) + seq!['-'] + padded(p.month as nat, 2) + seq!['-'] + padded(p.day as nat, 2)
}

/// A clock as `hh:mm:ss`, with the first `fsp` digits of the microseconds.
pub open spec fn clock_text(hour: int, p: DateParts, fsp: int) -> Seq<char> {
    padded(hour as nat, 2) + seq![':'] + padded(p.minute as nat, 2) + seq![':'] + padded(p.second as nat, 2)
        + if fsp > 0 {
        seq!['.'] + padded(p.micros as nat, 6).take(fsp)
    } else {
        Seq::empty()
    }
}

/// Accepted parts rendered as a date, a time or both, the fraction cut to
/// the target's precision; a time target folds the days into the hours.
pub open spec fn rendered(p: DateParts, hour: int, target: Option<TargetType>) -> Seq<char> {
    let time_only = target matches Some(TargetType::Time64 { .. });
    if target == Some(TargetType::Date32) {
        date_text(p)
    } else if time_only {
        clock_text(hour + p.day * 24, p, target_fsp(target))
    } else {
        date_text(p) + seq![' '] + clock_text(hour, p, target_fsp(target))
    }
}

/// `MySQL` `STR_TO_DATE`, rendered as a date, a datetime or a time; a
/// type's fractional precision is at most 6.
pub fn str_to_date(text: &str, format: &str, target: Option<TargetType>, policy: u64) -> (r: Option<String>)
    requires
        target_fsp(target) <= 6,
    ensures
        r matches Some(s) ==> str_to_date_text(text@, format@, target, policy) == Some(s@),
        r is None ==> str_to_date_text(text@, format@, target, policy) is None,
{
    let chars = chars_of(text);
    let fmt = chars_of(format);
    let start = skip_space(chars.as_slice(), 0);
    assert(chars@.skip(0) =~= chars@);
    let empty = DateParts {
        year: 0,
        month: 0,
        day: 0,
        hour: 0,
        minute: 0,
        second: 0,
        micros: 0,
        twelve_hour: false,
        afternoon: false,
        year_day: None,
        weekday: None,
        week: None,
        week_year: None,
    };
    let parsed = match consume_at(empty, chars.as_slice(), start, fmt.as_slice(), false) {
        Some((q, _)) => q,
        None => return None,
    };
    let p = match finish(parsed) {
        Some(q) => q,
        None => return None,
    };
    if p.twelve_hour && !(1 <= p.hour && p.hour <= 12) {
        return None;
    }
    let hour: u32 = if p.twelve_hour { p.hour % 12 + if p.afternoon { 12 } else { 0 } } else { p.hour };
    let time_only = match target {
        Some(TargetType::Time64 { .. }) => true,
        _ => false,
    };
    if hour > 23 || p.minute > 59 || p.second > 59 {
        return None;
    }
    if !time_only && ((policy & 1 != 0 && (p.year == 0 || p.month == 0 || p.day == 0)) || (policy & 2 != 0
        && p.year != 0 && (p.month == 0 || p.day == 0))) {
        return None;
    }
    Some(render(p, hour, target))
}

fn push_date(out: &mut Vec<char>, p: DateParts)
    ensures
        final(out)@ == old(out)@ + date_text(p),
{
    push_padded(out, p.year as u64, 4);
    out.push('-');
    push_padded(out, p.month as u64, 2);
    out.push('-');
    push_padded(out, p.day as u64, 2);
    assert(out@ =~= old(out)@ + date_text(p));
}

fn push_clock(out: &mut Vec<char>, hour: u32, p: DateParts, fsp: usize)
    requires
        fsp <= 6,
    ensures
        final(out)@ == old(out)@ + clock_text(hour as int, p, fsp as int),
{
    let ghost start = out@;
    push_padded(out, hour as u64, 2);
    out.push(':');
    push_padded(out, p.minute as u64, 2);
    out.push(':');
    push_padded(out, p.second as u64, 2);
    let ghost clock = out@;
    assert(clock =~= start + (padded(hour as nat, 2) + seq![':'] + padded(p.minute as nat, 2) + seq![':']
        + padded(p.second as nat, 2)));
    if fsp > 0 {
        out.push('.');
        let mut micros: Vec<char> = Vec::new();
        push_padded(&mut micros, p.micros as u64, 6);
        proof {
            lemma_padded_len(p.micros as nat, 6);
        }
        let mut k: usize = 0;
        while k < fsp
            invariant
                k <= fsp <= 6,
                micros@ == padded(p.micros as nat, 6),
                micros@.len() >= 6,
                out@ == clock + seq!['.'] + micros@.take(k as int),
            decreases fsp - k,
        {
            out.push(micros[k]);
            k = k + 1;
            assert(out@ =~= clock + seq!['.'] + micros@.take(k as int));
        }
    }
    assert(out@ =~= start + clock_text(hour as int, p, fsp as int));
}

fn render(p: DateParts, hour: u32, target: Option<TargetType>) -> (r: String)
    requires
        target_fsp(target) <= 6,
        hour <= 23,
        p.day <= 31,
    ensures
        r@ == rendered(p, hour as int, target),
{
    let fsp: usize = match target {
        Some(TargetType::DateTime64 { fsp }) => fsp as usize,
        Some(TargetType::Time64 { fsp }) => fsp as usize,
        _ => 0,
    };
    let mut out: Vec<char> = Vec::new();
    match target {
        Some(TargetType::Date32) => {
            push_date(&mut out, p);
        },
        Some(TargetType::Time64 { .. }) => {
            push_clock(&mut out, hour + p.day * 24, p, fsp);
        },
        _ => {
            push_date(&mut out, p);
            out.push(' ');
            push_clock(&mut out, hour, p, fsp);
        },
    }
    string_of(out.as_slice())
}

/// The 24-hour value of a twelve-hour clock reading: 12 AM is hour 0,
/// 12 PM is hour 12, and 1 to 11 PM are 13 to 23.
pub open spec fn hour_of_day(hour12: int, afternoon: bool) -> int {
    (if hour12 == 12 { 0int } else { hour12 }) + (if afternoon { 12int } else { 0int })
}

/// A twelve-hour reading from 1 to 12 is always accepted on a time
/// target (or with no zero-date policy), and is rendered at its 24-hour
/// value: `12:30 PM` is `12:30`, `12:00 AM` is `00:00`, `1:05 PM` is
/// `13:05`.
pub proof fn law_twelve_hour_clock(text: Seq<char>, format: Seq<char>, target: Option<TargetType>, policy: u64)
    requires
        consume(empty_parts(), trim_start(text), format, false) matches Some((parsed, _)) && finish_date(parsed) matches Some(
            p,
        ) && p.twelve_hour && 1 <= p.hour <= 12 && p.minute <= 59 && p.second <= 59,
        target matches Some(TargetType::Time64 { .. }) || policy == 0,
    ensures
        ({
            let p = finish_date(consume(empty_parts(), trim_start(text), format, false)->Some_0.0)->Some_0;
            &&& 0 <= hour_of_day(p.hour as int, p.afternoon) <= 23
            &&& str_to_date_text(text, format, target, policy) == Some(
                rendered(p, hour_of_day(p.hour as int, p.afternoon), target),
            )
        }),
{
    let c = consume(empty_parts(), trim_start(text), format, false);
    let parsed = c->Some_0.0;
    let p = finish_date(parsed)->Some_0;
    let h = p.hour % 12 + if p.afternoon { 12int } else { 0int };
    assert(h == hour_of_day(p.hour as int, p.afternoon));
    assert(0 <= h <= 23);
    let time_only = target matches Some(TargetType::Time64 { .. });
    assert(!(!time_only && ((policy & 1 != 0 && (p.year == 0 || p.month == 0 || p.day == 0)) || (policy & 2
        != 0 && p.year != 0 && (p.month == 0 || p.day == 0))))) by {
        if !time_only {
            assert(policy == 0);
            assert(0u64 & 1 == 0 && 0u64 & 2 == 0) by (bit_vector);
        }
    }
}

} // verus!
