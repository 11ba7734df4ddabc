//! The text rewrites around `MySQL`'s `REGEXP_*` functions: POSIX classes to
//! their Unicode forms, ICU's line endings to `\n`, the checks that decide
//! when a pattern needs SQL line-boundary assertions, and the compile
//! options a match type selects.
use crate::chars::{chars_of, push_all, string_of};
use crate::decimal::ExecError;
use crate::text::{find_chars, find_from, matches_at, occurs_at};
use vstd::prelude::*;
use vstd::string::StringSliceAdditionalSpecFns;

verus! {

/// `str::replace`: every occurrence of `from`, left to right and not
/// overlapping, replaced by `to`.
pub open spec fn replaced(s: Seq<char>, from: Seq<char>, to: Seq<char>) -> Seq<char>
    decreases s.len(),
{
    if from.len() == 0 || s.len() < from.len() {
        s
    } else if s.take(from.len() as int) == from {
        to + replaced(s.skip(from.len() as int), from, to)
    } else {
        seq![s[0]] + replaced(s.drop_first(), from, to)
    }
}

/// Replaces every occurrence of a non-empty `from` by `to`.
pub fn replace_chars(s: &[char], from: &[char], to: &[char]) -> (r: Vec<char>)
    requires
        from@.len() > 0,
    ensures
        r@ == replaced(s@, from@, to@),
{
    let len = s.len();
    let mut out: Vec<char> = Vec::new();
    let mut i: usize = 0;
    assert(s@.skip(0) =~= s@);
    while i < len
        invariant
            len == s@.len(),
            i <= len,
            from@.len() > 0,
            out@ + replaced(s@.skip(i as int), from@, to@) == replaced(s@, from@, to@),
        decreases len - i,
    {
        let ghost rest = s@.skip(i as int);
        if matches_at(s, from, i) {
            proof {
                assert(rest.take(from@.len() as int) =~= s@.subrange(i as int, i + from@.len()));
                assert(rest.skip(from@.len() as int) =~= s@.skip(i + from@.len()));
                assert(out@ + to@ + replaced(s@.skip(i + from@.len()), from@, to@) =~= out@ + replaced(rest, from@, to@));
            }
            push_all(&mut out, to);
            i = i + from.len();
        } else {
            proof {
                if rest.len() >= from@.len() {
                    assert(rest.take(from@.len() as int) =~= s@.subrange(i as int, i + from@.len()));
                    assert(rest.drop_first() =~= s@.skip(i + 1));
                    assert(out@.push(s@[i as int]) + replaced(s@.skip(i + 1), from@, to@) =~= out@ + replaced(rest, from@, to@));
                } else {
                    assert(replaced(rest, from@, to@) == rest);
                }
            }
            if len - i < from.len() {
                let ghost before = out@;
                let mut k = i;
                while k < len
                    invariant
                        len == s@.len(),
                        i <= k <= len,
                        out@ == before + s@.subrange(i as int, k as int),
                    decreases len - k,
                {
                    out.push(s[k]);
                    k = k + 1;
                    assert(out@ =~= before + s@.subrange(i as int, k as int));
                }
                assert(s@.subrange(i as int, len as int) =~= rest);
                return out;
            }
            out.push(s[i]);
            i = i + 1;
        }
    }
    assert(s@.skip(len as int) =~= Seq::<char>::empty());
    out
}

/// ICU's POSIX bracket classes in the forms Rust's regex engine reads as
/// Unicode, applied in this order; `[:xdigit:]` and the punctuation classes
/// are ASCII in both and stay.
pub open spec fn posix_rewritten(p: Seq<char>) -> Seq<char> {
    let a = replaced(p, "[:alpha:]"@, "\\p{Alphabetic}"@);
    let b = replaced(a, "[:alnum:]"@, "\\p{Alphabetic}\\p{Nd}"@);
    let c = replaced(b, "[:digit:]"@, "\\p{Nd}"@);
    let d = replaced(c, "[:lower:]"@, "\\p{Lowercase}"@);
    let e = replaced(d, "[:upper:]"@, "\\p{Uppercase}"@);
    let f = replaced(e, "[:space:]"@, "\\s"@);
    replaced(f, "[:word:]"@, "\\w"@)
}

fn rewrite(s: Vec<char>, from: &str, to: &str) -> (r: Vec<char>)
    requires
        from@.len() > 0,
    ensures
        r@ == replaced(s@, from@, to@),
{
    let f = chars_of(from);
    let t = chars_of(to);
    replace_chars(s.as_slice(), f.as_slice(), t.as_slice())
}

/// Rewrites POSIX bracket classes to their Unicode equivalents, which is
/// what `MySQL`'s ICU engine matches (`[[:alpha:]]` matches an accented
/// letter there).
pub fn unicode_posix_classes(pattern: &str) -> (r: String)
    ensures
        r@ == posix_rewritten(pattern@),
{
    proof {
        reveal_strlit("[:alpha:]");
        reveal_strlit("[:alnum:]");
        reveal_strlit("[:digit:]");
        reveal_strlit("[:lower:]");
        reveal_strlit("[:upper:]");
        reveal_strlit("[:space:]");
        reveal_strlit("[:word:]");
    }
    let p = chars_of(pattern);
    let p = rewrite(p, "[:alpha:]", "\\p{Alphabetic}");
    let p = rewrite(p, "[:alnum:]", "\\p{Alphabetic}\\p{Nd}");
    let p = rewrite(p, "[:digit:]", "\\p{Nd}");
    let p = rewrite(p, "[:lower:]", "\\p{Lowercase}");
    let p = rewrite(p, "[:upper:]", "\\p{Uppercase}");
    let p = rewrite(p, "[:space:]", "\\s");
    let p = rewrite(p, "[:word:]", "\\w");
    string_of(p.as_slice())
}

/// Whether a character ends a line for ICU besides `\n` and `\r`.
pub open spec fn is_unicode_break(c: char) -> bool {
    c == '\u{85}' || c == '\u{2028}' || c == '\u{2029}'
}

/// ICU's line endings (CR, CRLF, NEL, LS, PS) as `\n`.
pub open spec fn unix_endings(s: Seq<char>) -> Seq<char>
    decreases s.len(),
{
    if s.len() == 0 {
        s
    } else if s[0] == '\r' {
        seq!['\n'] + unix_endings(if s.len() > 1 && s[1] == '\n' { s.skip(2) } else { s.drop_first() })
    } else if is_unicode_break(s[0]) {
        seq!['\n'] + unix_endings(s.drop_first())
    } else {
        seq![s[0]] + unix_endings(s.drop_first())
    }
}

/// Normalizes ICU's line endings to `\n` for Rust's regex engine, which
/// treats only `\n` specially.
pub fn normalize_mysql_regex_line_endings(text: &str) -> (r: String)
    ensures
        r@ == unix_endings(text@),
{
    let s = chars_of(text);
    let len = s.len();
    let mut out: Vec<char> = Vec::new();
    let mut i: usize = 0;
    assert(s@.skip(0) =~= s@);
    while i < len
        invariant
            len == s@.len(),
            i <= len,
            out@ + unix_endings(s@.skip(i as int)) == unix_endings(s@),
        decreases len - i,
    {
        let c = s[i];
        let ghost rest = s@.skip(i as int);
        assert(rest[0] == c);
        if c == '\r' {
            if i + 1 < len && s[i + 1] == '\n' {
                assert(rest[1] == s@[i + 1]);
                assert(rest.skip(2) =~= s@.skip(i + 2));
                i = i + 2;
            } else {
                assert(rest.drop_first() =~= s@.skip(i + 1));
                i = i + 1;
            }
            out.push('\n');
        } else {
            assert(rest.drop_first() =~= s@.skip(i + 1));
            if c == '\u{85}' || c == '\u{2028}' || c == '\u{2029}' {
                out.push('\n');
            } else {
                out.push(c);
            }
            i = i + 1;
        }
        assert(out@ + unix_endings(s@.skip(i as int)) =~= unix_endings(s@));
    }
    assert(s@.skip(len as int) =~= Seq::<char>::empty());
    assert(out@ =~= unix_endings(s@));
    string_of(out.as_slice())
}

/// Whether `d` occurs anywhere in `t`.
pub open spec fn holds(t: Seq<char>, d: Seq<char>) -> bool {
    exists|i: int| occurs_at(t, d, i)
}

fn contains_chars(t: &[char], d: &str) -> (r: bool)
    ensures
        r == holds(t@, d@),
{
    let dc = chars_of(d);
    let found = find_chars(t, dc.as_slice(), 0);
    proof {
        reveal(find_from);
        if found is None {
            assert forall|i: int| !occurs_at(t@, d@, i) by {
                if occurs_at(t@, d@, i) {
                    assert(0 <= i);
                }
            }
        }
    }
    found.is_some()
}

/// Whether a pattern needs the boundary-aware engine: an end-of-line or
/// end-of-text assertion, or a start anchor under multi-line matching or
/// inline flags.
pub open spec fn boundary_pattern(p: Seq<char>, multiline: bool) -> bool {
    holds(p, "$"@) || holds(p, "\\Z"@) || (holds(p, "^"@) && (multiline || holds(p, "(?"@)))
}

/// Whether a pattern needs SQL line-boundary assertions.
pub fn needs_boundaries(pattern: &str, multiline: bool) -> (r: bool)
    ensures
        r == boundary_pattern(pattern@, multiline),
{
    let p = chars_of(pattern);
    contains_chars(p.as_slice(), "$") || contains_chars(p.as_slice(), "\\Z") || (contains_chars(p.as_slice(), "^")
        && (multiline || contains_chars(p.as_slice(), "(?")))
}

/// Whether a text holds no line ending.
pub fn single_line(text: &str) -> (r: bool)
    ensures
        r == (forall|i: int| 0 <= i < text@.len() ==> !(text@[i] == '\n' || text@[i] == '\r' || is_unicode_break(#[trigger] text@[i]))),
{
    let s = chars_of(text);
    let mut i: usize = 0;
    while i < s.len()
        invariant
            s@ == text@,
            i <= s@.len(),
            forall|k: int| 0 <= k < i ==> !(text@[k] == '\n' || text@[k] == '\r' || is_unicode_break(#[trigger] text@[k])),
        decreases s@.len() - i,
    {
        let c = s[i];
        if c == '\n' || c == '\r' || c == '\u{85}' || c == '\u{2028}' || c == '\u{2029}' {
            assert(is_unicode_break(text@[i as int]) || text@[i as int] == '\n' || text@[i as int] == '\r');
            return false;
        }
        i = i + 1;
    }
    true
}

/// `\Z` respelled `\z`, every other escape and character kept.
pub open spec fn end_respelled(s: Seq<char>) -> Seq<char>
    decreases s.len(),
{
    if s.len() == 0 {
        s
    } else if s[0] == '\\' && s.len() > 1 {
        seq!['\\', if s[1] == 'Z' { 'z' } else { s[1] }] + end_respelled(s.skip(2))
    } else {
        seq![s[0]] + end_respelled(s.drop_first())
    }
}

/// Normalizes the spelling of `\Z` without moving any character or
/// touching an escaped backslash.
pub fn normalize_end_spelling(pattern: &str) -> (r: String)
    ensures
        r@ == end_respelled(pattern@),
{
    let s = chars_of(pattern);
    let len = s.len();
    let mut out: Vec<char> = Vec::new();
    let mut i: usize = 0;
    assert(s@.skip(0) =~= s@);
    while i < len
        invariant
            len == s@.len(),
            i <= len,
            out@ + end_respelled(s@.skip(i as int)) == end_respelled(s@),
        decreases len - i,
    {
        let c = s[i];
        let ghost rest = s@.skip(i as int);
        assert(rest[0] == c);
        out.push(c);
        if c == '\\' && i + 1 < len {
            let next = s[i + 1];
            assert(rest[1] == next);
            assert(rest.skip(2) =~= s@.skip(i + 2));
            out.push(if next == 'Z' { 'z' } else { next });
            i = i + 2;
        } else {
            assert(rest.drop_first() =~= s@.skip(i + 1));
            i = i + 1;
        }
        assert(out@ + end_respelled(s@.skip(i as int)) =~= end_respelled(s@));
    }
    assert(s@.skip(len as int) =~= Seq::<char>::empty());
    assert(out@ =~= end_respelled(s@));
    string_of(out.as_slice())
}

/// The compile options a `REGEXP_*` match type selects.
#[derive(Clone, Copy, Debug, PartialEq, Eq, Structural)]
pub struct RegexOptions {
    pub case_insensitive: bool,
    pub multi_line: bool,
    pub dot_matches_new_line: bool,
}

/// The options after reading `flags` left to right from the defaults
/// (case-insensitive, single-line, `.` not matching a newline): `c` and `i`
/// set case sensitivity, the rightmost winning; `m` multi-line; `n` lets
/// `.` match a newline; `u` changes only how the subject is normalized;
/// any other flag is refused.
pub open spec fn options_of(flags: Seq<char>) -> Option<RegexOptions>
    decreases flags.len(),
{
    if flags.len() == 0 {
        Some(RegexOptions { case_insensitive: true, multi_line: false, dot_matches_new_line: false })
    } else {
        match options_of(flags.drop_last()) {
            None => None,
            Some(o) => {
                let f = flags.last();
                if f == 'c' {
                    Some(RegexOptions { case_insensitive: false, ..o })
                } else if f == 'i' {
                    Some(RegexOptions { case_insensitive: true, ..o })
                } else if f == 'm' {
                    Some(RegexOptions { multi_line: true, ..o })
                } else if f == 'n' {
                    Some(RegexOptions { dot_matches_new_line: true, ..o })
                } else if f == 'u' {
                    Some(o)
                } else {
                    None
                }
            },
        }
    }
}

/// The longest pattern, in bytes, a `REGEXP_*` function compiles.
pub const MAX_REGEX_PATTERN_BYTES: usize = 65536;

/// The options a `REGEXP_*` call compiles its pattern with, from its
/// match type; `InvalidExpressionType` for a pattern over the length limit
/// or an unknown flag.
pub fn regex_match_options(pattern: &str, match_type: &str) -> (r: Result<RegexOptions, ExecError>)
    ensures
        match r {
            Ok(o) => pattern.spec_bytes().len() <= MAX_REGEX_PATTERN_BYTES && options_of(match_type@)
                == Some(o),
            Err(e) => e == ExecError::InvalidExpressionType && (pattern.spec_bytes().len()
                > MAX_REGEX_PATTERN_BYTES || options_of(match_type@) is None),
        },
{
    if pattern.as_bytes().len() > MAX_REGEX_PATTERN_BYTES {
        return Err(ExecError::InvalidExpressionType);
    }
    let flags = chars_of(match_type);
    let mut options = RegexOptions {
        case_insensitive: true,
        multi_line: false,
        dot_matches_new_line: false,
    };
    let mut i: usize = 0;
    while i < flags.len()
        invariant
            i <= flags@.len(),
            flags@ == match_type@,
            pattern.spec_bytes().len() <= MAX_REGEX_PATTERN_BYTES,
            options_of(flags@.subrange(0, i as int)) == Some(options),
        decreases flags@.len() - i,
    {
        let f = flags[i];
        proof {
            let t = flags@.subrange(0, i + 1);
            assert(t.drop_last() =~= flags@.subrange(0, i as int));
            assert(t.last() == f);
        }
        if f == 'c' {
            options = RegexOptions { case_insensitive: false, ..options };
        } else if f == 'i' {
            options = RegexOptions { case_insensitive: true, ..options };
        } else if f == 'm' {
            options = RegexOptions { multi_line: true, ..options };
        } else if f == 'n' {
            options = RegexOptions { dot_matches_new_line: true, ..options };
        } else if f != 'u' {
            proof {
                lemma_options_fail(flags@, i + 1);
            }
            return Err(ExecError::InvalidExpressionType);
        }
        i = i + 1;
    }
    assert(flags@.subrange(0, i as int) =~= flags@);
    Ok(options)
}

/// Once a flag is refused, every longer run of flags is refused.
proof fn lemma_options_fail(flags: Seq<char>, k: int)
    requires
        0 <= k <= flags.len(),
        options_of(flags.subrange(0, k)) is None,
    ensures
        options_of(flags) is None,
    decreases flags.len() - k,
{
    if k < flags.len() {
        let t = flags.subrange(0, k + 1);
        assert(t.drop_last() =~= flags.subrange(0, k));
        lemma_options_fail(flags, k + 1);
    } else {
        assert(flags.subrange(0, k) =~= flags);
    }
}

} // verus!
