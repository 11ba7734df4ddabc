//! `LIKE` pattern matching: `%` matches any run, `_` any one character,
//! and the escape character makes the next pattern character literal. A
//! binary operand compares literal characters exactly; text compares them
//! under the case- and accent-insensitive fold that `LOCATE` uses.
use crate::chars::{chars_of, string_of};
use crate::fold::{fold_unless_binary, folded_text};
use vstd::prelude::*;

verus! {

/// One element of a `LIKE` pattern.
#[derive(Clone, Copy, Debug, PartialEq, Eq, Structural)]
pub enum LikeToken {
    Literal(char),
    AnyOne,
    AnyMany,
}

/// The tokens of a pattern; `None` when it ends in a lone escape
/// character, which matches nothing.
pub open spec fn like_tokens(p: Seq<char>, escape: Option<char>) -> Option<Seq<LikeToken>>
    decreases p.len(),
{
    if p.len() == 0 {
        Some(Seq::empty())
    } else if escape == Some(p[0]) {
        if p.len() < 2 {
            None
        } else {
            match like_tokens(p.skip(2), escape) {
                Some(t) => Some(seq![LikeToken::Literal(p[1])] + t),
                None => None,
            }
        }
    } else {
        match like_tokens(p.drop_first(), escape) {
            Some(t) => Some(seq![if p[0] == '%' { LikeToken::AnyMany } else if p[0] == '_' { LikeToken::AnyOne } else { LikeToken::Literal(p[0]) }] + t),
            None => None,
        }
    }
}

/// Whether a text character matches a literal pattern character: exactly
/// for a binary operand, else when the two fold alike.
pub open spec fn chars_match(v: char, c: char, binary: bool) -> bool {
    if binary {
        v == c
    } else {
        folded_text(seq![v], false) == folded_text(seq![c], false)
    }
}

/// Whether a token consumes the character `v` by itself.
pub open spec fn takes(token: LikeToken, v: char, binary: bool) -> bool {
    match token {
        LikeToken::AnyOne => true,
        LikeToken::Literal(c) => chars_match(v, c, binary),
        LikeToken::AnyMany => false,
    }
}

/// Whether a text character matches a literal pattern character.
fn literal_matches(v: char, c: char, binary: bool) -> (r: bool)
    ensures
        r == chars_match(v, c, binary),
{
    if binary {
        return v == c;
    }
    let value = string_of(&[v]);
    let literal = string_of(&[c]);
    proof {
        assert(value@ =~= seq![v]);
        assert(literal@ =~= seq![c]);
    }
    let a = chars_of(fold_unless_binary(value.as_str(), false).as_str());
    let b = chars_of(fold_unless_binary(literal.as_str(), false).as_str());
    if a.len() != b.len() {
        return false;
    }
    let mut i: usize = 0;
    while i < a.len()
        invariant
            a@.len() == b@.len(),
            a@ == folded_text(seq![v], false),
            b@ == folded_text(seq![c], false),
            i <= a@.len(),
            forall|j: int| 0 <= j < i ==> a@[j] == b@[j],
        decreases a@.len() - i,
    {
        if a[i] != b[i] {
            assert(a@[i as int] != b@[i as int]);
            return false;
        }
        i = i + 1;
    }
    assert(a@ =~= b@);
    true
}

/// Whether a text matches a token sequence.
pub open spec fn like_match(v: Seq<char>, t: Seq<LikeToken>, binary: bool) -> bool
    decreases v.len() + t.len(),
{
    if t.len() == 0 {
        v.len() == 0
    } else {
        match t[0] {
            LikeToken::AnyMany => like_match(v, t.drop_first(), binary) || (v.len() > 0 && like_match(v.drop_first(), t, binary)),
            LikeToken::AnyOne => v.len() > 0 && like_match(v.drop_first(), t.drop_first(), binary),
            LikeToken::Literal(c) => v.len() > 0 && chars_match(v[0], c, binary) && like_match(v.drop_first(), t.drop_first(), binary),
        }
    }
}

/// `value LIKE pattern ESCAPE escape`, binary or folded.
pub open spec fn like_text(value: Seq<char>, pattern: Seq<char>, escape: Option<char>, binary: bool) -> bool {
    match like_tokens(pattern, escape) {
        Some(t) => like_match(value, t, binary),
        None => false,
    }
}

/// The tokens that must each consume one character.
pub open spec fn fixed_len(t: Seq<LikeToken>) -> nat
    decreases t.len(),
{
    if t.len() == 0 {
        0
    } else {
        fixed_len(t.drop_first()) + if t[0] == LikeToken::AnyMany { 0nat } else { 1nat }
    }
}

/// A match consumes at least one character per fixed token.
proof fn lemma_match_len(v: Seq<char>, t: Seq<LikeToken>, binary: bool)
    requires
        like_match(v, t, binary),
    ensures
        v.len() >= fixed_len(t),
    decreases v.len() + t.len(),
{
    if t.len() > 0 {
        match t[0] {
            LikeToken::AnyMany => {
                if like_match(v, t.drop_first(), binary) {
                    lemma_match_len(v, t.drop_first(), binary);
                } else {
                    lemma_match_len(v.drop_first(), t, binary);
                }
            },
            _ => {
                lemma_match_len(v.drop_first(), t.drop_first(), binary);
            },
        }
    }
}

/// A run of `n` fixed tokens at the front counts `n` at least.
proof fn lemma_fixed_prefix(t: Seq<LikeToken>, n: int)
    requires
        0 <= n <= t.len(),
        forall|m: int| 0 <= m < n ==> t[m] != LikeToken::AnyMany,
    ensures
        fixed_len(t) >= n,
    decreases n,
{
    if n > 0 {
        assert forall|m: int| 0 <= m < n - 1 implies t.drop_first()[m] != LikeToken::AnyMany by {
            assert(t.drop_first()[m] == t[m + 1]);
        }
        lemma_fixed_prefix(t.drop_first(), n - 1);
    }
}

/// The empty text matches exactly the token runs of `%` alone.
proof fn lemma_empty_match(t: Seq<LikeToken>, binary: bool)
    ensures
        like_match(Seq::empty(), t, binary) <==> (forall|m: int| 0 <= m < t.len() ==> t[m] == LikeToken::AnyMany),
    decreases t.len(),
{
    if t.len() > 0 {
        lemma_empty_match(t.drop_first(), binary);
        if t[0] == LikeToken::AnyMany {
            assert((forall|m: int| 0 <= m < t.len() ==> t[m] == LikeToken::AnyMany) <==> (forall|m: int| 0 <= m
                < t.drop_first().len() ==> t.drop_first()[m] == LikeToken::AnyMany)) by {
                if forall|m: int| 0 <= m < t.drop_first().len() ==> t.drop_first()[m] == LikeToken::AnyMany {
                    assert forall|m: int| 0 <= m < t.len() implies t[m] == LikeToken::AnyMany by {
                        if m > 0 {
                            assert(t[m] == t.drop_first()[m - 1]);
                        }
                    }
                }
            }
        }
    }
}

/// A `%` followed by `rest` matches from `j` exactly when `rest` matches
/// from some position at or after `j`.
pub open spec fn star_from(v: Seq<char>, rest: Seq<LikeToken>, j: int, binary: bool) -> bool {
    exists|i: int| j <= i <= v.len() && like_match(v.skip(i), rest, binary)
}

proof fn lemma_star(v: Seq<char>, t: Seq<LikeToken>, j: int, binary: bool)
    requires
        0 <= j <= v.len(),
        t.len() > 0,
        t[0] == LikeToken::AnyMany,
    ensures
        like_match(v.skip(j), t, binary) == star_from(v, t.drop_first(), j, binary),
    decreases v.len() - j,
{
    let s = v.skip(j);
    if j < v.len() {
        lemma_star(v, t, j + 1, binary);
        assert(s.drop_first() =~= v.skip(j + 1));
        if star_from(v, t.drop_first(), j, binary) {
            let i = choose|i: int| j <= i <= v.len() && like_match(v.skip(i), t.drop_first(), binary);
            if i > j {
                assert(star_from(v, t.drop_first(), j + 1, binary));
            }
        }
        if star_from(v, t.drop_first(), j + 1, binary) {
            let i = choose|i: int| j + 1 <= i <= v.len() && like_match(v.skip(i), t.drop_first(), binary);
            assert(star_from(v, t.drop_first(), j, binary));
        }
    } else {
        if star_from(v, t.drop_first(), j, binary) {
            let i = choose|i: int| j <= i <= v.len() && like_match(v.skip(i), t.drop_first(), binary);
            assert(i == j);
        }
        assert(like_match(s, t.drop_first(), binary) ==> star_from(v, t.drop_first(), j, binary));
    }
}

proof fn lemma_step(v: Seq<char>, t: Seq<LikeToken>, i: int, a: int, binary: bool)
    requires
        0 <= i < v.len(),
        0 <= a < t.len(),
        takes(t[a], v[i], binary),
    ensures
        like_match(v.skip(i), t.skip(a), binary) == like_match(v.skip(i + 1), t.skip(a + 1), binary),
{
    assert(v.skip(i).drop_first() =~= v.skip(i + 1));
    assert(t.skip(a).drop_first() =~= t.skip(a + 1));
    assert(t.skip(a)[0] == t[a]);
    assert(v.skip(i)[0] == v[i]);
}

proof fn lemma_fail(v: Seq<char>, t: Seq<LikeToken>, i: int, a: int, binary: bool)
    requires
        0 <= i < v.len(),
        0 <= a <= t.len(),
        a == t.len() || (t[a] != LikeToken::AnyMany && !takes(t[a], v[i], binary)),
    ensures
        !like_match(v.skip(i), t.skip(a), binary),
{
    if a < t.len() {
        assert(t.skip(a)[0] == t[a]);
        assert(v.skip(i)[0] == v[i]);
    }
}

proof fn lemma_star_split(v: Seq<char>, r: Seq<LikeToken>, j: int, binary: bool)
    requires
        0 <= j < v.len(),
    ensures
        star_from(v, r, j, binary) == (like_match(v.skip(j), r, binary) || star_from(v, r, j + 1, binary)),
{
    if star_from(v, r, j, binary) {
        let i = choose|i: int| j <= i <= v.len() && like_match(v.skip(i), r, binary);
        if i > j {
            assert(star_from(v, r, j + 1, binary));
        }
    }
    if star_from(v, r, j + 1, binary) {
        let i = choose|i: int| j + 1 <= i <= v.len() && like_match(v.skip(i), r, binary);
        assert(star_from(v, r, j, binary));
    }
    if like_match(v.skip(j), r, binary) {
        assert(star_from(v, r, j, binary));
    }
}

proof fn lemma_advance(v: Seq<char>, t: Seq<LikeToken>, i: int, a: int, b: int, binary: bool)
    requires
        0 <= i <= v.len(),
        0 <= a <= b <= t.len(),
        forall|m: int| a <= m < b ==> t[m] != LikeToken::AnyMany,
        like_match(v.skip(i), t.skip(a), binary),
    ensures
        i + (b - a) <= v.len(),
        like_match(v.skip(i + (b - a)), t.skip(b), binary),
    decreases b - a,
{
    if a < b {
        assert(t.skip(a)[0] == t[a]);
        assert(t.skip(a).drop_first() =~= t.skip(a + 1));
        assert(v.skip(i).len() > 0);
        assert(v.skip(i).drop_first() =~= v.skip(i + 1));
        lemma_advance(v, t, i + 1, a + 1, b, binary);
    }
}

proof fn lemma_push_concat<A>(a: Seq<A>, x: A, b: Seq<A>)
    ensures
        a + (seq![x] + b) == a.push(x) + b,
{
    assert(a + (seq![x] + b) =~= a.push(x) + b);
}

/// Splits a pattern into tokens.
fn like_tokenize(p: &[char], escape: Option<char>) -> (r: Option<Vec<LikeToken>>)
    ensures
        r matches Some(t) ==> like_tokens(p@, escape) == Some(t@),
        r is None ==> like_tokens(p@, escape) is None,
{
    let len = p.len();
    let mut out: Vec<LikeToken> = Vec::new();
    let mut i: usize = 0;
    assert(p@.skip(0) =~= p@);
    while i < len
        invariant
            len == p@.len(),
            i <= len,
            like_tokens(p@, escape) == (match like_tokens(p@.skip(i as int), escape) {
                Some(t) => Some(out@ + t),
                None => None,
            }),
        decreases len - i,
    {
        let c = p[i];
        let ghost rest = p@.skip(i as int);
        assert(rest[0] == c);
        let is_escape = match escape {
            Some(e) => e == c,
            None => false,
        };
        if is_escape {
            if i + 1 == len {
                return None;
            }
            let lit = p[i + 1];
            assert(rest[1] == lit);
            assert(rest.skip(2) =~= p@.skip(i + 2));
            proof {
                match like_tokens(p@.skip(i + 2), escape) {
                    Some(t) => lemma_push_concat(out@, LikeToken::Literal(lit), t),
                    None => {},
                }
            }
            out.push(LikeToken::Literal(lit));
            i = i + 2;
        } else {
            let token = if c == '%' { LikeToken::AnyMany } else if c == '_' { LikeToken::AnyOne } else { LikeToken::Literal(c) };
            assert(rest.drop_first() =~= p@.skip(i + 1));
            proof {
                match like_tokens(p@.skip(i + 1), escape) {
                    Some(t) => lemma_push_concat(out@, token, t),
                    None => {},
                }
            }
            out.push(token);
            i = i + 1;
        }
    }
    assert(p@.skip(len as int) =~= Seq::<char>::empty());
    assert(out@ + Seq::<LikeToken>::empty() =~= out@);
    Some(out)
}

/// Matches a text against tokens, backtracking only to the last `%`.
fn match_tokens(v: &[char], t: &[LikeToken], binary: bool) -> (r: bool)
    ensures
        r == like_match(v@, t@, binary),
{
    let vl = v.len();
    let tl = t.len();
    let mut vi: usize = 0;
    let mut ti: usize = 0;
    let mut wildcard: Option<usize> = None;
    let mut wv: usize = 0;
    assert(v@.skip(0) =~= v@);
    assert(t@.skip(0) =~= t@);
    while vi < vl
        invariant
            vl == v@.len(),
            tl == t@.len(),
            vi <= vl,
            ti <= tl,
            wv <= vi,
            wildcard is None ==> like_match(v@, t@, binary) == like_match(v@.skip(vi as int), t@.skip(ti as int), binary),
            wildcard matches Some(k) ==> {
                &&& k < ti
                &&& t@[k as int] == LikeToken::AnyMany
                &&& vi - wv == ti - k - 1
                &&& forall|m: int| k < m < ti ==> t@[m] != LikeToken::AnyMany
                &&& like_match(v@, t@, binary) == star_from(v@, t@.skip(k + 1), wv as int, binary)
                &&& like_match(v@.skip(wv as int), t@.skip(k + 1), binary) == like_match(v@.skip(vi as int), t@.skip(ti as int), binary)
            },
        decreases vl - wv, vl - vi, tl - ti,
    {
        let c = v[vi];
        let advance = ti < tl && match t[ti] {
            LikeToken::Literal(l) => literal_matches(c, l, binary),
            LikeToken::AnyOne => true,
            LikeToken::AnyMany => false,
        };
        if advance {
            proof {
                lemma_step(v@, t@, vi as int, ti as int, binary);
            }
            vi = vi + 1;
            ti = ti + 1;
        } else if ti < tl && t[ti] == LikeToken::AnyMany {
            proof {
                lemma_star(v@, t@.skip(ti as int), 0, binary);
                assert(t@.skip(ti as int).drop_first() =~= t@.skip(ti + 1));
                let s = v@.skip(vi as int);
                assert forall|i: int| #![trigger v@.skip(i)] vi <= i <= vl implies v@.skip(i) == s.skip(i - vi) by {
                    assert(v@.skip(i) =~= s.skip(i - vi));
                }
                assert(s.skip(0) =~= s);
                // star_from over the suffix equals star_from over the whole text from vi
                assert(star_from(s, t@.skip(ti + 1), 0, binary) == star_from(v@, t@.skip(ti + 1), vi as int, binary)) by {
                    if star_from(s, t@.skip(ti + 1), 0, binary) {
                        let i = choose|i: int| 0 <= i <= s.len() && like_match(s.skip(i), t@.skip(ti + 1), binary);
                        assert(v@.skip(vi + i) == s.skip(i));
                    }
                    if star_from(v@, t@.skip(ti + 1), vi as int, binary) {
                        let i = choose|i: int| vi <= i <= v@.len() && like_match(v@.skip(i), t@.skip(ti + 1), binary);
                        assert(v@.skip(i) == s.skip(i - vi));
                        assert(like_match(s.skip(i - vi), t@.skip(ti + 1), binary));
                    }
                }
                if let Some(k) = wildcard {
                    // Any match of the segment after the previous `%` lands at or past vi.
                    if star_from(v@, t@.skip(k + 1), wv as int, binary) {
                        let i = choose|i: int| wv <= i <= v@.len() && like_match(v@.skip(i), t@.skip(k + 1), binary);
                        assert forall|m: int| k + 1 <= m < ti implies t@[m] != LikeToken::AnyMany by {}
                        lemma_advance(v@, t@, i, k + 1, ti as int, binary);
                        let e = i + (ti - k - 1);
                        assert(like_match(v@.skip(e), t@.skip(ti as int), binary));
                        lemma_star(v@, t@.skip(ti as int), e, binary);
                        assert(t@.skip(ti as int).drop_first() =~= t@.skip(ti + 1));
                        if star_from(v@, t@.skip(ti + 1), e, binary) {
                            let w = choose|w: int| e <= w <= v@.len() && like_match(v@.skip(w), t@.skip(ti + 1), binary);
                            assert(star_from(v@, t@.skip(ti + 1), vi as int, binary));
                        }
                    }
                    if star_from(v@, t@.skip(ti + 1), vi as int, binary) {
                        lemma_star(v@, t@.skip(ti as int), vi as int, binary);
                        assert(star_from(v@, t@.skip(k + 1), wv as int, binary));
                    }
                } else {
                    lemma_star(v@, t@.skip(ti as int), vi as int, binary);
                }
                assert(v@.skip(vi as int) == v@.skip(vi as int));
            }
            wildcard = Some(ti);
            wv = vi;
            ti = ti + 1;
        } else {
            proof {
                lemma_fail(v@, t@, vi as int, ti as int, binary);
            }
            match wildcard {
                None => {
                    return false;
                },
                Some(k) => {
                    proof {
                        lemma_star_split(v@, t@.skip(k + 1), wv as int, binary);
                    }
                    wv = wv + 1;
                    vi = wv;
                    ti = k + 1;
                },
            }
        }
    }
    let mut tj = ti;
    while tj < tl && t[tj] == LikeToken::AnyMany
        invariant
            tl == t@.len(),
            ti <= tj <= tl,
            forall|m: int| ti <= m < tj ==> t@[m] == LikeToken::AnyMany,
        decreases tl - tj,
    {
        tj = tj + 1;
    }
    proof {
        assert(v@.skip(vl as int) =~= Seq::<char>::empty());
        lemma_empty_match(t@.skip(ti as int), binary);
        let rest_stars = forall|m: int| 0 <= m < t@.skip(ti as int).len() ==> t@.skip(ti as int)[m] == LikeToken::AnyMany;
        if tj == tl {
            assert forall|m: int| 0 <= m < t@.skip(ti as int).len() implies t@.skip(ti as int)[m] == LikeToken::AnyMany by {
                assert(t@.skip(ti as int)[m] == t@[ti + m]);
            }
        } else {
            assert(t@.skip(ti as int)[tj - ti] == t@[tj as int]);
        }
        assert(rest_stars == (tj == tl));
        if let Some(k) = wildcard {
            if star_from(v@, t@.skip(k + 1), wv as int, binary) {
                let i = choose|i: int| wv <= i <= v@.len() && like_match(v@.skip(i), t@.skip(k + 1), binary);
                if i > wv {
                    lemma_match_len(v@.skip(i), t@.skip(k + 1), binary);
                    assert forall|m: int| 0 <= m < ti - k - 1 implies #[trigger] t@.skip(k + 1)[m] != LikeToken::AnyMany by {
                        assert(t@.skip(k + 1)[m] == t@[k + 1 + m]);
                    }
                    lemma_fixed_prefix(t@.skip(k + 1), ti - k - 1);
                    assert(false);
                }
            }
            if tj == tl {
                assert(star_from(v@, t@.skip(k + 1), wv as int, binary));
            }
        }
    }
    tj == tl
}

/// `value LIKE pattern ESCAPE escape`: characters compared exactly when
/// an operand is binary, else under the case- and accent-insensitive fold;
/// a pattern ending in a lone escape matches nothing.
pub fn like_matches(value: &str, pattern: &str, escape: Option<char>, binary: bool) -> (r: bool)
    ensures
        r == like_text(value@, pattern@, escape, binary),
{
    let v = chars_of(value);
    let p = chars_of(pattern);
    match like_tokenize(p.as_slice(), escape) {
        Some(t) => match_tokens(v.as_slice(), t.as_slice(), binary),
        None => false,
    }
}

} // verus!
