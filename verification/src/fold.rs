//! The case and accent fold that `LOCATE` and `INSTR` compare under:
//! canonical decomposition, combining marks dropped, then full Unicode case
//! folding; a binary operand is compared as it is.
use crate::chars::{chars_of, string_of};
use crate::text::{locate, locate_position};
use unicode_casefold::UnicodeCaseFold;
use unicode_normalization::UnicodeNormalization;
use vstd::prelude::*;

verus! {

/// The canonical decomposition (NFD) that unicode-normalization computes.
pub uninterp spec fn nfd_of(text: Seq<char>) -> Seq<char>;

/// Whether unicode-normalization counts a character as a combining mark.
pub uninterp spec fn combining_mark(c: char) -> bool;

/// The full, non-Turkic case folding of one character that
/// unicode-casefold computes.
pub uninterp spec fn folded_char(c: char) -> Seq<char>;

/// `UnicodeNormalization::nfd` on a string, collected: the text in
/// Normalization Form D. The contract names the result.
#[verifier::external_body]
fn nfd_chars(text: &str) -> (r: Vec<char>)
    ensures
        r@ == nfd_of(text@),
{
    text.nfd().collect()
}

/// `unicode_normalization::char::is_combining_mark`: whether a character's
/// general category is Mark. The contract names the result.
#[verifier::external_body]
fn is_combining_mark(c: char) -> (r: bool)
    ensures
        r == combining_mark(c),
{
    unicode_normalization::char::is_combining_mark(c)
}

/// `UnicodeCaseFold::case_fold` on one character, collected: its full
/// case folding, one to three characters. The contract names the result.
#[verifier::external_body]
fn fold_char(c: char) -> (r: Vec<char>)
    ensures
        r@ == folded_char(c),
{
    c.case_fold().collect()
}

/// Characters without the combining marks among them.
pub open spec fn without_marks(s: Seq<char>) -> Seq<char>
    decreases s.len(),
{
    if s.len() == 0 {
        Seq::empty()
    } else if combining_mark(s.last()) {
        without_marks(s.drop_last())
    } else {
        without_marks(s.drop_last()).push(s.last())
    }
}

/// Every character case folded, in order.
pub open spec fn case_folded(s: Seq<char>) -> Seq<char>
    decreases s.len(),
{
    if s.len() == 0 {
        Seq::empty()
    } else {
        case_folded(s.drop_last()) + folded_char(s.last())
    }
}

/// A text as `LOCATE` compares it: as it is for a binary operand, else
/// decomposed, stripped of combining marks and case folded.
pub open spec fn folded_text(text: Seq<char>, binary: bool) -> Seq<char> {
    if binary {
        text
    } else {
        case_folded(without_marks(nfd_of(text)))
    }
}

/// Folds a text for comparison unless a binary operand demands exact
/// comparison.
pub fn fold_unless_binary(text: &str, binary: bool) -> (r: String)
    ensures
        r@ == folded_text(text@, binary),
{
    if binary {
        let chars = chars_of(text);
        return string_of(chars.as_slice());
    }
    let decomposed = nfd_chars(text);
    let mut out: Vec<char> = Vec::new();
    let ghost mut kept: Seq<char> = Seq::empty();
    let mut i: usize = 0;
    while i < decomposed.len()
        invariant
            i <= decomposed@.len(),
            kept == without_marks(decomposed@.subrange(0, i as int)),
            out@ == case_folded(kept),
        decreases decomposed@.len() - i,
    {
        let c = decomposed[i];
        proof {
            let t = decomposed@.subrange(0, i + 1);
            assert(t.drop_last() =~= decomposed@.subrange(0, i as int));
            assert(t.last() == c);
        }
        if !is_combining_mark(c) {
            let folded = fold_char(c);
            let ghost before = out@;
            let mut k: usize = 0;
            while k < folded.len()
                invariant
                    k <= folded@.len(),
                    out@ == before + folded@.subrange(0, k as int),
                decreases folded@.len() - k,
            {
                out.push(folded[k]);
                k = k + 1;
                assert(out@ =~= before + folded@.subrange(0, k as int));
            }
            proof {
                assert(folded@.subrange(0, k as int) =~= folded@);
                assert(kept.push(c).drop_last() =~= kept);
                kept = kept.push(c);
            }
        }
        i = i + 1;
    }
    assert(decomposed@.subrange(0, i as int) =~= decomposed@);
    string_of(out.as_slice())
}

/// `LOCATE(needle, haystack, start)` and `INSTR(haystack, needle)` (from
/// 1): the one-based character position of the folded needle in the folded
/// haystack at or after `start`, or 0.
pub fn locate_folded(needle: &str, haystack: &str, start: i64, binary: bool) -> (r: u64)
    ensures
        r == locate_position(folded_text(needle@, binary), folded_text(haystack@, binary), start as int),
{
    let needle = fold_unless_binary(needle, binary);
    let haystack = fold_unless_binary(haystack, binary);
    locate(needle.as_str(), haystack.as_str(), start)
}

} // verus!
