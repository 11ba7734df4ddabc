//! `MySQL` JSON paths (`$.a[0]."b c"`): the parser every JSON function
//! walks a path through, and the lookup of one target in a document.
use crate::chars::{chars_of, trimmed, trim, string_of};
use crate::decimal::ExecError;
use crate::json_order::{JsonMember, JsonValue};
use crate::time_text::{parse_u64, u64_text};
use vstd::prelude::*;

verus! {

/// One step of a JSON path: an object member or an array position.
#[derive(Debug, PartialEq, Eq)]
pub enum JsonStep {
    Member(String),
    Index(usize),
}

/// The view of a step.
pub enum JsonStepView {
    Member(Seq<char>),
    Index(nat),
}

impl JsonStep {
    pub open spec fn view(&self) -> JsonStepView {
        match self {
            JsonStep::Member(key) => JsonStepView::Member(key@),
            JsonStep::Index(i) => JsonStepView::Index(*i as nat),
        }
    }
}

/// The views of steps.
pub open spec fn steps_view(steps: Seq<JsonStep>) -> Seq<JsonStepView> {
    Seq::new(steps.len(), |i: int| steps[i].view())
}

/// The number of leading characters before the first one `stop` holds for.
pub open spec fn run_until(s: Seq<char>, stop: spec_fn(char) -> bool) -> nat
    decreases s.len(),
{
    if s.len() == 0 || stop(s[0]) {
        0
    } else {
        1 + run_until(s.drop_first(), stop)
    }
}

/// `usize::from_str`.
pub open spec fn usize_text(s: Seq<char>) -> Option<nat> {
    match u64_text(s) {
        Some(v) => if v <= usize::MAX { Some(v as nat) } else { None },
        None => None,
    }
}

/// A member name after a `.`: quoted up to the closing `"`, or bare up to
/// the next `.` or `[`; the name and the characters it used. `None` for an
/// empty or `*` name (a wildcard selects many targets).
pub open spec fn member_part(rest: Seq<char>) -> Option<(Seq<char>, int)> {
    let quoted = rest.len() > 0 && rest[0] == '"';
    let body = if quoted { rest.drop_first() } else { rest };
    let n = if quoted { run_until(body, |c: char| c == '"') } else { run_until(body, |c: char| c == '.' || c == '[') };
    let key = body.take(n as int);
    let used = (if quoted { 1int } else { 0int }) + n + (if quoted && n < body.len() { 1int } else { 0int });
    if key.len() == 0 || key == seq!['*'] {
        None
    } else {
        Some((key, used))
    }
}

/// An array position after a `[`: the trimmed text up to `]` read as a
/// `usize`, and the characters it used.
pub open spec fn index_part(rest: Seq<char>) -> Option<(nat, int)> {
    let n = run_until(rest, |c: char| c == ']');
    let used = n + if n < rest.len() { 1int } else { 0int };
    match usize_text(trimmed(rest.take(n as int))) {
        None => None,
        Some(i) => Some((i, used)),
    }
}

pub proof fn lemma_parts_bounded(rest: Seq<char>)
    ensures
        member_part(rest) matches Some((_, used)) ==> 0 <= used <= rest.len(),
        index_part(rest) matches Some((_, used)) ==> 0 <= used <= rest.len(),
{
    let quoted = rest.len() > 0 && rest[0] == '"';
    let body = if quoted { rest.drop_first() } else { rest };
    lemma_run_bound(body, |c: char| c == '"');
    lemma_run_bound(body, |c: char| c == '.' || c == '[');
    lemma_run_bound(rest, |c: char| c == ']');
}

/// The steps of the path after `$`; `None` for malformed text: a bad
/// member name, a non-number position, or any other character where a
/// step should start.
pub open spec fn path_steps(s: Seq<char>) -> Option<Seq<JsonStepView>>
    decreases s.len(),
{
    if s.len() == 0 {
        Some(Seq::empty())
    } else if s[0] == '.' {
        match member_part(s.drop_first()) {
            None => None,
            Some((key, used)) => {
                proof {
                    lemma_parts_bounded(s.drop_first());
                }
                match path_steps(s.drop_first().skip(used)) {
                    Some(t) => Some(seq![JsonStepView::Member(key)] + t),
                    None => None,
                }
            },
        }
    } else if s[0] == '[' {
        match index_part(s.drop_first()) {
            None => None,
            Some((i, used)) => {
                proof {
                    lemma_parts_bounded(s.drop_first());
                }
                match path_steps(s.drop_first().skip(used)) {
                    Some(t) => Some(seq![JsonStepView::Index(i)] + t),
                    None => None,
                }
            },
        }
    } else {
        None
    }
}

/// `$` then the steps; `InvalidExpressionType` for a malformed path.
pub open spec fn json_path_of(path: Seq<char>) -> Option<Seq<JsonStepView>> {
    if path.len() == 0 || path[0] != '$' {
        None
    } else {
        path_steps(path.drop_first())
    }
}

pub proof fn lemma_run_bound(s: Seq<char>, stop: spec_fn(char) -> bool)
    ensures
        run_until(s, stop) <= s.len(),
        forall|i: int| 0 <= i < run_until(s, stop) ==> !stop(#[trigger] s[i]),
        run_until(s, stop) < s.len() ==> stop(s[run_until(s, stop) as int]),
    decreases s.len(),
{
    if !(s.len() == 0 || stop(s[0])) {
        lemma_run_bound(s.drop_first(), stop);
        assert forall|i: int| 0 <= i < run_until(s, stop) implies !stop(#[trigger] s[i]) by {
            if i > 0 {
                assert(s[i] == s.drop_first()[i - 1]);
            }
        }
    }
}

fn stops(c: char, quote: bool) -> (r: bool)
    ensures
        r == (if quote { c == '"' } else { c == '.' || c == '[' }),
{
    if quote { c == '"' } else { c == '.' || c == '[' }
}

/// Counts the characters from `at` before a member name ends.
fn run_from(s: &[char], at: usize, quote: bool) -> (r: usize)
    requires
        at <= s@.len(),
    ensures
        quote ==> r == run_until(s@.skip(at as int), |c: char| c == '"'),
        !quote ==> r == run_until(s@.skip(at as int), |c: char| c == '.' || c == '['),
        at + r <= s@.len(),
{
    let ghost stop: spec_fn(char) -> bool = if quote { |c: char| c == '"' } else { |c: char| c == '.' || c == '[' };
    let len = s.len();
    let mut n: usize = 0;
    proof {
        lemma_run_bound(s@.skip(at as int), stop);
    }
    while at + n < len && !stops(s[at + n], quote)
        invariant
            len == s@.len(),
            at + n <= len,
            stop == (if quote { |c: char| c == '"' } else { |c: char| c == '.' || c == '[' }),
            run_until(s@.skip(at as int), stop) == n + run_until(s@.skip((at + n) as int), stop),
        decreases len - at - n,
    {
        proof {
            assert(s@.skip((at + n) as int)[0] == s@[(at + n) as int]);
            assert(s@.skip((at + n) as int).drop_first() =~= s@.skip((at + n + 1) as int));
        }
        n = n + 1;
    }
    proof {
        if at + n < len {
            assert(s@.skip((at + n) as int)[0] == s@[(at + n) as int]);
        }
    }
    n
}

fn bracket_run(s: &[char], at: usize) -> (r: usize)
    requires
        at <= s@.len(),
    ensures
        r == run_until(s@.skip(at as int), |c: char| c == ']'),
        at + r <= s@.len(),
{
    let ghost stop: spec_fn(char) -> bool = |c: char| c == ']';
    let len = s.len();
    let mut n: usize = 0;
    proof {
        lemma_run_bound(s@.skip(at as int), stop);
    }
    while at + n < len && s[at + n] != ']'
        invariant
            len == s@.len(),
            at + n <= len,
            stop == (|c: char| c == ']'),
            run_until(s@.skip(at as int), stop) == n + run_until(s@.skip((at + n) as int), stop),
        decreases len - at - n,
    {
        proof {
            assert(s@.skip((at + n) as int)[0] == s@[(at + n) as int]);
            assert(s@.skip((at + n) as int).drop_first() =~= s@.skip((at + n + 1) as int));
        }
        n = n + 1;
    }
    proof {
        if at + n < len {
            assert(s@.skip((at + n) as int)[0] == s@[(at + n) as int]);
        }
    }
    n
}

fn copy_range(s: &[char], from: usize, to: usize) -> (r: Vec<char>)
    requires
        from <= to <= s@.len(),
    ensures
        r@ == s@.subrange(from as int, to as int),
{
    let mut out: Vec<char> = Vec::new();
    let mut k = from;
    while k < to
        invariant
            from <= k <= to <= s@.len(),
            out@ == s@.subrange(from as int, k as int),
        decreases to - k,
    {
        out.push(s[k]);
        k = k + 1;
        assert(out@ =~= s@.subrange(from as int, k as int));
    }
    out
}

proof fn lemma_push_front(x: JsonStepView, t: Seq<JsonStepView>, a: Seq<JsonStepView>)
    ensures
        a.push(x) + t == a + (seq![x] + t),
{
    assert(a.push(x) + t =~= a + (seq![x] + t));
}

/// Reads a member name from `at` (just past the `.`): the name and where
/// the path goes on.
fn member_at(s: &[char], at: usize) -> (r: Option<(Vec<char>, usize)>)
    requires
        at <= s@.len(),
    ensures
        r matches Some((key, next)) ==> next <= s@.len() && member_part(s@.skip(at as int)) == Some((key@, next - at)),
        r is None ==> member_part(s@.skip(at as int)) is None,
{
    let len = s.len();
    let ghost rest = s@.skip(at as int);
    let quoted = at < len && s[at] == '"';
    let start = if quoted { at + 1 } else { at };
    proof {
        if quoted {
            assert(rest[0] == s@[at as int]);
            assert(rest.drop_first() =~= s@.skip(start as int));
        } else {
            if at < len {
                assert(rest[0] == s@[at as int]);
            }
            assert(rest =~= s@.skip(start as int));
        }
    }
    let n = run_from(s, start, quoted);
    let key = copy_range(s, start, start + n);
    assert(key@ =~= s@.skip(start as int).take(n as int));
    let next = if quoted && start + n < len { start + n + 1 } else { start + n };
    if n == 0 || (n == 1 && key[0] == '*') {
        proof {
            if n == 1 {
                assert(key@ =~= seq!['*']);
            }
        }
        return None;
    }
    proof {
        if key@ == seq!['*'] {
            assert(key@.len() == 1);
        }
    }
    Some((key, next))
}

/// Reads an array position from `at` (just past the `[`): the position and
/// where the path goes on.
fn index_at(s: &[char], at: usize) -> (r: Option<(usize, usize)>)
    requires
        at <= s@.len(),
    ensures
        r matches Some((i, next)) ==> next <= s@.len() && index_part(s@.skip(at as int)) == Some((i as nat, next - at)),
        r is None ==> index_part(s@.skip(at as int)) is None,
{
    let len = s.len();
    let n = bracket_run(s, at);
    let digits = copy_range(s, at, at + n);
    assert(digits@ =~= s@.skip(at as int).take(n as int));
    let next = if at + n < len { at + n + 1 } else { at + n };
    let inner = trim(digits.as_slice());
    let value = match parse_u64(inner.as_slice()) {
        Some(v) => v,
        None => return None,
    };
    if value > usize::MAX as u64 {
        return None;
    }
    Some((value as usize, next))
}

/// Parses `$.a[0].b` into its steps. Every JSON function that walks a path
/// goes through this, so a path cannot mean one thing in one function and
/// something else in another.
pub fn json_path_steps(path: &str) -> (r: Result<Vec<JsonStep>, ExecError>)
    ensures
        r matches Ok(steps) ==> json_path_of(path@) == Some(steps_view(steps@)),
        r matches Err(e) ==> json_path_of(path@) is None && e == ExecError::InvalidExpressionType,
{
    let s = chars_of(path);
    let len = s.len();
    if len == 0 || s[0] != '$' {
        return Err(ExecError::InvalidExpressionType);
    }
    let mut steps: Vec<JsonStep> = Vec::new();
    let mut i: usize = 1;
    assert(s@.skip(1) =~= s@.drop_first());
    assert(steps_view(steps@) + path_steps(s@.skip(1)).unwrap_or(Seq::empty()) =~= path_steps(s@.skip(1)).unwrap_or(Seq::empty()));
    while i < len
        invariant
            len == s@.len(),
            s@ == path@,
            1 <= i <= len,
            path@.len() > 0 && path@[0] == '$',
            json_path_of(path@) == (match path_steps(s@.skip(i as int)) {
                Some(t) => Some(steps_view(steps@) + t),
                None => None,
            }),
        decreases len - i,
    {
        let c = s[i];
        let ghost rest = s@.skip(i as int);
        assert(rest[0] == c);
        assert(rest.drop_first() =~= s@.skip(i + 1));
        let ghost before = steps@;
        if c == '.' {
            let (key, next) = match member_at(s.as_slice(), i + 1) {
                Some(v) => v,
                None => return Err(ExecError::InvalidExpressionType),
            };
            proof {
                assert(s@.skip(i + 1).skip(next - (i + 1)) =~= s@.skip(next as int));
                match path_steps(s@.skip(next as int)) {
                    Some(t) => lemma_push_front(JsonStepView::Member(key@), t, steps_view(before)),
                    None => {},
                }
            }
            steps.push(JsonStep::Member(string_of(key.as_slice())));
            assert(steps_view(steps@) =~= steps_view(before).push(JsonStepView::Member(key@)));
            i = next;
        } else if c == '[' {
            let (index, next) = match index_at(s.as_slice(), i + 1) {
                Some(v) => v,
                None => return Err(ExecError::InvalidExpressionType),
            };
            proof {
                assert(s@.skip(i + 1).skip(next - (i + 1)) =~= s@.skip(next as int));
                match path_steps(s@.skip(next as int)) {
                    Some(t) => lemma_push_front(JsonStepView::Index(index as nat), t, steps_view(before)),
                    None => {},
                }
            }
            steps.push(JsonStep::Index(index));
            assert(steps_view(steps@) =~= steps_view(before).push(JsonStepView::Index(index as nat)));
            i = next;
        } else {
            return Err(ExecError::InvalidExpressionType);
        }
    }
    assert(s@.skip(len as int) =~= Seq::<char>::empty());
    assert(steps_view(steps@) + Seq::<JsonStepView>::empty() =~= steps_view(steps@));
    Ok(steps)
}

/// The value of the first member named `key` (its UTF-8 bytes).
pub open spec fn member_value(members: Seq<JsonMember>, key: Seq<u8>) -> Option<JsonValue>
    decreases members.len(),
{
    if members.len() == 0 {
        None
    } else if members[0].key@ == key {
        Some(members[0].value)
    } else {
        member_value(members.drop_first(), key)
    }
}

/// One step into a value: a member of an object, an element of an array.
pub open spec fn step_into(v: JsonValue, step: JsonStepView) -> Option<JsonValue> {
    match step {
        JsonStepView::Member(key) => match v {
            JsonValue::Object(members) => member_value(members@, vstd::utf8::encode_utf8(key)),
            _ => None,
        },
        JsonStepView::Index(i) => match v {
            JsonValue::Array(items) => if i < items@.len() { Some(items@[i as int]) } else { None },
            _ => None,
        },
    }
}

/// The target of steps in a value; `None` where a step finds nothing.
pub open spec fn path_target(v: JsonValue, steps: Seq<JsonStepView>) -> Option<JsonValue>
    decreases steps.len(),
{
    if steps.len() == 0 {
        Some(v)
    } else {
        match step_into(v, steps[0]) {
            Some(w) => path_target(w, steps.drop_first()),
            None => None,
        }
    }
}

fn bytes_equal(a: &[u8], b: &[u8]) -> (r: bool)
    ensures
        r == (a@ == b@),
{
    if a.len() != b.len() {
        return false;
    }
    let mut i: usize = 0;
    while i < a.len()
        invariant
            i <= a@.len(),
            a@.len() == b@.len(),
            forall|j: int| 0 <= j < i ==> a@[j] == b@[j],
        decreases a@.len() - i,
    {
        if a[i] != b[i] {
            return false;
        }
        i = i + 1;
    }
    assert(a@ =~= b@);
    true
}

fn member_of<'a>(members: &'a Vec<JsonMember>, key: &[u8]) -> (r: Option<&'a JsonValue>)
    ensures
        r matches Some(v) ==> member_value(members@, key@) == Some(*v),
        r is None ==> member_value(members@, key@) is None,
{
    let mut i: usize = 0;
    assert(members@.skip(0) =~= members@);
    while i < members.len()
        invariant
            i <= members@.len(),
            member_value(members@, key@) == member_value(members@.skip(i as int), key@),
        decreases members@.len() - i,
    {
        let ghost rest = members@.skip(i as int);
        assert(rest[0] == members@[i as int]);
        assert(rest.drop_first() =~= members@.skip(i + 1));
        if bytes_equal(members[i].key.as_slice(), key) {
            return Some(&members[i].value);
        }
        i = i + 1;
    }
    None
}

fn step_of<'a>(v: &'a JsonValue, step: &JsonStep) -> (r: Option<&'a JsonValue>)
    ensures
        r matches Some(w) ==> step_into(*v, step.view()) == Some(*w),
        r is None ==> step_into(*v, step.view()) is None,
{
    match step {
        JsonStep::Member(key) => match v {
            JsonValue::Object(members) => member_of(members, key.as_str().as_bytes()),
            _ => None,
        },
        JsonStep::Index(i) => match v {
            JsonValue::Array(items) => if *i < items.len() { Some(&items[*i]) } else { None },
            _ => None,
        },
    }
}

/// The value a path names in a document: `Ok(None)` when a step finds
/// nothing, `InvalidExpressionType` for a malformed path.
pub fn json_path_lookup<'a>(document: &'a JsonValue, path: &str) -> (r: Result<Option<&'a JsonValue>, ExecError>)
    ensures
        r is Err <==> json_path_of(path@) is None,
        r matches Err(e) ==> e == ExecError::InvalidExpressionType,
        r matches Ok(found) ==> json_path_of(path@) matches Some(steps) && (match found {
            Some(v) => path_target(*document, steps) == Some(*v),
            None => path_target(*document, steps) is None,
        }),
{
    let steps = match json_path_steps(path) {
        Ok(s) => s,
        Err(e) => return Err(e),
    };
    let ghost all = steps_view(steps@);
    let mut current = document;
    let mut k: usize = 0;
    assert(all.skip(0) =~= all);
    while k < steps.len()
        invariant
            k <= steps@.len(),
            all == steps_view(steps@),
            json_path_of(path@) == Some(all),
            path_target(*document, all) == path_target(*current, all.skip(k as int)),
        decreases steps@.len() - k,
    {
        let ghost rest = all.skip(k as int);
        assert(rest[0] == steps@[k as int].view());
        assert(rest.drop_first() =~= all.skip(k + 1));
        match step_of(current, &steps[k]) {
            Some(next) => {
                current = next;
            },
            None => {
                return Ok(None);
            },
        }
        k = k + 1;
    }
    assert(all.skip(k as int) =~= Seq::<JsonStepView>::empty());
    Ok(Some(current))
}

/// What `JSON_EXTRACT` selects from a document for its paths, in order:
/// the target of each path that names one; `None` when a path is
/// malformed.
pub open spec fn extract_targets(doc: JsonValue, paths: Seq<Seq<char>>) -> Option<Seq<JsonValue>>
    decreases paths.len(),
{
    if paths.len() == 0 {
        Some(Seq::empty())
    } else {
        match extract_targets(doc, paths.drop_last()) {
            None => None,
            Some(prefix) => match json_path_of(paths.last()) {
                None => None,
                Some(steps) => match path_target(doc, steps) {
                    Some(v) => Some(prefix.push(v)),
                    None => Some(prefix),
                },
            },
        }
    }
}

/// The texts of a list of paths.
pub open spec fn path_texts(paths: Seq<String>) -> Seq<Seq<char>> {
    Seq::new(paths.len(), |i: int| paths[i]@)
}

/// A malformed path among the first `k` is malformed among all of them.
proof fn lemma_extract_stops(doc: JsonValue, paths: Seq<Seq<char>>, k: int)
    requires
        0 <= k <= paths.len(),
        extract_targets(doc, paths.take(k)) is None,
    ensures
        extract_targets(doc, paths) is None,
    decreases paths.len() - k,
{
    if k < paths.len() {
        assert(paths.take(k + 1).drop_last() =~= paths.take(k));
        lemma_extract_stops(doc, paths, k + 1);
    } else {
        assert(paths.take(k) =~= paths);
    }
}

/// The values `JSON_EXTRACT(document, path, ...)` selects, in path order;
/// `InvalidExpressionType` when any path is malformed, even after others
/// found a value.
pub fn json_extract_targets<'a>(document: &'a JsonValue, paths: &Vec<String>) -> (r: Result<Vec<&'a JsonValue>, ExecError>)
    ensures
        match r {
            Ok(found) => extract_targets(*document, path_texts(paths@)) == Some(
                Seq::new(found@.len(), |i: int| *found@[i]),
            ),
            Err(e) => extract_targets(*document, path_texts(paths@)) is None && e == ExecError::InvalidExpressionType,
        },
{
    let ghost all = path_texts(paths@);
    let mut found: Vec<&'a JsonValue> = Vec::new();
    let mut i: usize = 0;
    assert(all.take(0) =~= Seq::<Seq<char>>::empty());
    while i < paths.len()
        invariant
            i <= paths@.len(),
            all == path_texts(paths@),
            extract_targets(*document, all.take(i as int)) == Some(Seq::new(found@.len(), |j: int| *found@[j])),
        decreases paths@.len() - i,
    {
        proof {
            assert(all.take(i + 1).drop_last() =~= all.take(i as int));
            assert(all.take(i + 1).last() == paths@[i as int]@);
        }
        let ghost before = Seq::new(found@.len(), |j: int| *found@[j]);
        match json_path_lookup(document, paths[i].as_str()) {
            Ok(Some(v)) => {
                found.push(v);
                proof {
                    assert(Seq::new(found@.len(), |j: int| *found@[j]) =~= before.push(*v));
                }
            },
            Ok(None) => {},
            Err(e) => {
                proof {
                    lemma_extract_stops(*document, all, i + 1);
                }
                return Err(e);
            },
        }
        i = i + 1;
    }
    assert(all.take(paths@.len() as int) =~= all);
    Ok(found)
}

} // verus!
