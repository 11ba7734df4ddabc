//! JSON documents as MySQL prints them: `", "` between items and members,
//! `": "` after a key, and object keys ordered by their byte length, then
//! by their bytes (the binary-JSON normalization order).
use crate::chars::{chars_of, string_of};
use crate::json_laws::{lemma_lt_asymmetric, lemma_lt_total, lemma_lt_transitive};
use crate::json_order::{bytes_lt, compare_key_bytes};
use vstd::prelude::*;
use vstd::string::StringSliceAdditionalSpecFns;

verus! {

/// A JSON document to print. A number is held as the text its parser
/// keeps for it.
pub enum JsonDoc {
    Null,
    Bool(bool),
    Number(String),
    Text(String),
    Array(Vec<JsonDoc>),
    Object(Vec<JsonDocMember>),
}

/// One member of a JSON object.
pub struct JsonDocMember {
    pub key: String,
    pub value: JsonDoc,
}

/// The JSON string literal serde_json writes for a text.
pub uninterp spec fn json_quoted(text: Seq<char>) -> Seq<char>;

/// `serde_json::Value::String` displayed: the text as a JSON string
/// literal, quoted and escaped as serde_json escapes. The contract names
/// the result and says nothing of the escaping itself.
#[verifier::external_body]
fn json_string_literal(text: &str) -> (r: String)
    ensures
        r@ == json_quoted(text@),
{
    serde_json::Value::String(text.to_owned()).to_string()
}

/// Whether one key sorts before another: shorter first, then by bytes.
pub open spec fn key_before(a: Seq<u8>, b: Seq<u8>) -> bool {
    a.len() < b.len() || (a.len() == b.len() && bytes_lt(a, b))
}

/// Inserts `(key, text)` behind every entry whose key does not sort after
/// it: a stable insertion.
pub open spec fn insert_entry(s: Seq<(Seq<u8>, Seq<char>)>, p: (Seq<u8>, Seq<char>)) -> Seq<
    (Seq<u8>, Seq<char>),
>
    decreases s.len(),
{
    if s.len() == 0 {
        seq![p]
    } else if key_before(p.0, s.last().0) {
        insert_entry(s.drop_last(), p).push(s.last())
    } else {
        s.push(p)
    }
}

/// Entries stably sorted by key.
pub open spec fn sort_entries(s: Seq<(Seq<u8>, Seq<char>)>) -> Seq<(Seq<u8>, Seq<char>)>
    decreases s.len(),
{
    if s.len() == 0 {
        Seq::empty()
    } else {
        insert_entry(sort_entries(s.drop_last()), s.last())
    }
}

/// Texts joined by `", "`.
pub open spec fn joined(s: Seq<Seq<char>>) -> Seq<char>
    decreases s.len(),
{
    if s.len() == 0 {
        Seq::empty()
    } else if s.len() == 1 {
        s[0]
    } else {
        joined(s.drop_last()) + seq![',', ' '] + s.last()
    }
}

/// The texts of sorted entries.
pub open spec fn entry_texts(s: Seq<(Seq<u8>, Seq<char>)>) -> Seq<Seq<char>> {
    Seq::new(s.len(), |i: int| s[i].1)
}

/// A document as MySQL prints it.
pub open spec fn doc_text(d: JsonDoc) -> Seq<char>
    decreases d,
{
    match d {
        JsonDoc::Null => seq!['n', 'u', 'l', 'l'],
        JsonDoc::Bool(b) => if b {
            seq!['t', 'r', 'u', 'e']
        } else {
            seq!['f', 'a', 'l', 's', 'e']
        },
        JsonDoc::Number(t) => t@,
        JsonDoc::Text(t) => json_quoted(t@),
        JsonDoc::Array(items) => seq!['['] + joined(items_texts(items@)) + seq![']'],
        JsonDoc::Object(members) => seq!['{'] + joined(
            entry_texts(sort_entries(member_entries(members@))),
        ) + seq!['}'],
    }
}

/// Each item printed.
pub open spec fn items_texts(s: Seq<JsonDoc>) -> Seq<Seq<char>>
    decreases s,
{
    if s.len() == 0 {
        Seq::empty()
    } else {
        items_texts(s.drop_last()).push(doc_text(s.last()))
    }
}

/// Each member as its key's bytes and its printed `"key": value`.
pub open spec fn member_entries(s: Seq<JsonDocMember>) -> Seq<(Seq<u8>, Seq<char>)>
    decreases s,
{
    if s.len() == 0 {
        Seq::empty()
    } else {
        member_entries(s.drop_last()).push(
            (
                vstd::utf8::encode_utf8(s.last().key@),
                json_quoted(s.last().key@) + seq![':', ' '] + doc_text(s.last().value),
            ),
        )
    }
}

/// Appends every character of `src`.
fn append_chars(dst: &mut Vec<char>, src: &[char])
    ensures
        final(dst)@ == old(dst)@ + src@,
{
    let mut i: usize = 0;
    while i < src.len()
        invariant
            i <= src@.len(),
            dst@ == old(dst)@ + src@.subrange(0, i as int),
        decreases src@.len() - i,
    {
        dst.push(src[i]);
        i = i + 1;
        assert(dst@ =~= old(dst)@ + src@.subrange(0, i as int));
    }
    assert(src@.subrange(0, src@.len() as int) =~= src@);
}

/// Appends the characters of a string.
fn append_str(dst: &mut Vec<char>, text: &str)
    ensures
        final(dst)@ == old(dst)@ + text@,
{
    let chars = chars_of(text);
    append_chars(dst, chars.as_slice());
}

/// Joining one more text adds `", "` and the text, or only the text when
/// it is the first.
proof fn lemma_joined_push(s: Seq<Seq<char>>, x: Seq<char>)
    ensures
        joined(s.push(x)) == if s.len() == 0 {
            x
        } else {
            joined(s) + seq![',', ' '] + x
        },
{
    assert(s.push(x).drop_last() =~= s);
}

/// The view of sortable entries.
pub open spec fn entries_view(v: Seq<(Vec<u8>, Vec<char>)>) -> Seq<(Seq<u8>, Seq<char>)> {
    Seq::new(v.len(), |i: int| (v[i].0@, v[i].1@))
}

/// A copy of a byte string.
fn copy_bytes(src: &[u8]) -> (r: Vec<u8>)
    ensures
        r@ == src@,
{
    let mut r: Vec<u8> = Vec::new();
    let mut i: usize = 0;
    while i < src.len()
        invariant
            i <= src@.len(),
            r@ == src@.subrange(0, i as int),
        decreases src@.len() - i,
    {
        r.push(src[i]);
        i = i + 1;
        assert(r@ =~= src@.subrange(0, i as int));
    }
    r
}

/// Whether one key sorts before another.
fn sorts_before(a: &[u8], b: &[u8]) -> (r: bool)
    ensures
        r == key_before(a@, b@),
{
    if a.len() != b.len() {
        a.len() < b.len()
    } else {
        compare_key_bytes(a, b) == -1
    }
}

/// Stable insertion of one entry into entries sorted by key.
fn insert_sorted_entry(s: &mut Vec<(Vec<u8>, Vec<char>)>, p: (Vec<u8>, Vec<char>))
    ensures
        entries_view(final(s)@) == insert_entry(entries_view(old(s)@), (p.0@, p.1@)),
    decreases old(s)@.len(),
{
    let ghost before = entries_view(s@);
    if s.len() == 0 {
        s.push(p);
        assert(entries_view(s@) =~= seq![(p.0@, p.1@)]);
    } else {
        let last_index = s.len() - 1;
        let below = sorts_before(p.0.as_slice(), s[last_index].0.as_slice());
        if below {
            let last = s.pop().unwrap();
            assert(entries_view(s@) =~= before.drop_last());
            insert_sorted_entry(s, p);
            let ghost mid = entries_view(s@);
            s.push(last);
            assert(entries_view(s@) =~= mid.push(before.last()));
        } else {
            s.push(p);
            assert(entries_view(s@) =~= before.push((p.0@, p.1@)));
        }
    }
}

/// Entries sorted stably by key.
fn sorted_entries(entries: Vec<(Vec<u8>, Vec<char>)>) -> (r: Vec<(Vec<u8>, Vec<char>)>)
    ensures
        entries_view(r@) == sort_entries(entries_view(entries@)),
{
    let ghost source = entries@;
    assert(source.len() == entries.len());
    let mut rest = entries;
    let mut sorted: Vec<(Vec<u8>, Vec<char>)> = Vec::new();
    let mut j: usize = 0;
    while rest.len() > 0
        invariant
            source.len() <= usize::MAX,
            j + rest@.len() == source.len(),
            rest@ == source.subrange(j as int, source.len() as int),
            entries_view(sorted@) == sort_entries(entries_view(source.subrange(0, j as int))),
        decreases rest@.len(),
    {
        let p = rest.remove(0);
        insert_sorted_entry(&mut sorted, p);
        proof {
            let t = entries_view(source.subrange(0, j + 1));
            assert(t.drop_last() =~= entries_view(source.subrange(0, j as int)));
            assert(t.last() == (p.0@, p.1@));
            assert(rest@ =~= source.subrange(j + 1, source.len() as int));
        }
        j = j + 1;
    }
    assert(source.subrange(0, j as int) =~= source);
    sorted
}

/// Appends the entries' texts joined by `", "`.
fn append_joined_entries(out: &mut Vec<char>, sorted: &Vec<(Vec<u8>, Vec<char>)>)
    ensures
        final(out)@ == old(out)@ + joined(entry_texts(entries_view(sorted@))),
{
    let ghost all = entry_texts(entries_view(sorted@));
    let mut k: usize = 0;
    while k < sorted.len()
        invariant
            k <= sorted@.len(),
            all == entry_texts(entries_view(sorted@)),
            out@ == old(out)@ + joined(all.subrange(0, k as int)),
        decreases sorted@.len() - k,
    {
        proof {
            lemma_joined_push(all.subrange(0, k as int), all[k as int]);
            assert(all.subrange(0, k as int).push(all[k as int]) =~= all.subrange(0, k + 1));
        }
        if k > 0 {
            out.push(',');
            out.push(' ');
        }
        append_chars(out, sorted[k].1.as_slice());
        k = k + 1;
        assert(out@ =~= old(out)@ + joined(all.subrange(0, k as int)));
    }
    assert(all.subrange(0, k as int) =~= all);
}

/// Appends a document as MySQL prints it.
fn write_doc(doc: &JsonDoc, out: &mut Vec<char>)
    ensures
        final(out)@ == old(out)@ + doc_text(*doc),
    decreases doc,
{
    match doc {
        JsonDoc::Null => {
            out.push('n');
            out.push('u');
            out.push('l');
            out.push('l');
            assert(out@ =~= old(out)@ + doc_text(*doc));
        },
        JsonDoc::Bool(b) => {
            if *b {
                out.push('t');
                out.push('r');
                out.push('u');
                out.push('e');
            } else {
                out.push('f');
                out.push('a');
                out.push('l');
                out.push('s');
                out.push('e');
            }
            assert(out@ =~= old(out)@ + doc_text(*doc));
        },
        JsonDoc::Number(text) => {
            append_str(out, text.as_str());
        },
        JsonDoc::Text(text) => {
            let quoted = json_string_literal(text.as_str());
            append_str(out, quoted.as_str());
        },
        JsonDoc::Array(items) => {
            out.push('[');
            let ghost start = out@;
            let mut i: usize = 0;
            while i < items.len()
                invariant
                    i <= items@.len(),
                    *doc == JsonDoc::Array(*items),
                    out@ == start + joined(items_texts(items@.subrange(0, i as int))),
                decreases items@.len() - i,
            {
                proof {
                    assert(decreases_to!(*doc => doc->Array_0));
                    assert(decreases_to!(*items => items@));
                    assert(decreases_to!(items@ => items@[i as int]));
                    let t = items@.subrange(0, i + 1);
                    assert(t.drop_last() =~= items@.subrange(0, i as int));
                    lemma_joined_push(items_texts(items@.subrange(0, i as int)), doc_text(items@[i as int]));
                }
                if i > 0 {
                    out.push(',');
                    out.push(' ');
                }
                write_doc(&items[i], out);
                i = i + 1;
                assert(out@ =~= start + joined(items_texts(items@.subrange(0, i as int))));
            }
            assert(items@.subrange(0, items@.len() as int) =~= items@);
            out.push(']');
            assert(out@ =~= old(out)@ + doc_text(*doc));
        },
        JsonDoc::Object(members) => {
            let mut entries: Vec<(Vec<u8>, Vec<char>)> = Vec::new();
            let mut i: usize = 0;
            while i < members.len()
                invariant
                    i <= members@.len(),
                    *doc == JsonDoc::Object(*members),
                    entries_view(entries@) == member_entries(members@.subrange(0, i as int)),
                decreases members@.len() - i,
            {
                proof {
                    assert(decreases_to!(*doc => doc->Object_0));
                    assert(decreases_to!(*members => members@));
                    assert(decreases_to!(members@ => members@[i as int]));
                    assert(decreases_to!(members@[i as int] => members@[i as int].value));
                }
                let key = members[i].key.as_str();
                let mut text: Vec<char> = Vec::new();
                let quoted = json_string_literal(key);
                append_str(&mut text, quoted.as_str());
                text.push(':');
                text.push(' ');
                write_doc(&members[i].value, &mut text);
                let bytes = copy_bytes(key.as_bytes());
                let ghost before = entries_view(entries@);
                entries.push((bytes, text));
                proof {
                    let t = members@.subrange(0, i + 1);
                    assert(t.drop_last() =~= members@.subrange(0, i as int));
                    assert(text@ =~= json_quoted(members@[i as int].key@) + seq![':', ' '] + doc_text(
                        members@[i as int].value,
                    ));
                    assert(entries_view(entries@) =~= before.push(
                        (
                            vstd::utf8::encode_utf8(members@[i as int].key@),
                            json_quoted(members@[i as int].key@) + seq![':', ' '] + doc_text(
                                members@[i as int].value,
                            ),
                        ),
                    ));
                }
                i = i + 1;
            }
            assert(members@.subrange(0, members@.len() as int) =~= members@);
            let sorted = sorted_entries(entries);
            out.push('{');
            append_joined_entries(out, &sorted);
            out.push('}');
            assert(out@ =~= old(out)@ + doc_text(*doc));
        },
    }
}

/// Prints a JSON document the way MySQL prints JSON columns.
pub fn mysql_json_text(doc: &JsonDoc) -> (r: String)
    ensures
        r@ == doc_text(*doc),
{
    let mut out: Vec<char> = Vec::new();
    write_doc(doc, &mut out);
    assert(out@ =~= doc_text(*doc));
    string_of(out.as_slice())
}

/// One value inside a constructed JSON document: a document, or the exact
/// numeric text of a DECIMAL, printed verbatim with its scale.
pub enum JsonScalar {
    Value(JsonDoc),
    Number(String),
}

/// A constructed value printed.
pub open spec fn scalar_text(s: JsonScalar) -> Seq<char> {
    match s {
        JsonScalar::Value(d) => doc_text(d),
        JsonScalar::Number(t) => t@,
    }
}

/// Prints one constructed value.
pub fn json_scalar_text(scalar: &JsonScalar) -> (r: String)
    ensures
        r@ == scalar_text(*scalar),
{
    match scalar {
        JsonScalar::Value(doc) => mysql_json_text(doc),
        JsonScalar::Number(text) => {
            let mut out: Vec<char> = Vec::new();
            append_str(&mut out, text.as_str());
            assert(out@ =~= text@);
            string_of(out.as_slice())
        },
    }
}

/// The members of `JSON_OBJECT(...)` as sortable entries.
pub open spec fn constructed_entries(members: Seq<(String, JsonScalar)>) -> Seq<(Seq<u8>, Seq<char>)> {
    Seq::new(
        members.len(),
        |i: int|
            (
                vstd::utf8::encode_utf8(members[i].0@),
                json_quoted(members[i].0@) + seq![':', ' '] + scalar_text(members[i].1),
            ),
    )
}

/// Prints `JSON_OBJECT(...)`: keys ordered by length, then bytes; members
/// with equal keys keep their order.
pub fn mysql_json_object_text(members: &[(String, JsonScalar)]) -> (r: String)
    ensures
        r@ == seq!['{'] + joined(entry_texts(sort_entries(constructed_entries(members@)))) + seq![
            '}',
        ],
{
    let mut entries: Vec<(Vec<u8>, Vec<char>)> = Vec::new();
    let mut i: usize = 0;
    while i < members.len()
        invariant
            i <= members@.len(),
            entries_view(entries@) == constructed_entries(members@).subrange(0, i as int),
        decreases members@.len() - i,
    {
        let key = members[i].0.as_str();
        let mut text: Vec<char> = Vec::new();
        let quoted = json_string_literal(key);
        append_str(&mut text, quoted.as_str());
        text.push(':');
        text.push(' ');
        let value = json_scalar_text(&members[i].1);
        append_str(&mut text, value.as_str());
        let bytes = copy_bytes(key.as_bytes());
        let ghost before = entries_view(entries@);
        entries.push((bytes, text));
        proof {
            let m = members@[i as int];
            assert(key@ == m.0@);
            assert(text@ =~= json_quoted(m.0@) + seq![':', ' '] + scalar_text(m.1));
            assert(bytes@ == vstd::utf8::encode_utf8(m.0@));
            assert(entries_view(entries@) =~= before.push(constructed_entries(members@)[i as int]));
        }
        i = i + 1;
        assert(entries_view(entries@) =~= constructed_entries(members@).subrange(0, i as int));
    }
    assert(constructed_entries(members@).subrange(0, i as int) =~= constructed_entries(members@));
    let sorted = sorted_entries(entries);
    let mut out: Vec<char> = Vec::new();
    out.push('{');
    append_joined_entries(&mut out, &sorted);
    out.push('}');
    assert(out@ =~= seq!['{'] + joined(entry_texts(sort_entries(constructed_entries(members@))))
        + seq!['}']);
    string_of(out.as_slice())
}

/// The items of `JSON_ARRAY(...)` printed.
pub open spec fn scalar_texts(items: Seq<JsonScalar>) -> Seq<Seq<char>> {
    Seq::new(items.len(), |i: int| scalar_text(items[i]))
}

/// Prints `JSON_ARRAY(...)`.
pub fn mysql_json_array_text(items: &[JsonScalar]) -> (r: String)
    ensures
        r@ == seq!['['] + joined(scalar_texts(items@)) + seq![']'],
{
    let ghost all = scalar_texts(items@);
    let mut out: Vec<char> = Vec::new();
    out.push('[');
    let mut i: usize = 0;
    while i < items.len()
        invariant
            i <= items@.len(),
            all == scalar_texts(items@),
            out@ == seq!['['] + joined(all.subrange(0, i as int)),
        decreases items@.len() - i,
    {
        proof {
            lemma_joined_push(all.subrange(0, i as int), all[i as int]);
            assert(all.subrange(0, i as int).push(all[i as int]) =~= all.subrange(0, i + 1));
        }
        if i > 0 {
            out.push(',');
            out.push(' ');
        }
        let text = json_scalar_text(&items[i]);
        append_str(&mut out, text.as_str());
        i = i + 1;
        assert(out@ =~= seq!['['] + joined(all.subrange(0, i as int)));
    }
    assert(all.subrange(0, i as int) =~= all);
    out.push(']');
    assert(out@ =~= seq!['['] + joined(scalar_texts(items@)) + seq![']']);
    string_of(out.as_slice())
}

/// Entries in order of their keys, equal keys allowed.
pub open spec fn entries_ordered(s: Seq<(Seq<u8>, Seq<char>)>) -> bool {
    forall|i: int, j: int| 0 <= i < j < s.len() ==> !key_before(#[trigger] s[j].0, #[trigger] s[i].0)
}

/// "Not after" in key order is transitive.
proof fn lemma_key_order_transitive(a: Seq<u8>, b: Seq<u8>, c: Seq<u8>)
    requires
        !key_before(b, a),
        !key_before(c, b),
    ensures
        !key_before(c, a),
{
    if a.len() == b.len() && b.len() == c.len() {
        lemma_lt_total(a, b);
        lemma_lt_total(b, c);
        if a != b && b != c {
            lemma_lt_transitive(a, b, c);
            lemma_lt_asymmetric(a, c);
        }
    }
}

/// A stable insertion into ordered entries keeps them ordered and adds
/// exactly the inserted entry.
proof fn lemma_insert_entry(s: Seq<(Seq<u8>, Seq<char>)>, p: (Seq<u8>, Seq<char>))
    requires
        entries_ordered(s),
    ensures
        entries_ordered(insert_entry(s, p)),
        insert_entry(s, p).to_multiset() =~= s.to_multiset().insert(p),
    decreases s.len(),
{
    broadcast use vstd::seq_lib::group_to_multiset_ensures;

    if s.len() == 0 {
        assert(seq![p] =~= Seq::<(Seq<u8>, Seq<char>)>::empty().push(p));
    } else if key_before(p.0, s.last().0) {
        let rest = s.drop_last();
        let last = s.last();
        assert(rest.push(last) =~= s);
        lemma_insert_entry(rest, p);
        let ins = insert_entry(rest, p);
        assert forall|i: int| 0 <= i < ins.len() implies !key_before(last.0, #[trigger] ins[i].0) by {
            assert(ins.contains(ins[i]));
            assert(ins.to_multiset().count(ins[i]) > 0);
            if ins[i] == p {
                if p.0.len() == last.0.len() {
                    lemma_lt_asymmetric(p.0, last.0);
                }
            } else {
                assert(rest.to_multiset().count(ins[i]) > 0);
                assert(rest.contains(ins[i]));
                let k = choose|k: int| 0 <= k < rest.len() && rest[k] == ins[i];
                assert(s[k] == rest[k]);
                assert(s[s.len() - 1] == last);
            }
        }
        assert(ins.len() == rest.len() + 1) by {
            assert(ins.to_multiset().len() == rest.to_multiset().len() + 1);
        }
        let r = ins.push(last);
        assert forall|i: int, j: int| 0 <= i < j < r.len() implies !key_before(
            #[trigger] r[j].0,
            #[trigger] r[i].0,
        ) by {
            if j == r.len() - 1 {
                assert(r[i] == ins[i]);
            } else {
                assert(r[i] == ins[i] && r[j] == ins[j]);
            }
        }
    } else {
        let r = s.push(p);
        assert forall|i: int, j: int| 0 <= i < j < r.len() implies !key_before(
            #[trigger] r[j].0,
            #[trigger] r[i].0,
        ) by {
            if j == r.len() - 1 {
                assert(r[i] == s[i]);
                if i < s.len() - 1 {
                    assert(!key_before(s[s.len() - 1].0, s[i].0));
                    lemma_key_order_transitive(s[i].0, s.last().0, p.0);
                }
            } else {
                assert(r[i] == s[i] && r[j] == s[j]);
            }
        }
    }
}

/// A printed object lists exactly its members, in order of their keys:
/// shorter keys first, keys of one length by their bytes.
pub proof fn law_object_members_print_in_key_order(s: Seq<(Seq<u8>, Seq<char>)>)
    ensures
        entries_ordered(sort_entries(s)),
        sort_entries(s).to_multiset() =~= s.to_multiset(),
    decreases s.len(),
{
    broadcast use vstd::seq_lib::group_to_multiset_ensures;

    if s.len() > 0 {
        law_object_members_print_in_key_order(s.drop_last());
        lemma_insert_entry(sort_entries(s.drop_last()), s.last());
        assert(s.drop_last().push(s.last()) =~= s);
    }
}

} // verus!
