//! What the JSON comparison ladder promises, proved over the byte keys:
//! types order by precedence, an array that is a proper prefix of another
//! sorts first, `-0` equals `0`, `false` sorts before `true`, objects
//! holding the same members compare equal whatever their member order, and
//! the comparison is a strict total order.
use crate::json_order::{
    escaped, escaped_byte, text_key, bytes_lt, bytes_order, insert_pair, items_key, json_key,
    lemma_lt_at, lemma_lt_irreflexive, member_pairs, sort_pairs, tag_of, JsonMember, JsonValue,
};
use std::cmp::Ordering;
use vstd::prelude::*;

verus! {

/// Every key starts with its value's ladder tag, which is at least 1.
pub proof fn lemma_key_tag(v: JsonValue)
    ensures
        json_key(v).len() > 0,
        json_key(v)[0] == tag_of(v),
        tag_of(v) >= 1,
{
}

/// Values of different types compare by type precedence alone:
/// `BOOLEAN > ARRAY > OBJECT > STRING > NUMBER > NULL`.
pub proof fn law_type_precedence(a: JsonValue, b: JsonValue)
    requires
        tag_of(a) < tag_of(b),
    ensures
        bytes_order(json_key(a), json_key(b)) == Ordering::Less,
        bytes_order(json_key(b), json_key(a)) == Ordering::Greater,
{
    lemma_key_tag(a);
    lemma_key_tag(b);
    assert(json_key(a).subrange(0, 0) =~= json_key(b).subrange(0, 0));
    lemma_lt_at(json_key(a), json_key(b), 0);
    lemma_lt_at(json_key(b), json_key(a), 0);
}

/// JSON `-0.0` equals `0`.
pub proof fn law_negative_zero()
    ensures
        bytes_order(json_key(JsonValue::Number(0x8000_0000_0000_0000u64)), json_key(JsonValue::Number(0u64)))
            == Ordering::Equal,
{
    assert(json_key(JsonValue::Number(0x8000_0000_0000_0000u64)) =~= json_key(JsonValue::Number(0u64)));
    lemma_lt_irreflexive(json_key(JsonValue::Number(0u64)));
}

/// `false` sorts before `true`.
pub proof fn law_false_before_true()
    ensures
        bytes_order(json_key(JsonValue::Bool(false)), json_key(JsonValue::Bool(true))) == Ordering::Less,
{
    let a = json_key(JsonValue::Bool(false));
    let b = json_key(JsonValue::Bool(true));
    assert(a.subrange(0, 1) =~= b.subrange(0, 1));
    lemma_lt_at(a, b, 1);
}

/// The keys of concatenated items concatenate.
proof fn lemma_items_key_append(x: Seq<JsonValue>, y: Seq<JsonValue>)
    ensures
        items_key(x + y) == items_key(x) + items_key(y),
    decreases y.len(),
{
    if y.len() == 0 {
        assert(x + y =~= x);
        assert(items_key(x) + items_key(y) =~= items_key(x));
    } else {
        assert((x + y).drop_last() =~= x + y.drop_last());
        assert((x + y).last() == y.last());
        lemma_items_key_append(x, y.drop_last());
        assert(items_key(x) + items_key(y.drop_last()) + json_key(y.last()) =~= items_key(x) + (items_key(
            y.drop_last(),
        ) + json_key(y.last())));
    }
}

/// The key of a non-empty item run starts with the first item's tag.
proof fn lemma_items_key_first(y: Seq<JsonValue>)
    requires
        y.len() > 0,
    ensures
        items_key(y).len() > 0,
        items_key(y)[0] == tag_of(y[0]),
{
    assert(y =~= seq![y[0]] + y.drop_first());
    lemma_items_key_append(seq![y[0]], y.drop_first());
    let one = seq![y[0]];
    assert(one.drop_last() =~= Seq::<JsonValue>::empty());
    assert(one.last() == y[0]);
    assert(items_key(Seq::<JsonValue>::empty()) == Seq::<u8>::empty());
    assert(items_key(one) == items_key(one.drop_last()) + json_key(one.last()));
    assert(items_key(one) =~= json_key(y[0]));
    lemma_key_tag(y[0]);
}

/// Whether `x` is a proper prefix of `y`.
pub open spec fn proper_prefix(x: Seq<JsonValue>, y: Seq<JsonValue>) -> bool {
    x.len() < y.len() && x == y.subrange(0, x.len() as int)
}

proof fn lemma_array_prefix_lt(a: JsonValue, b: JsonValue)
    requires
        a matches JsonValue::Array(x) && b matches JsonValue::Array(y) && proper_prefix(x@, y@),
    ensures
        bytes_lt(json_key(a), json_key(b)),
        json_key(a) != json_key(b),
{
    let x = a->Array_0@;
    let y = b->Array_0@;
    let rest = y.subrange(x.len() as int, y.len() as int);
    assert(y =~= x + rest);
    lemma_items_key_append(x, rest);
    lemma_items_key_first(rest);
    let ka = json_key(a);
    let kb = json_key(b);
    let i = 1 + items_key(x).len();
    assert(ka =~= seq![5u8] + items_key(x) + seq![0u8]);
    assert(kb =~= seq![5u8] + items_key(x) + items_key(rest) + seq![0u8]);
    assert(ka.subrange(0, i as int) =~= kb.subrange(0, i as int));
    assert(ka[i as int] == 0u8);
    assert(kb[i as int] == items_key(rest)[0]);
    lemma_key_tag(rest[0]);
    lemma_lt_at(ka, kb, i as int);
}

/// An array whose items are a proper prefix of another's sorts first.
pub proof fn law_array_prefix(a: JsonValue, b: JsonValue)
    requires
        a matches JsonValue::Array(x) && b matches JsonValue::Array(y) && proper_prefix(x@, y@),
    ensures
        bytes_order(json_key(a), json_key(b)) == Ordering::Less,
{
    lemma_array_prefix_lt(a, b);
}

/// Byte-wise "less" is asymmetric.
pub proof fn lemma_lt_asymmetric(a: Seq<u8>, b: Seq<u8>)
    ensures
        bytes_lt(a, b) ==> !bytes_lt(b, a),
    decreases a.len(),
{
    if a.len() > 0 && b.len() > 0 && a[0] == b[0] {
        lemma_lt_asymmetric(a.drop_first(), b.drop_first());
    }
}

/// Byte-wise "less" is total on distinct sequences.
pub proof fn lemma_lt_total(a: Seq<u8>, b: Seq<u8>)
    ensures
        a != b ==> bytes_lt(a, b) || bytes_lt(b, a),
    decreases a.len(),
{
    if a.len() > 0 && b.len() > 0 && a[0] == b[0] {
        lemma_lt_total(a.drop_first(), b.drop_first());
        if a.drop_first() == b.drop_first() {
            assert(a =~= seq![a[0]] + a.drop_first());
            assert(b =~= seq![b[0]] + b.drop_first());
        }
    } else if a.len() == 0 && b.len() == 0 {
        assert(a =~= b);
    }
}

/// The comparison is antisymmetric and total: swapping the operands swaps
/// `Less` and `Greater`, and `Equal` holds exactly for equal keys.
pub proof fn law_compare_antisymmetric(a: JsonValue, b: JsonValue)
    ensures
        bytes_order(json_key(a), json_key(b)) == Ordering::Less <==> bytes_order(json_key(b), json_key(a))
            == Ordering::Greater,
        bytes_order(json_key(a), json_key(b)) == Ordering::Equal <==> json_key(a) == json_key(b),
{
    lemma_lt_asymmetric(json_key(a), json_key(b));
    lemma_lt_asymmetric(json_key(b), json_key(a));
    lemma_lt_total(json_key(a), json_key(b));
    lemma_lt_irreflexive(json_key(a));
}

/// Escaping distributes over a first byte.
proof fn lemma_escaped_front(t: Seq<u8>)
    requires
        t.len() > 0,
    ensures
        escaped(t) == escaped_byte(t[0]) + escaped(t.drop_first()),
    decreases t.len(),
{
    if t.len() == 1 {
        assert(t.drop_last() =~= Seq::<u8>::empty());
        assert(t.drop_first() =~= Seq::<u8>::empty());
        assert(escaped(t) =~= escaped_byte(t[0]) + escaped(t.drop_first()));
    } else {
        lemma_escaped_front(t.drop_last());
        assert(t.drop_last().drop_first() =~= t.drop_first().drop_last());
        assert(t.drop_first().last() == t.last());
        assert(escaped(t) =~= escaped_byte(t[0]) + escaped(t.drop_first()));
    }
}

/// Sequences sharing a prefix compare by what follows it.
proof fn lemma_lt_common_prefix(p: Seq<u8>, a: Seq<u8>, b: Seq<u8>)
    ensures
        bytes_lt(p + a, p + b) == bytes_lt(a, b),
    decreases p.len(),
{
    if p.len() > 0 {
        assert((p + a).drop_first() =~= p.drop_first() + a);
        assert((p + b).drop_first() =~= p.drop_first() + b);
        lemma_lt_common_prefix(p.drop_first(), a, b);
    } else {
        assert(p + a =~= a);
        assert(p + b =~= b);
    }
}

proof fn lemma_text_key_order(s: Seq<u8>, t: Seq<u8>)
    ensures
        bytes_lt(text_key(s), text_key(t)) == bytes_lt(s, t),
    decreases s.len(),
{
    let ks = text_key(s);
    let kt = text_key(t);
    if s.len() == 0 && t.len() == 0 {
        lemma_lt_irreflexive(ks);
    } else if s.len() == 0 {
        lemma_escaped_front(t);
        assert(ks =~= seq![0u8, 0u8]);
        assert(kt =~= escaped_byte(t[0]) + escaped(t.drop_first()) + seq![0u8, 0u8]);
        if t[0] == 0 {
            assert(ks.subrange(0, 1) =~= kt.subrange(0, 1));
            lemma_lt_at(ks, kt, 1);
        } else {
            assert(ks.subrange(0, 0) =~= kt.subrange(0, 0));
            lemma_lt_at(ks, kt, 0);
        }
    } else if t.len() == 0 {
        lemma_escaped_front(s);
        assert(kt =~= seq![0u8, 0u8]);
        assert(ks =~= escaped_byte(s[0]) + escaped(s.drop_first()) + seq![0u8, 0u8]);
        if s[0] == 0 {
            assert(ks.subrange(0, 1) =~= kt.subrange(0, 1));
            lemma_lt_at(ks, kt, 1);
        } else {
            assert(ks.subrange(0, 0) =~= kt.subrange(0, 0));
            lemma_lt_at(ks, kt, 0);
        }
    } else {
        lemma_escaped_front(s);
        lemma_escaped_front(t);
        let es = escaped_byte(s[0]);
        let et = escaped_byte(t[0]);
        assert(ks =~= es + text_key(s.drop_first()));
        assert(kt =~= et + text_key(t.drop_first()));
        if s[0] == t[0] {
            lemma_text_key_order(s.drop_first(), t.drop_first());
            lemma_lt_common_prefix(es, text_key(s.drop_first()), text_key(t.drop_first()));
        } else if s[0] == 0 {
            assert(ks.subrange(0, 0) =~= kt.subrange(0, 0));
            lemma_lt_at(ks, kt, 0);
        } else if t[0] == 0 {
            assert(ks.subrange(0, 0) =~= kt.subrange(0, 0));
            lemma_lt_at(ks, kt, 0);
        } else {
            assert(ks.subrange(0, 0) =~= kt.subrange(0, 0));
            lemma_lt_at(ks, kt, 0);
        }
    }
}

proof fn lemma_text_key_injective(s: Seq<u8>, t: Seq<u8>)
    ensures
        (text_key(s) == text_key(t)) == (s == t),
{
    lemma_text_key_order(s, t);
    lemma_text_key_order(t, s);
    lemma_lt_total(s, t);
    lemma_lt_irreflexive(text_key(s));
}

proof fn lemma_text_keys(a: JsonValue, b: JsonValue)
    requires
        a matches JsonValue::Text(x) && b matches JsonValue::Text(y),
    ensures
        bytes_lt(json_key(a), json_key(b)) == bytes_lt(a->Text_0@, b->Text_0@),
        (json_key(a) == json_key(b)) == (a->Text_0@ == b->Text_0@),
{
    let x = a->Text_0@;
    let y = b->Text_0@;
    assert(json_key(a) =~= seq![3u8] + text_key(x));
    assert(json_key(b) =~= seq![3u8] + text_key(y));
    lemma_lt_common_prefix(seq![3u8], text_key(x), text_key(y));
    lemma_text_key_order(x, y);
    lemma_text_key_injective(x, y);
    if json_key(a) == json_key(b) {
        assert(text_key(x) =~= json_key(a).drop_first());
        assert(text_key(y) =~= json_key(b).drop_first());
    }
}

/// Strings compare by their UTF-8 bytes, the shorter prefix first.
pub proof fn law_text_order(a: JsonValue, b: JsonValue)
    requires
        a matches JsonValue::Text(x) && b matches JsonValue::Text(y),
    ensures
        bytes_order(json_key(a), json_key(b)) == bytes_order(a->Text_0@, b->Text_0@),
{
    lemma_text_keys(a, b);
}

} // verus!

verus! {

/// Byte-wise "less" is transitive.
pub proof fn lemma_lt_transitive(a: Seq<u8>, b: Seq<u8>, c: Seq<u8>)
    requires
        bytes_lt(a, b),
        bytes_lt(b, c),
    ensures
        bytes_lt(a, c),
    decreases a.len(),
{
    if a.len() > 0 && a[0] == b[0] && b[0] == c[0] {
        lemma_lt_transitive(a.drop_first(), b.drop_first(), c.drop_first());
    }
}

/// "Not greater" is transitive.
proof fn lemma_le_transitive(a: Seq<u8>, b: Seq<u8>, c: Seq<u8>)
    requires
        !bytes_lt(b, a),
        !bytes_lt(c, b),
    ensures
        !bytes_lt(c, a),
{
    lemma_lt_total(a, b);
    lemma_lt_total(b, c);
    if a != b && b != c {
        lemma_lt_transitive(a, b, c);
        lemma_lt_asymmetric(a, c);
    }
}

/// Pairs in ascending order of their keys, equal keys allowed.
pub open spec fn pairs_sorted(s: Seq<(Seq<u8>, Seq<u8>)>) -> bool {
    forall|i: int, j: int| 0 <= i < j < s.len() ==> !bytes_lt(#[trigger] s[j].0, #[trigger] s[i].0)
}

/// Pairs in strictly ascending order of their keys.
pub open spec fn pairs_strictly_sorted(s: Seq<(Seq<u8>, Seq<u8>)>) -> bool {
    forall|i: int, j: int| 0 <= i < j < s.len() ==> bytes_lt(#[trigger] s[i].0, #[trigger] s[j].0)
}

/// No two pairs share a key.
pub open spec fn keys_distinct(s: Seq<(Seq<u8>, Seq<u8>)>) -> bool {
    forall|i: int, j: int| 0 <= i < j < s.len() ==> #[trigger] s[i].0 != #[trigger] s[j].0
}

/// A stable insertion into sorted pairs keeps them sorted and adds exactly
/// the inserted pair.
proof fn lemma_insert_pair(s: Seq<(Seq<u8>, Seq<u8>)>, p: (Seq<u8>, Seq<u8>))
    requires
        pairs_sorted(s),
    ensures
        pairs_sorted(insert_pair(s, p)),
        insert_pair(s, p).to_multiset() =~= s.to_multiset().insert(p),
        insert_pair(s, p).len() == s.len() + 1,
    decreases s.len(),
{
    broadcast use vstd::seq_lib::group_to_multiset_ensures;

    if s.len() == 0 {
        assert(seq![p] =~= Seq::<(Seq<u8>, Seq<u8>)>::empty().push(p));
    } else if bytes_lt(p.0, s.last().0) {
        let rest = s.drop_last();
        let last = s.last();
        assert(rest.push(last) =~= s);
        lemma_insert_pair(rest, p);
        let ins = insert_pair(rest, p);
        assert forall|i: int| 0 <= i < ins.len() implies !bytes_lt(last.0, #[trigger] ins[i].0) by {
            assert(ins.contains(ins[i]));
            assert(ins.to_multiset().count(ins[i]) > 0);
            if ins[i] == p {
                lemma_lt_asymmetric(p.0, last.0);
            } else {
                assert(rest.to_multiset().count(ins[i]) > 0);
                assert(rest.contains(ins[i]));
                let k = choose|k: int| 0 <= k < rest.len() && rest[k] == ins[i];
                assert(s[k] == rest[k]);
                assert(s[s.len() - 1] == last);
            }
        }
        let r = ins.push(last);
        assert forall|i: int, j: int| 0 <= i < j < r.len() implies !bytes_lt(
            #[trigger] r[j].0,
            #[trigger] r[i].0,
        ) by {
            if j == r.len() - 1 {
                assert(r[i] == ins[i]);
            } else {
                assert(r[i] == ins[i] && r[j] == ins[j]);
            }
        }
    } else {
        let r = s.push(p);
        assert forall|i: int, j: int| 0 <= i < j < r.len() implies !bytes_lt(
            #[trigger] r[j].0,
            #[trigger] r[i].0,
        ) by {
            if j == r.len() - 1 {
                assert(r[i] == s[i]);
                if i < s.len() - 1 {
                    assert(!bytes_lt(s[s.len() - 1].0, s[i].0));
                    lemma_le_transitive(s[i].0, s.last().0, p.0);
                }
            } else {
                assert(r[i] == s[i] && r[j] == s[j]);
            }
        }
    }
}

/// Sorting pairs sorts them and keeps exactly the same pairs.
proof fn lemma_sort_pairs(s: Seq<(Seq<u8>, Seq<u8>)>)
    ensures
        pairs_sorted(sort_pairs(s)),
        sort_pairs(s).to_multiset() =~= s.to_multiset(),
    decreases s.len(),
{
    broadcast use vstd::seq_lib::group_to_multiset_ensures;

    if s.len() > 0 {
        lemma_sort_pairs(s.drop_last());
        lemma_insert_pair(sort_pairs(s.drop_last()), s.last());
        assert(s.drop_last().push(s.last()) =~= s);
    }
}

/// Sorted pairs holding the same pairs as a sequence with distinct keys
/// are strictly sorted.
proof fn lemma_strictly_sorted(x: Seq<(Seq<u8>, Seq<u8>)>, base: Seq<(Seq<u8>, Seq<u8>)>)
    requires
        pairs_sorted(x),
        keys_distinct(base),
        x.to_multiset() =~= base.to_multiset(),
    ensures
        pairs_strictly_sorted(x),
{
    broadcast use vstd::seq_lib::group_to_multiset_ensures;

    assert(base.no_duplicates()) by {
        assert forall|i: int, j: int| 0 <= i < base.len() && 0 <= j < base.len() && i != j implies base[i]
            != base[j] by {
            if i < j {
                assert(base[i].0 != base[j].0);
            } else {
                assert(base[j].0 != base[i].0);
            }
        }
    }
    base.lemma_multiset_has_no_duplicates();
    x.lemma_multiset_has_no_duplicates_conv();
    assert forall|i: int, j: int| 0 <= i < j < x.len() implies bytes_lt(#[trigger] x[i].0, #[trigger] x[j].0) by {
        assert(x.contains(x[i]) && x.contains(x[j]));
        assert(base.to_multiset().count(x[i]) > 0 && base.to_multiset().count(x[j]) > 0);
        assert(base.contains(x[i]) && base.contains(x[j]));
        let a = choose|a: int| 0 <= a < base.len() && base[a] == x[i];
        let b = choose|b: int| 0 <= b < base.len() && base[b] == x[j];
        assert(x[i] != x[j]);
        if x[i].0 == x[j].0 {
            assert(a != b);
            if a < b {
                assert(base[a].0 != base[b].0);
            } else {
                assert(base[b].0 != base[a].0);
            }
        }
        lemma_lt_total(x[i].0, x[j].0);
    }
}

/// Two strictly sorted sequences of the same pairs are equal.
proof fn lemma_sorted_unique(x: Seq<(Seq<u8>, Seq<u8>)>, y: Seq<(Seq<u8>, Seq<u8>)>)
    requires
        pairs_strictly_sorted(x),
        pairs_strictly_sorted(y),
        x.to_multiset() =~= y.to_multiset(),
    ensures
        x == y,
    decreases x.len(),
{
    broadcast use vstd::seq_lib::group_to_multiset_ensures;

    assert(x.to_multiset().len() == y.to_multiset().len());
    if x.len() == 0 {
        assert(y.len() == 0);
        assert(x =~= y);
    } else {
        assert(y.len() == x.len());
        let xl = x.last();
        let yl = y.last();
        if xl != yl {
            assert(x.contains(xl));
            assert(y.to_multiset().count(xl) > 0);
            assert(y.contains(xl));
            let j = choose|j: int| 0 <= j < y.len() && y[j] == xl;
            assert(y.contains(yl));
            assert(x.to_multiset().count(yl) > 0);
            assert(x.contains(yl));
            let i = choose|i: int| 0 <= i < x.len() && x[i] == yl;
            assert(j < y.len() - 1 && i < x.len() - 1);
            assert(bytes_lt(y[j].0, y[y.len() - 1].0));
            assert(bytes_lt(x[i].0, x[x.len() - 1].0));
            lemma_lt_asymmetric(xl.0, yl.0);
        }
        let xs = x.drop_last();
        let ys = y.drop_last();
        assert(xs.push(xl) =~= x);
        assert(ys.push(yl) =~= y);
        assert(xs.to_multiset() =~= x.to_multiset().remove(xl));
        assert(ys.to_multiset() =~= y.to_multiset().remove(yl));
        assert forall|i: int, j: int| 0 <= i < j < xs.len() implies bytes_lt(#[trigger] xs[i].0, #[trigger] xs[j].0) by {
            assert(xs[i] == x[i] && xs[j] == x[j]);
        }
        assert forall|i: int, j: int| 0 <= i < j < ys.len() implies bytes_lt(#[trigger] ys[i].0, #[trigger] ys[j].0) by {
            assert(ys[i] == y[i] && ys[j] == y[j]);
        }
        lemma_sorted_unique(xs, ys);
    }
}

/// Each member's pair is its key and the key of its value.
proof fn lemma_member_pairs_at(s: Seq<JsonMember>)
    ensures
        member_pairs(s).len() == s.len(),
        forall|i: int|
            0 <= i < s.len() ==> #[trigger] member_pairs(s)[i] == (s[i].key@, json_key(s[i].value)),
    decreases s.len(),
{
    if s.len() > 0 {
        lemma_member_pairs_at(s.drop_last());
        assert forall|i: int| 0 <= i < s.len() implies #[trigger] member_pairs(s)[i] == (
        s[i].key@,
        json_key(s[i].value),
        ) by {
            if i < s.len() - 1 {
                assert(s.drop_last()[i] == s[i]);
            }
        }
    }
}

/// The same members give the same member pairs, counted alike.
proof fn lemma_member_pairs_multiset(s: Seq<JsonMember>, t: Seq<JsonMember>)
    requires
        s.to_multiset() =~= t.to_multiset(),
    ensures
        member_pairs(s).to_multiset() =~= member_pairs(t).to_multiset(),
    decreases s.len(),
{
    broadcast use vstd::seq_lib::group_to_multiset_ensures;
    broadcast use vstd::multiset::group_multiset_axioms;

    lemma_member_pairs_at(s);
    lemma_member_pairs_at(t);
    assert(s.to_multiset().len() == t.to_multiset().len());
    if s.len() == 0 {
        assert(t.len() == 0);
        assert(member_pairs(s) =~= member_pairs(t));
    } else {
        let e = s.last();
        let rest = s.drop_last();
        assert(rest.push(e) =~= s);
        assert(t.to_multiset().count(e) > 0);
        assert(t.contains(e));
        let j = choose|j: int| 0 <= j < t.len() && t[j] == e;
        let tr = t.remove(j);
        assert(tr.to_multiset() =~= t.to_multiset().remove(e));
        assert(rest.to_multiset() =~= s.to_multiset().remove(e));
        lemma_member_pairs_multiset(rest, tr);
        let pe = (e.key@, json_key(e.value));
        lemma_member_pairs_at(tr);
        lemma_member_pairs_at(rest);
        assert(member_pairs(t).remove(j) =~= member_pairs(tr)) by {
            assert forall|i: int| 0 <= i < member_pairs(tr).len() implies member_pairs(t).remove(j)[i]
                == #[trigger] member_pairs(tr)[i] by {
                if i < j {
                    assert(tr[i] == t[i]);
                } else {
                    assert(tr[i] == t[i + 1]);
                }
            }
        }
        assert(member_pairs(t)[j] == pe);
        assert(member_pairs(t).remove(j).to_multiset() =~= member_pairs(t).to_multiset().remove(pe));
        assert(member_pairs(t).to_multiset().count(pe) > 0);
        assert(member_pairs(s) == member_pairs(rest).push(pe));
        assert(member_pairs(t).to_multiset() =~= member_pairs(tr).to_multiset().insert(pe));
    }
}

/// Two objects that hold the same members, with distinct keys, have the
/// same key however their members are ordered, so they compare equal.
pub proof fn law_object_member_order(a: Vec<JsonMember>, b: Vec<JsonMember>)
    requires
        a@.to_multiset() =~= b@.to_multiset(),
        forall|i: int, j: int| 0 <= i < j < a@.len() ==> #[trigger] a@[i].key@ != #[trigger] a@[j].key@,
    ensures
        json_key(JsonValue::Object(a)) == json_key(JsonValue::Object(b)),
{
    broadcast use vstd::seq_lib::group_to_multiset_ensures;

    let pa = member_pairs(a@);
    let pb = member_pairs(b@);
    lemma_member_pairs_at(a@);
    lemma_member_pairs_at(b@);
    lemma_member_pairs_multiset(a@, b@);
    assert(keys_distinct(pa)) by {
        assert forall|i: int, j: int| 0 <= i < j < pa.len() implies #[trigger] pa[i].0 != #[trigger] pa[j].0 by {
            assert(pa[i].0 == a@[i].key@ && pa[j].0 == a@[j].key@);
        }
    }
    lemma_sort_pairs(pa);
    lemma_sort_pairs(pb);
    lemma_strictly_sorted(sort_pairs(pa), pa);
    lemma_strictly_sorted(sort_pairs(pb), pa);
    lemma_sorted_unique(sort_pairs(pa), sort_pairs(pb));
    assert(a@.len() == b@.len()) by {
        assert(a@.to_multiset().len() == b@.to_multiset().len());
    }
}

} // verus!
