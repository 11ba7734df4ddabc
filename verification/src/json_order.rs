//! MySQL's JSON comparison ladder as an order-preserving byte key.
//!
//! MySQL compares two JSON values by type precedence first - of the types
//! JSON text can hold: `BOOLEAN > ARRAY > OBJECT > STRING > NUMBER > NULL` -
//! and within one type by that type's own rule: booleans as `false < true`,
//! arrays element by element with the shorter prefix smaller, strings by
//! bytes, numbers numerically. Two objects are equal when they hold the same
//! members; unequal objects compare by member count first, then members in
//! key order.
//!
//! Everything reduces to one primitive: an order-preserving byte key, so
//! comparison, grouping and set membership all agree.
use std::cmp::Ordering;
use vstd::prelude::*;

verus! {

/// Ladder tags, low to high. Every tag is at least 0x01, so the sequence
/// terminator 0x00 sorts a shorter array before a longer one sharing its
/// prefix.
pub const TAG_NULL: u8 = 0x01;
pub const TAG_NUMBER: u8 = 0x02;
pub const TAG_STRING: u8 = 0x03;
pub const TAG_OBJECT: u8 = 0x04;
pub const TAG_ARRAY: u8 = 0x05;
pub const TAG_BOOLEAN: u8 = 0x06;

/// A JSON document. A number is held as the bit pattern of the IEEE-754
/// double it reads as; a string and an object key as their UTF-8 bytes.
pub enum JsonValue {
    Null,
    Bool(bool),
    Number(u64),
    Text(Vec<u8>),
    Array(Vec<JsonValue>),
    Object(Vec<JsonMember>),
}

/// One member of a JSON object.
pub struct JsonMember {
    pub key: Vec<u8>,
    pub value: JsonValue,
}

/// The ladder tag of a value's type.
pub open spec fn tag_of(v: JsonValue) -> u8 {
    match v {
        JsonValue::Null => TAG_NULL,
        JsonValue::Bool(_) => TAG_BOOLEAN,
        JsonValue::Number(_) => TAG_NUMBER,
        JsonValue::Text(_) => TAG_STRING,
        JsonValue::Array(_) => TAG_ARRAY,
        JsonValue::Object(_) => TAG_OBJECT,
    }
}

/// Big-endian bytes of a 64-bit word.
pub open spec fn be_bytes64(x: u64) -> Seq<u8> {
    Seq::new(8, |i: int| ((x >> ((56 - 8 * i) as u64)) & 0xff) as u8)
}

/// Big-endian bytes of a 32-bit word.
pub open spec fn be_bytes32(x: u32) -> Seq<u8> {
    Seq::new(4, |i: int| ((x >> ((24 - 8 * i) as u32)) & 0xff) as u8)
}

/// Negative zero reads as zero: JSON `-0.0` equals `0`.
pub open spec fn canonical_zero(bits: u64) -> u64 {
    if bits == 0x8000_0000_0000_0000u64 { 0 } else { bits }
}

/// IEEE-754 bits rearranged so that unsigned order is numeric order:
/// negative values invert entirely, non-negative ones set the sign bit.
pub open spec fn ordered_bits(bits: u64) -> u64 {
    let b = canonical_zero(bits);
    if b >= 0x8000_0000_0000_0000u64 { !b } else { b | 0x8000_0000_0000_0000u64 }
}

/// One byte of a string, escaped so that no byte collides with the
/// terminator: zero becomes `00 01`.
pub open spec fn escaped_byte(b: u8) -> Seq<u8> {
    if b == 0 { seq![0u8, 1u8] } else { seq![b] }
}

/// All bytes of a string, escaped.
pub open spec fn escaped(t: Seq<u8>) -> Seq<u8>
    decreases t.len(),
{
    if t.len() == 0 { Seq::empty() } else { escaped(t.drop_last()) + escaped_byte(t.last()) }
}

/// The key of a string body: escaped bytes and a two-byte terminator, so
/// `"a"` sorts before `"ab"`.
pub open spec fn text_key(t: Seq<u8>) -> Seq<u8> {
    escaped(t) + seq![0u8, 0u8]
}

/// The member count written into an object's key, saturating.
pub open spec fn member_count(n: nat) -> u32 {
    if n > u32::MAX { u32::MAX } else { n as u32 }
}

/// Byte-wise lexicographic "strictly less".
pub open spec fn bytes_lt(a: Seq<u8>, b: Seq<u8>) -> bool
    decreases a.len(),
{
    if a.len() == 0 {
        b.len() > 0
    } else if b.len() == 0 {
        false
    } else if a[0] != b[0] {
        a[0] < b[0]
    } else {
        bytes_lt(a.drop_first(), b.drop_first())
    }
}

/// Three-way lexicographic comparison of byte strings.
pub open spec fn bytes_order(a: Seq<u8>, b: Seq<u8>) -> Ordering {
    if bytes_lt(a, b) {
        Ordering::Less
    } else if a == b {
        Ordering::Equal
    } else {
        Ordering::Greater
    }
}

/// Inserts one `(key, encoded value)` pair behind every pair whose key is
/// not greater: a stable insertion.
pub open spec fn insert_pair(s: Seq<(Seq<u8>, Seq<u8>)>, p: (Seq<u8>, Seq<u8>)) -> Seq<
    (Seq<u8>, Seq<u8>),
>
    decreases s.len(),
{
    if s.len() == 0 {
        seq![p]
    } else if bytes_lt(p.0, s.last().0) {
        insert_pair(s.drop_last(), p).push(s.last())
    } else {
        s.push(p)
    }
}

/// Pairs stably sorted by key.
pub open spec fn sort_pairs(s: Seq<(Seq<u8>, Seq<u8>)>) -> Seq<(Seq<u8>, Seq<u8>)>
    decreases s.len(),
{
    if s.len() == 0 {
        Seq::empty()
    } else {
        insert_pair(sort_pairs(s.drop_last()), s.last())
    }
}

/// The bytes of sorted members: each key then its value's key.
pub open spec fn pairs_bytes(s: Seq<(Seq<u8>, Seq<u8>)>) -> Seq<u8>
    decreases s.len(),
{
    if s.len() == 0 {
        Seq::empty()
    } else {
        pairs_bytes(s.drop_last()) + text_key(s.last().0) + s.last().1
    }
}

/// The order-preserving key of a JSON value.
pub open spec fn json_key(v: JsonValue) -> Seq<u8>
    decreases v,
{
    match v {
        JsonValue::Null => seq![TAG_NULL],
        JsonValue::Bool(flag) => seq![TAG_BOOLEAN, if flag { 1u8 } else { 0u8 }],
        JsonValue::Number(bits) => seq![TAG_NUMBER] + be_bytes64(ordered_bits(bits)),
        JsonValue::Text(t) => seq![TAG_STRING] + text_key(t@),
        JsonValue::Array(items) => seq![TAG_ARRAY] + items_key(items@) + seq![0u8],
        JsonValue::Object(members) => seq![TAG_OBJECT] + be_bytes32(
            member_count(members@.len()),
        ) + pairs_bytes(sort_pairs(member_pairs(members@))),
    }
}

/// The concatenated keys of array items.
pub open spec fn items_key(s: Seq<JsonValue>) -> Seq<u8>
    decreases s,
{
    if s.len() == 0 {
        Seq::empty()
    } else {
        items_key(s.drop_last()) + json_key(s.last())
    }
}

/// Each member as its key bytes and the key of its value.
pub open spec fn member_pairs(s: Seq<JsonMember>) -> Seq<(Seq<u8>, Seq<u8>)>
    decreases s,
{
    if s.len() == 0 {
        Seq::empty()
    } else {
        member_pairs(s.drop_last()).push((s.last().key@, json_key(s.last().value)))
    }
}


/// Appends the big-endian bytes of a 64-bit word.
fn push_be64(key: &mut Vec<u8>, x: u64)
    ensures
        final(key)@ == old(key)@ + be_bytes64(x),
{
    let mut i: u64 = 0;
    while i < 8
        invariant
            i <= 8,
            key@.len() == old(key)@.len() + i,
            key@.subrange(0, old(key)@.len() as int) == old(key)@,
            forall|j: int| 0 <= j < i ==> key@[old(key)@.len() + j] == be_bytes64(x)[j],
        decreases 8 - i,
    {
        let shift: u64 = 56 - 8 * i;
        key.push(((x >> shift) & 0xff) as u8);
        i = i + 1;
    }
    assert(key@ =~= old(key)@ + be_bytes64(x));
}

/// Appends the big-endian bytes of a 32-bit word.
fn push_be32(key: &mut Vec<u8>, x: u32)
    ensures
        final(key)@ == old(key)@ + be_bytes32(x),
{
    let mut i: u32 = 0;
    while i < 4
        invariant
            i <= 4,
            key@.len() == old(key)@.len() + i,
            key@.subrange(0, old(key)@.len() as int) == old(key)@,
            forall|j: int| 0 <= j < i ==> key@[old(key)@.len() + j] == be_bytes32(x)[j],
        decreases 4 - i,
    {
        let shift: u32 = 24 - 8 * i;
        key.push(((x >> shift) & 0xff) as u8);
        i = i + 1;
    }
    assert(key@ =~= old(key)@ + be_bytes32(x));
}

/// IEEE-754 bits rearranged so that unsigned byte order is numeric order.
pub fn order_bits(bits: u64) -> (r: u64)
    ensures
        r == ordered_bits(bits),
{
    let b = if bits == 0x8000_0000_0000_0000u64 { 0 } else { bits };
    if b >= 0x8000_0000_0000_0000u64 { !b } else { b | 0x8000_0000_0000_0000u64 }
}

/// Appends the key of a number: its tag, then its ordered bits.
pub fn encode_f64_bits(bits: u64, key: &mut Vec<u8>)
    ensures
        final(key)@ == old(key)@ + be_bytes64(ordered_bits(bits)),
{
    push_be64(key, order_bits(bits));
}

/// Appends the zero-escaped bytes of a string and its two-byte terminator.
pub fn encode_text(text: &[u8], key: &mut Vec<u8>)
    ensures
        final(key)@ == old(key)@ + text_key(text@),
{
    let mut i: usize = 0;
    while i < text.len()
        invariant
            i <= text@.len(),
            key@ == old(key)@ + escaped(text@.subrange(0, i as int)),
        decreases text@.len() - i,
    {
        let byte = text[i];
        if byte == 0 {
            key.push(0);
            key.push(1);
        } else {
            key.push(byte);
        }
        proof {
            let t = text@.subrange(0, i + 1);
            assert(t.drop_last() =~= text@.subrange(0, i as int));
            assert(t.last() == byte);
        }
        i = i + 1;
        assert(key@ =~= old(key)@ + escaped(text@.subrange(0, i as int)));
    }
    assert(text@.subrange(0, text@.len() as int) =~= text@);
    key.push(0);
    key.push(0);
    assert(key@ =~= old(key)@ + text_key(text@));
}

/// Byte-wise lexicographic comparison of two keys: -1, 0 or 1.
pub fn compare_key_bytes(a: &[u8], b: &[u8]) -> (r: i8)
    ensures
        r == -1 <==> bytes_lt(a@, b@),
        r == 0 <==> a@ == b@,
        r == -1 || r == 0 || r == 1,
{
    let mut i: usize = 0;
    assert(a@.subrange(0, a@.len() as int) =~= a@);
    assert(b@.subrange(0, b@.len() as int) =~= b@);
    while i < a.len() && i < b.len()
        invariant
            i <= a@.len(),
            i <= b@.len(),
            a@.subrange(0, i as int) == b@.subrange(0, i as int),
            bytes_lt(a@, b@) == bytes_lt(a@.subrange(i as int, a@.len() as int), b@.subrange(i as int, b@.len() as int)),
        decreases a@.len() - i,
    {
        if a[i] != b[i] {
            proof {
                lemma_lt_at(a@, b@, i as int);
            }
            if a[i] < b[i] {
                return -1;
            } else {
                return 1;
            }
        }
        proof {
            let sa = a@.subrange(i as int, a@.len() as int);
            let sb = b@.subrange(i as int, b@.len() as int);
            assert(sa.drop_first() =~= a@.subrange(i + 1, a@.len() as int));
            assert(sb.drop_first() =~= b@.subrange(i + 1, b@.len() as int));
            assert(a@.subrange(0, i + 1) =~= a@.subrange(0, i as int).push(a@[i as int]));
            assert(b@.subrange(0, i + 1) =~= b@.subrange(0, i as int).push(b@[i as int]));
        }
        i = i + 1;
    }
    if a.len() < b.len() {
        proof {
            assert(a@.subrange(i as int, a@.len() as int).len() == 0);
            assert(a@ != b@) by {
                assert(a@.len() != b@.len());
            }
        }
        -1
    } else if a.len() == b.len() {
        proof {
            assert(a@ =~= a@.subrange(0, i as int));
            assert(b@ =~= b@.subrange(0, i as int));
            lemma_lt_irreflexive(a@);
        }
        0
    } else {
        proof {
            assert(b@.subrange(i as int, b@.len() as int).len() == 0);
            assert(a@ != b@) by {
                assert(a@.len() != b@.len());
            }
        }
        1
    }
}

/// Byte-wise lexicographic comparison of two keys.
pub fn compare_keys(a: &[u8], b: &[u8]) -> (r: Ordering)
    ensures
        r == bytes_order(a@, b@),
{
    let sign = compare_key_bytes(a, b);
    if sign == -1 {
        Ordering::Less
    } else if sign == 0 {
        Ordering::Equal
    } else {
        Ordering::Greater
    }
}

/// Two sequences that agree before `i` and differ at `i` compare by that
/// byte.
pub proof fn lemma_lt_at(a: Seq<u8>, b: Seq<u8>, i: int)
    requires
        0 <= i < a.len(),
        i < b.len(),
        a.subrange(0, i) == b.subrange(0, i),
        a[i] != b[i],
    ensures
        bytes_lt(a, b) == (a[i] < b[i]),
        a != b,
    decreases i,
{
    if i > 0 {
        assert(a[0] == a.subrange(0, i)[0]);
        assert(b[0] == b.subrange(0, i)[0]);
        assert(a.drop_first().subrange(0, i - 1) =~= a.subrange(0, i).drop_first());
        assert(b.drop_first().subrange(0, i - 1) =~= b.subrange(0, i).drop_first());
        lemma_lt_at(a.drop_first(), b.drop_first(), i - 1);
    }
    assert(a[i] != b[i]);
}

/// No sequence is below itself.
pub proof fn lemma_lt_irreflexive(a: Seq<u8>)
    ensures
        !bytes_lt(a, a),
    decreases a.len(),
{
    if a.len() > 0 {
        lemma_lt_irreflexive(a.drop_first());
    }
}


/// The view of encoded member pairs.
pub open spec fn pairs_view(v: Seq<(Vec<u8>, Vec<u8>)>) -> Seq<(Seq<u8>, Seq<u8>)> {
    Seq::new(v.len(), |i: int| (v[i].0@, v[i].1@))
}

/// Appends every byte of `src`.
fn append_bytes(dst: &mut Vec<u8>, src: &[u8])
    ensures
        final(dst)@ == old(dst)@ + src@,
{
    let mut i: usize = 0;
    while i < src.len()
        invariant
            i <= src@.len(),
            dst@ == old(dst)@ + src@.subrange(0, i as int),
        decreases src@.len() - i,
    {
        dst.push(src[i]);
        i = i + 1;
        assert(dst@ =~= old(dst)@ + src@.subrange(0, i as int));
    }
    assert(src@.subrange(0, src@.len() as int) =~= src@);
}

/// A copy of a byte string.
fn copy_bytes(src: &[u8]) -> (r: Vec<u8>)
    ensures
        r@ == src@,
{
    let mut r: Vec<u8> = Vec::new();
    append_bytes(&mut r, src);
    assert(r@ =~= src@);
    r
}

/// Stable insertion of one encoded member into pairs sorted by key.
fn insert_sorted_pair(s: &mut Vec<(Vec<u8>, Vec<u8>)>, p: (Vec<u8>, Vec<u8>))
    ensures
        pairs_view(final(s)@) == insert_pair(pairs_view(old(s)@), (p.0@, p.1@)),
    decreases old(s)@.len(),
{
    let ghost before = pairs_view(s@);
    if s.len() == 0 {
        s.push(p);
        assert(pairs_view(s@) =~= seq![(p.0@, p.1@)]);
    } else {
        let last_index = s.len() - 1;
        let below = compare_key_bytes(p.0.as_slice(), s[last_index].0.as_slice()) == -1;
        if below {
            let last = s.pop().unwrap();
            assert(pairs_view(s@) =~= before.drop_last());
            insert_sorted_pair(s, p);
            let ghost mid = pairs_view(s@);
            s.push(last);
            assert(pairs_view(s@) =~= mid.push(before.last()));
        } else {
            s.push(p);
            assert(pairs_view(s@) =~= before.push((p.0@, p.1@)));
        }
    }
}

/// Appends the order-preserving key of `value`.
pub fn encode(value: &JsonValue, key: &mut Vec<u8>)
    ensures
        final(key)@ == old(key)@ + json_key(*value),
    decreases value,
{
    match value {
        JsonValue::Null => {
            key.push(TAG_NULL);
            assert(key@ =~= old(key)@ + json_key(*value));
        },
        JsonValue::Bool(flag) => {
            key.push(TAG_BOOLEAN);
            key.push(if *flag { 1u8 } else { 0u8 });
            assert(key@ =~= old(key)@ + json_key(*value));
        },
        JsonValue::Number(bits) => {
            key.push(TAG_NUMBER);
            encode_f64_bits(*bits, key);
            assert(key@ =~= old(key)@ + json_key(*value));
        },
        JsonValue::Text(text) => {
            key.push(TAG_STRING);
            encode_text(text.as_slice(), key);
            assert(key@ =~= old(key)@ + json_key(*value));
        },
        JsonValue::Array(items) => {
            key.push(TAG_ARRAY);
            let ghost start = key@;
            let mut i: usize = 0;
            while i < items.len()
                invariant
                    i <= items@.len(),
                    *value == JsonValue::Array(*items),
                    key@ == start + items_key(items@.subrange(0, i as int)),
                decreases items@.len() - i,
            {
                proof {
                    assert(decreases_to!(*value => value->Array_0));
                    assert(decreases_to!(*items => items@));
                    assert(decreases_to!(items@ => items@[i as int]));
                }
                encode(&items[i], key);
                proof {
                    let t = items@.subrange(0, i + 1);
                    assert(t.drop_last() =~= items@.subrange(0, i as int));
                }
                i = i + 1;
                assert(key@ =~= start + items_key(items@.subrange(0, i as int)));
            }
            assert(items@.subrange(0, items@.len() as int) =~= items@);
            key.push(0);
            assert(key@ =~= old(key)@ + json_key(*value));
        },
        JsonValue::Object(members) => {
            key.push(TAG_OBJECT);
            let n = members.len();
            let count: u32 = if n > 0xffff_ffffusize { 0xffff_ffffu32 } else { n as u32 };
            push_be32(key, count);
            let mut pairs: Vec<(Vec<u8>, Vec<u8>)> = Vec::new();
            let mut i: usize = 0;
            while i < members.len()
                invariant
                    i <= members@.len(),
                    *value == JsonValue::Object(*members),
                    pairs_view(pairs@) == member_pairs(members@.subrange(0, i as int)),
                decreases members@.len() - i,
            {
                proof {
                    assert(decreases_to!(*value => value->Object_0));
                    assert(decreases_to!(*members => members@));
                    assert(decreases_to!(members@ => members@[i as int]));
                    assert(decreases_to!(members@[i as int] => members@[i as int].value));
                }
                let mut encoded: Vec<u8> = Vec::new();
                encode(&members[i].value, &mut encoded);
                let copied = copy_bytes(members[i].key.as_slice());
                let ghost before = pairs_view(pairs@);
                pairs.push((copied, encoded));
                proof {
                    let t = members@.subrange(0, i + 1);
                    assert(t.drop_last() =~= members@.subrange(0, i as int));
                    assert(encoded@ =~= json_key(members@[i as int].value));
                    assert(pairs_view(pairs@) =~= before.push((members@[i as int].key@, json_key(members@[i as int].value))));
                }
                i = i + 1;
            }
            assert(members@.subrange(0, members@.len() as int) =~= members@);
            let ghost all = pairs_view(pairs@);
            let mut sorted: Vec<(Vec<u8>, Vec<u8>)> = Vec::new();
            let mut j: usize = 0;
            let ghost source = pairs@;
            let total = pairs.len();
            while pairs.len() > 0
                invariant
                    j + pairs@.len() == source.len(),
                    source.len() == total,
                    pairs@ == source.subrange(j as int, source.len() as int),
                    all == pairs_view(source),
                    pairs_view(sorted@) == sort_pairs(pairs_view(source.subrange(0, j as int))),
                decreases pairs@.len(),
            {
                assert(j < source.len());
                let p = pairs.remove(0);
                insert_sorted_pair(&mut sorted, p);
                proof {
                    let t = pairs_view(source.subrange(0, j + 1));
                    assert(t.drop_last() =~= pairs_view(source.subrange(0, j as int)));
                    assert(t.last() == (p.0@, p.1@));
                    assert(pairs@ =~= source.subrange(j + 1, source.len() as int));
                }
                j = j + 1;
            }
            assert(source.subrange(0, j as int) =~= source);
            let ghost start = key@;
            let mut k: usize = 0;
            while k < sorted.len()
                invariant
                    k <= sorted@.len(),
                    key@ == start + pairs_bytes(pairs_view(sorted@).subrange(0, k as int)),
                decreases sorted@.len() - k,
            {
                encode_text(sorted[k].0.as_slice(), key);
                append_bytes(key, sorted[k].1.as_slice());
                proof {
                    let t = pairs_view(sorted@).subrange(0, k + 1);
                    assert(t.drop_last() =~= pairs_view(sorted@).subrange(0, k as int));
                }
                k = k + 1;
                assert(key@ =~= start + pairs_bytes(pairs_view(sorted@).subrange(0, k as int)));
            }
            assert(pairs_view(sorted@).subrange(0, k as int) =~= pairs_view(sorted@));
            assert(count == member_count(members@.len()));
            assert(key@ =~= old(key)@ + json_key(*value));
        },
    }
}

/// The order-preserving key of one JSON document.
pub fn json_sort_key(value: &JsonValue) -> (r: Vec<u8>)
    ensures
        r@ == json_key(*value),
{
    let mut key: Vec<u8> = Vec::new();
    encode(value, &mut key);
    assert(key@ =~= json_key(*value));
    key
}

/// Ladder comparison of two JSON documents.
pub fn compare_json_values(left: &JsonValue, right: &JsonValue) -> (r: Ordering)
    ensures
        r == bytes_order(json_key(*left), json_key(*right)),
{
    let a = json_sort_key(left);
    let b = json_sort_key(right);
    compare_keys(a.as_slice(), b.as_slice())
}

} // verus!
