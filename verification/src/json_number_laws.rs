//! JSON numbers sort by their value: the number key of a double below
//! another is byte-wise below it, negative numbers included.
use crate::json_order::{be_bytes64, bytes_lt, json_key, lemma_lt_at, ordered_bits, JsonValue};
use vstd::prelude::*;

verus! {

/// Whether a double's sign bit is set.
pub open spec fn negative_bits(b: u64) -> bool {
    b >= 0x8000_0000_0000_0000u64
}

/// The exponent and fraction bits of a double: for finite doubles of one
/// sign, the magnitude grows with them.
pub open spec fn magnitude_bits(b: u64) -> u64 {
    b & 0x7fff_ffff_ffff_ffffu64
}

/// Whether the bits hold a finite double (an exponent that is not all
/// ones), as every JSON number is.
pub open spec fn finite_bits(b: u64) -> bool {
    b & 0x7ff0_0000_0000_0000u64 != 0x7ff0_0000_0000_0000u64
}

/// Whether the finite double `x` is below `y` as a real number: zeros of
/// either sign are equal, a negative number is below every other, two
/// non-negative numbers order by magnitude and two negative ones the
/// other way round.
pub open spec fn double_below(x: u64, y: u64) -> bool {
    if magnitude_bits(x) == 0 && magnitude_bits(y) == 0 {
        false
    } else if negative_bits(x) && !negative_bits(y) {
        true
    } else if !negative_bits(x) && negative_bits(y) {
        false
    } else if !negative_bits(x) {
        magnitude_bits(x) < magnitude_bits(y)
    } else {
        magnitude_bits(x) > magnitude_bits(y)
    }
}

/// The ordered bits of a number grow with its value.
proof fn lemma_ordered_bits_grow(x: u64, y: u64)
    requires
        double_below(x, y),
    ensures
        ordered_bits(x) < ordered_bits(y),
{
    assert(double_below(x, y) ==> ordered_bits(x) < ordered_bits(y)) by (bit_vector);
}

/// A word without its low `56 - 8 j` bits: its first `j + 1` bytes.
pub open spec fn leading_bytes(x: u64, j: int) -> u64 {
    x >> ((56 - 8 * j) as u64)
}

/// The big-endian bytes of a smaller word are byte-wise smaller, deciding
/// from byte `k` on when the bytes before it agree.
proof fn lemma_be_bytes_from(p: u64, q: u64, k: int)
    requires
        0 <= k < 8,
        p < q,
        forall|j: int| 0 <= j < k ==> #[trigger] leading_bytes(p, j) == leading_bytes(q, j),
    ensures
        bytes_lt(be_bytes64(p), be_bytes64(q)),
    decreases 8 - k,
{
    let a = be_bytes64(p);
    let b = be_bytes64(q);
    let s = (56 - 8 * k) as u64;
    if p >> s != q >> s {
        assert(p >> s <= q >> s) by (bit_vector)
            requires
                p < q,
        ;
        if k == 0 {
            assert(s == 56);
            assert(p >> s < q >> s ==> (p >> s) & 0xff < (q >> s) & 0xff) by (bit_vector)
                requires
                    s == 56,
            ;
        } else {
            let t = (56 - 8 * (k - 1)) as u64;
            assert(leading_bytes(p, k - 1) == leading_bytes(q, k - 1));
            assert(p >> t == q >> t);
            assert(t == s + 8);
            assert((p >> t == q >> t && p >> s < q >> s && t == s + 8 && s <= 48) ==> (p >> s) & 0xff < (q >> s)
                & 0xff) by (bit_vector);
        }
        assert forall|j: int| 0 <= j < k implies a.subrange(0, k)[j] == b.subrange(0, k)[j] by {
            assert(leading_bytes(p, j) == leading_bytes(q, j));
        }
        assert(a.subrange(0, k) =~= b.subrange(0, k));
        assert(a[k] == ((p >> s) & 0xff) as u8);
        assert(b[k] == ((q >> s) & 0xff) as u8);
        assert((((p >> s) & 0xff) as u8) < (((q >> s) & 0xff) as u8)) by (bit_vector)
            requires
                (p >> s) & 0xff < (q >> s) & 0xff,
        ;
        assert(a[k] < b[k]);
        lemma_lt_at(a, b, k);
    } else if k == 7 {
        assert(s == 0);
        assert(p >> s == q >> s && s == 0 ==> p == q) by (bit_vector);
    } else {
        assert(leading_bytes(p, k) == leading_bytes(q, k));
        lemma_be_bytes_from(p, q, k + 1);
    }
}

/// JSON numbers sort by value: a number below another has the byte-wise
/// smaller key, between two negative numbers too (-2 sorts before -1).
pub proof fn law_numbers_sort_by_value(x: u64, y: u64)
    requires
        finite_bits(x),
        finite_bits(y),
        double_below(x, y),
    ensures
        bytes_lt(json_key(JsonValue::Number(x)), json_key(JsonValue::Number(y))),
{
    lemma_ordered_bits_grow(x, y);
    lemma_be_bytes_from(ordered_bits(x), ordered_bits(y), 0);
    let a = json_key(JsonValue::Number(x));
    let b = json_key(JsonValue::Number(y));
    assert(a[0] == b[0]);
    assert(a.drop_first() =~= be_bytes64(ordered_bits(x)));
    assert(b.drop_first() =~= be_bytes64(ordered_bits(y)));
}

} // verus!
