//! DECIMAL arithmetic on scaled integer units: an operand is `units`
//! divided by ten to its `scale`, and a result is computed at the target
//! scale the binder chose, exactly where the scale allows and rounded half
//! away from zero where it does not.
use crate::chars::{chars_of, i64_text, parse_i64, slice_chars};
use crate::compare::{ordering_sign, sign_of, BinaryOp, IntegerValue};
use crate::temporal::{last_index, rfind_char};
use crate::decimal::{
    checked_ten_pow, decimal_units_from_i128, div_round_half_away, fits, format_decimal_scaled,
    lemma_ten_pow_grows, lemma_ten_pow_positive, lemma_trunc_bounds, magnitude, round_half_away, scaled_text,
    ten_pow, units_at_scale, ExecError,
};
use std::cmp::Ordering;
use vstd::prelude::*;

verus! {

/// The quotient `n / d` rounded half away from zero.
pub open spec fn rounded_quotient(n: int, d: int) -> int {
    let q = magnitude(n) / magnitude(d);
    let r = magnitude(n) % magnitude(d);
    let m: int = if 2 * r >= magnitude(d) { q as int + 1 } else { q as int };
    if (n < 0) != (d < 0) { -m } else { m }
}

/// The magnitude of an `i128`, which always fits `u128`.
fn magnitude_u128(n: i128) -> (r: u128)
    ensures
        r == magnitude(n as int),
        r <= 0x8000_0000_0000_0000_0000_0000_0000_0000u128,
{
    if n < 0 {
        ((-(n + 1)) as u128) + 1
    } else {
        n as u128
    }
}

/// Division rounded half away from zero, for a divisor of either sign;
/// `None` when the quotient leaves `i128`.
pub fn div_round_half_away_signed(n: i128, d: i128) -> (r: Option<i128>)
    requires
        d != 0,
    ensures
        match r {
            Some(v) => v == rounded_quotient(n as int, d as int),
            None => !fits(rounded_quotient(n as int, d as int)),
        },
{
    let mn = magnitude_u128(n);
    let md = magnitude_u128(d);
    let q = mn / md;
    let rem = mn % md;
    proof {
        assert(q * md + rem == mn && rem < md && q <= mn) by (nonlinear_arith)
            requires
                q == mn / md,
                rem == mn % md,
                md >= 1,
        ;
        if md >= 2 {
            assert(2 * q <= mn) by (nonlinear_arith)
                requires
                    q == mn / md,
                    md >= 2,
            ;
        }
    }
    let m: u128 = if rem >= md - rem {
        if md == 1 {
            assert(false);
        }
        q + 1
    } else {
        q
    };
    assert(m <= 0x8000_0000_0000_0000_0000_0000_0000_0000u128);
    if (n < 0) != (d < 0) {
        if m == 0x8000_0000_0000_0000_0000_0000_0000_0000u128 {
            Some(i128::MIN)
        } else {
            Some(-(m as i128))
        }
    } else if m > 0x7fff_ffff_ffff_ffff_ffff_ffff_ffff_ffffu128 {
        None
    } else {
        Some(m as i128)
    }
}

/// A DECIMAL operand: `units` divided by ten to the `scale`.
#[derive(Clone, Copy, Debug, PartialEq, Eq, Structural)]
pub struct DecimalUnits {
    pub units: i128,
    pub scale: u8,
}

/// Units re-expressed at a scale no smaller than their own, exactly;
/// `None` for a smaller target or when the units leave `i128`.
pub open spec fn rescaled(units: int, scale: nat, target: nat) -> Option<int> {
    if scale <= target {
        units_at_scale(units, (target - scale) as nat)
    } else {
        None
    }
}

/// Aligns units to a larger scale.
fn rescale(units: i128, scale: u8, target: u8) -> (r: Option<i128>)
    ensures
        r matches Some(v) ==> rescaled(units as int, scale as nat, target as nat) == Some(v as int),
        r is None ==> rescaled(units as int, scale as nat, target as nat) is None,
{
    if scale <= target {
        decimal_units_from_i128(units, target - scale)
    } else {
        None
    }
}

/// The scale of a product: the operands' scales added, at most 255.
pub open spec fn product_scale(left: u8, right: u8) -> nat {
    if left + right > 255 {
        255
    } else {
        (left + right) as nat
    }
}

/// The units at `target` scale of `left op right` for `+`, `-` or `*`
/// (any operator but `+` and `*` subtracts); `None` on overflow or where an
/// operand of a sum carries more digits than the target. A product whose
/// scale exceeds the target is rounded half away from zero.
pub open spec fn add_sub_mul_units(op: BinaryOp, left: DecimalUnits, right: DecimalUnits, target: nat) -> Option<int> {
    if op == BinaryOp::Multiply {
        let natural = product_scale(left.scale, right.scale);
        let product = left.units * right.units;
        if !fits(product) {
            None
        } else if natural <= target {
            units_at_scale(product, (target - natural) as nat)
        } else if !fits(ten_pow((natural - target) as nat)) {
            None
        } else {
            Some(round_half_away(product, ten_pow((natural - target) as nat)))
        }
    } else {
        match (
            rescaled(left.units as int, left.scale as nat, target),
            rescaled(right.units as int, right.scale as nat, target),
        ) {
            (Some(a), Some(b)) => {
                let s = if op == BinaryOp::Add { a + b } else { a - b };
                if fits(s) { Some(s) } else { None }
            },
            _ => None,
        }
    }
}

/// Rounding a fitting product by a positive power of ten fits.
proof fn lemma_round_fits(n: int, d: int)
    requires
        fits(n),
        d >= 1,
    ensures
        fits(round_half_away(n, d)),
{
    lemma_trunc_bounds(n, d);
}

/// Exact DECIMAL addition, subtraction and multiplication at the target
/// scale: the text of the result's units, or `NumericOverflow` where
/// `add_sub_mul_units` has none.
pub fn decimal_add_sub_mul(op: BinaryOp, left: DecimalUnits, right: DecimalUnits, target: u8) -> (r: Result<String, ExecError>)
    requires
        target <= 38,
    ensures
        match add_sub_mul_units(op, left, right, target as nat) {
            Some(u) => r matches Ok(text) && text@ == scaled_text(u, target as nat),
            None => r == Err::<String, ExecError>(ExecError::NumericOverflow),
        },
{
    let exact: Option<i128> = if op == BinaryOp::Multiply {
        let natural = left.scale.saturating_add(right.scale);
        assert(natural as nat == product_scale(left.scale, right.scale));
        match left.units.checked_mul(right.units) {
            None => None,
            Some(product) => {
                if natural <= target {
                    decimal_units_from_i128(product, target - natural)
                } else {
                    match checked_ten_pow(natural - target) {
                        None => None,
                        Some(factor) => {
                            proof {
                                lemma_ten_pow_positive((natural - target) as nat);
                                lemma_round_fits(product as int, factor as int);
                            }
                            Some(div_round_half_away(product, factor))
                        },
                    }
                }
            },
        }
    } else {
        match (rescale(left.units, left.scale, target), rescale(right.units, right.scale, target)) {
            (Some(a), Some(b)) => if op == BinaryOp::Add {
                a.checked_add(b)
            } else {
                a.checked_sub(b)
            },
            _ => None,
        }
    };
    match exact {
        Some(units) => Ok(format_decimal_scaled(units, target)),
        None => Err(ExecError::NumericOverflow),
    }
}

/// No power of ten beyond the 38th fits `i128`.
proof fn lemma_ten_pow_limit(e: nat)
    requires
        e > 38,
    ensures
        !fits(ten_pow(e)),
        ten_pow(e) > 0x8000_0000_0000_0000_0000_0000_0000_0000,
{
    reveal_with_fuel(ten_pow, 40);
    assert(ten_pow(39) == 1_000_000_000_000_000_000_000_000_000_000_000_000_000);
    if e > 39 {
        lemma_ten_pow_grows(39, e);
    }
}

/// The units at `target` scale of `left / right`, rounded half away from
/// zero: `Some(None)` (SQL NULL) for a zero divisor, `None` when the
/// dividend cannot be aligned (the target plus the divisor's scale below
/// the dividend's scale) or a value leaves `i128`.
pub open spec fn divide_units(left: DecimalUnits, right: DecimalUnits, target: nat) -> Option<Option<int>> {
    if right.units == 0 {
        Some(None)
    } else if target + right.scale < left.scale {
        None
    } else {
        let e = (target + right.scale - left.scale) as nat;
        let numerator = left.units * ten_pow(e);
        if !fits(ten_pow(e)) || !fits(numerator) {
            None
        } else if !fits(rounded_quotient(numerator, right.units as int)) {
            None
        } else {
            Some(Some(rounded_quotient(numerator, right.units as int)))
        }
    }
}

/// DECIMAL division at the target scale, rounded half away from zero.
pub fn divide_decimal(left: DecimalUnits, right: DecimalUnits, target: u8) -> (r: Result<Option<String>, ExecError>)
    requires
        target <= 38,
    ensures
        match divide_units(left, right, target as nat) {
            Some(Some(u)) => r matches Ok(Some(text)) && text@ == scaled_text(u, target as nat),
            Some(None) => r == Ok::<Option<String>, ExecError>(None),
            None => r == Err::<Option<String>, ExecError>(ExecError::NumericOverflow),
        },
{
    if right.units == 0 {
        return Ok(None);
    }
    let sum: u32 = target as u32 + right.scale as u32;
    if sum < left.scale as u32 {
        return Err(ExecError::NumericOverflow);
    }
    let exponent: u32 = sum - left.scale as u32;
    if exponent > 38 {
        proof {
            lemma_ten_pow_limit(exponent as nat);
        }
        return Err(ExecError::NumericOverflow);
    }
    let factor = match checked_ten_pow(exponent as u8) {
        Some(f) => f,
        None => return Err(ExecError::NumericOverflow),
    };
    let numerator = match left.units.checked_mul(factor) {
        Some(n) => n,
        None => return Err(ExecError::NumericOverflow),
    };
    match div_round_half_away_signed(numerator, right.units) {
        Some(units) => Ok(Some(format_decimal_scaled(units, target))),
        None => Err(ExecError::NumericOverflow),
    }
}

/// The remainder of truncated division, of the dividend's sign.
pub open spec fn trunc_rem(a: int, b: int) -> int {
    let m = magnitude(a) % magnitude(b);
    if a < 0 { -m } else { m as int }
}

/// The units at `target` scale of `left % right`: `Some(None)` (SQL NULL)
/// for a zero divisor; `None` where an operand carries more digits than the
/// target, an alignment overflows, or the remainder is that of `i128::MIN`
/// by -1, which overflows in `i128`.
pub open spec fn modulo_units(left: DecimalUnits, right: DecimalUnits, target: nat) -> Option<Option<int>> {
    if right.units == 0 {
        Some(None)
    } else {
        match (
            rescaled(left.units as int, left.scale as nat, target),
            rescaled(right.units as int, right.scale as nat, target),
        ) {
            (Some(a), Some(b)) => if a == i128::MIN && b == -1 {
                None
            } else {
                Some(Some(trunc_rem(a, b)))
            },
            _ => None,
        }
    }
}

/// The exact remainder of DECIMAL operands aligned to the target scale.
pub fn decimal_modulo(left: DecimalUnits, right: DecimalUnits, target: u8) -> (r: Result<Option<String>, ExecError>)
    requires
        target <= 38,
    ensures
        match modulo_units(left, right, target as nat) {
            Some(Some(u)) => r matches Ok(Some(text)) && text@ == scaled_text(u, target as nat),
            Some(None) => r == Ok::<Option<String>, ExecError>(None),
            None => r == Err::<Option<String>, ExecError>(ExecError::NumericOverflow),
        },
{
    if right.units == 0 {
        return Ok(None);
    }
    let a = match rescale(left.units, left.scale, target) {
        Some(v) => v,
        None => return Err(ExecError::NumericOverflow),
    };
    let b = match rescale(right.units, right.scale, target) {
        Some(v) => v,
        None => return Err(ExecError::NumericOverflow),
    };
    if a == i128::MIN && b == -1 {
        return Err(ExecError::NumericOverflow);
    }
    proof {
        if b == 0 {
            lemma_ten_pow_positive((target - right.scale) as nat);
            assert(right.units * ten_pow((target - right.scale) as nat) != 0) by (nonlinear_arith)
                requires
                    right.units != 0,
                    ten_pow((target - right.scale) as nat) >= 1,
            ;
        }
    }
    let ma = magnitude_u128(a);
    let mb = magnitude_u128(b);
    let m = ma % mb;
    assert(m < mb);
    let units: i128 = if a < 0 { -(m as i128) } else { m as i128 };
    Ok(Some(format_decimal_scaled(units, target)))
}

/// Powers of ten multiply by adding exponents.
proof fn lemma_ten_pow_add(a: nat, b: nat)
    ensures
        ten_pow(a + b) == ten_pow(a) * ten_pow(b),
    decreases b,
{
    if b > 0 {
        lemma_ten_pow_add(a, (b - 1) as nat);
        assert(ten_pow(a + b) == 10 * ten_pow((a + b - 1) as nat));
        assert(ten_pow(b) == 10 * ten_pow((b - 1) as nat));
        assert(10 * (ten_pow(a) * ten_pow((b - 1) as nat)) == ten_pow(a) * (10 * ten_pow(
            (b - 1) as nat,
        ))) by (nonlinear_arith);
    }
}

/// Exactly the powers of ten up to the 38th fit `i128`.
proof fn lemma_ten_pow_fits(e: nat)
    ensures
        fits(ten_pow(e)) <==> e <= 38,
{
    if e > 38 {
        lemma_ten_pow_limit(e);
    } else {
        reveal_with_fuel(ten_pow, 40);
        assert(ten_pow(38) == 100_000_000_000_000_000_000_000_000_000_000_000_000);
        if e < 38 {
            lemma_ten_pow_grows(e, 38);
        }
        lemma_ten_pow_positive(e);
    }
}

/// Where aligning `units` up by `k` digits overflows, the aligned value
/// lies beyond every `i128` on the side of the units' sign.
proof fn lemma_overflow_side(units: int, k: nat, other: int)
    requires
        fits(units),
        fits(other),
        units != 0,
        !fits(ten_pow(k)) || !fits(units * ten_pow(k)),
    ensures
        sign_of(units * ten_pow(k) - other) == sign_of(units),
{
    lemma_ten_pow_positive(k);
    let p = ten_pow(k);
    if !fits(p) {
        lemma_ten_pow_fits(k);
        lemma_ten_pow_limit(k);
        if units > 0 {
            assert(units * p >= p) by (nonlinear_arith)
                requires
                    units >= 1,
                    p >= 1,
            ;
        } else {
            assert(units * p <= -p) by (nonlinear_arith)
                requires
                    units <= -1,
                    p >= 1,
            ;
        }
    } else {
        if units > 0 {
            assert(units * p > 0) by (nonlinear_arith)
                requires
                    units >= 1,
                    p >= 1,
            ;
        } else {
            assert(units * p < 0) by (nonlinear_arith)
                requires
                    units <= -1,
                    p >= 1,
            ;
        }
    }
}

/// Scaling a difference by a positive power keeps its sign.
proof fn lemma_sign_scaled(x: int, p: int)
    requires
        p >= 1,
    ensures
        sign_of(x * p) == sign_of(x),
{
    if x > 0 {
        assert(x * p > 0) by (nonlinear_arith)
            requires
                x > 0,
                p >= 1,
        ;
    } else if x < 0 {
        assert(x * p < 0) by (nonlinear_arith)
            requires
                x < 0,
                p >= 1,
        ;
    }
}

/// The exact order of two DECIMAL values, as the sign of the difference
/// of their cross-scaled units.
pub open spec fn decimal_order(left: DecimalUnits, right: DecimalUnits) -> int {
    sign_of(left.units * ten_pow(right.scale as nat) - right.units * ten_pow(left.scale as nat))
}

/// Aligning `left` up to `right`'s larger scale, the difference is the
/// cross-scaled difference divided by the smaller power.
proof fn lemma_aligned_difference(left: DecimalUnits, right: DecimalUnits, aligned_left: int)
    requires
        left.scale <= right.scale,
        aligned_left == left.units * ten_pow((right.scale - left.scale) as nat),
    ensures
        left.units * ten_pow(right.scale as nat) - right.units * ten_pow(left.scale as nat) == (
        aligned_left - right.units) * ten_pow(left.scale as nat),
{
    let k = (right.scale - left.scale) as nat;
    lemma_ten_pow_add(left.scale as nat, k);
    assert(left.scale as nat + k == right.scale as nat);
    let pl = ten_pow(left.scale as nat);
    let pk = ten_pow(k);
    assert(left.units * (pl * pk) - right.units * pl == (left.units * pk - right.units) * pl)
        by (nonlinear_arith);
}

/// The sign of `left - right` for two DECIMAL operands, exactly.
fn decimal_difference_sign(left: DecimalUnits, right: DecimalUnits) -> (r: i8)
    ensures
        r as int == decimal_order(left, right),
{
    proof {
        lemma_ten_pow_positive(left.scale as nat);
        lemma_ten_pow_positive(right.scale as nat);
    }
    if left.scale <= right.scale {
        let aligned = rescale(left.units, left.scale, right.scale);
        match aligned {
            Some(x) => {
                proof {
                    lemma_aligned_difference(left, right, x as int);
                    lemma_sign_scaled(x - right.units, ten_pow(left.scale as nat));
                }
                if x < right.units {
                    -1
                } else if x == right.units {
                    0
                } else {
                    1
                }
            },
            None => {
                let ghost k = (right.scale - left.scale) as nat;
                proof {
                    lemma_aligned_difference(left, right, left.units * ten_pow(k));
                    lemma_sign_scaled(left.units * ten_pow(k) - right.units, ten_pow(left.scale as nat));
                }
                if left.units == 0 {
                    assert(left.units * ten_pow(k) == 0) by (nonlinear_arith)
                        requires
                            left.units == 0,
                    ;
                    if right.units > 0 {
                        -1
                    } else if right.units == 0 {
                        0
                    } else {
                        1
                    }
                } else {
                    proof {
                        lemma_overflow_side(left.units as int, k, right.units as int);
                    }
                    if left.units > 0 {
                        1
                    } else {
                        -1
                    }
                }
            },
        }
    } else {
        let aligned = rescale(right.units, right.scale, left.scale);
        let swapped = DecimalUnits { units: right.units, scale: right.scale };
        let flipped = DecimalUnits { units: left.units, scale: left.scale };
        match aligned {
            Some(y) => {
                proof {
                    lemma_aligned_difference(swapped, flipped, y as int);
                    lemma_sign_scaled(y - left.units, ten_pow(right.scale as nat));
                }
                if left.units < y {
                    -1
                } else if left.units == y {
                    0
                } else {
                    1
                }
            },
            None => {
                let ghost k = (left.scale - right.scale) as nat;
                proof {
                    lemma_aligned_difference(swapped, flipped, right.units * ten_pow(k));
                    lemma_sign_scaled(right.units * ten_pow(k) - left.units, ten_pow(right.scale as nat));
                }
                if right.units == 0 {
                    assert(right.units * ten_pow(k) == 0) by (nonlinear_arith)
                        requires
                            right.units == 0,
                    ;
                    if left.units > 0 {
                        1
                    } else if left.units == 0 {
                        0
                    } else {
                        -1
                    }
                } else {
                    proof {
                        lemma_overflow_side(right.units as int, k, left.units as int);
                    }
                    if right.units > 0 {
                        -1
                    } else {
                        1
                    }
                }
            },
        }
    }
}

/// Orders two DECIMAL operands exactly, whatever their scales, without a
/// detour through floating point.
pub fn compare_decimal_values(left: DecimalUnits, right: DecimalUnits) -> (r: Ordering)
    ensures
        ordering_sign(r) == decimal_order(left, right),
{
    let sign = decimal_difference_sign(left, right);
    if sign < 0 {
        Ordering::Less
    } else if sign == 0 {
        Ordering::Equal
    } else {
        Ordering::Greater
    }
}

/// An integer-family scalar as DECIMAL units at scale 0; `None` for NULL.
pub open spec fn units_of(value: IntegerValue) -> Option<DecimalUnits> {
    match value {
        IntegerValue::Null => None,
        IntegerValue::Boolean(b) => Some(DecimalUnits { units: if b { 1 } else { 0 }, scale: 0 }),
        IntegerValue::Int64(x) => Some(DecimalUnits { units: x as i128, scale: 0 }),
        IntegerValue::UInt64(x) => Some(DecimalUnits { units: x as i128, scale: 0 }),
    }
}

/// Splits an integer-family scalar into DECIMAL units: integers carry
/// scale 0.
pub fn decimal_units_of(value: &IntegerValue) -> (r: Option<DecimalUnits>)
    ensures
        r == units_of(*value),
{
    match value {
        IntegerValue::Null => None,
        IntegerValue::Boolean(b) => Some(DecimalUnits { units: if *b { 1 } else { 0 }, scale: 0 }),
        IntegerValue::Int64(x) => Some(DecimalUnits { units: *x as i128, scale: 0 }),
        IntegerValue::UInt64(x) => Some(DecimalUnits { units: *x as i128, scale: 0 }),
    }
}

/// A sum or difference that succeeds is exact: its units at the target
/// scale stand for the operands' values added or subtracted, with nothing
/// rounded (written cross-multiplied by both operands' powers of ten).
pub proof fn law_fixed_add_sub_exact(op: BinaryOp, left: DecimalUnits, right: DecimalUnits, target: nat, units: int)
    requires
        op != BinaryOp::Multiply,
        add_sub_mul_units(op, left, right, target) == Some(units),
    ensures
        units * ten_pow(left.scale as nat) * ten_pow(right.scale as nat) == (if op == BinaryOp::Add {
            left.units * ten_pow(right.scale as nat) + right.units * ten_pow(left.scale as nat)
        } else {
            left.units * ten_pow(right.scale as nat) - right.units * ten_pow(left.scale as nat)
        }) * ten_pow(target),
{
    let ls = left.scale as nat;
    let rs = right.scale as nat;
    let kl = (target - ls) as nat;
    let kr = (target - rs) as nat;
    lemma_ten_pow_add(kl, ls);
    lemma_ten_pow_add(kr, rs);
    assert(kl + ls == target && kr + rs == target);
    let a = left.units * ten_pow(kl);
    let b = right.units * ten_pow(kr);
    let pl = ten_pow(ls);
    let pr = ten_pow(rs);
    let pt = ten_pow(target);
    assert(a * pl * pr == left.units * pr * pt) by (nonlinear_arith)
        requires
            a == left.units * ten_pow(kl),
            pt == ten_pow(kl) * pl,
    ;
    assert(b * pl * pr == right.units * pl * pt) by (nonlinear_arith)
        requires
            b == right.units * ten_pow(kr),
            pt == ten_pow(kr) * pr,
    ;
    if op == BinaryOp::Add {
        assert(units == a + b);
        assert((a + b) * pl * pr == a * pl * pr + b * pl * pr) by (nonlinear_arith);
        assert((left.units * pr + right.units * pl) * pt == left.units * pr * pt + right.units * pl * pt)
            by (nonlinear_arith);
    } else {
        assert(units == a - b);
        assert((a - b) * pl * pr == a * pl * pr - b * pl * pr) by (nonlinear_arith);
        assert((left.units * pr - right.units * pl) * pt == left.units * pr * pt - right.units * pl * pt)
            by (nonlinear_arith);
    }
}

/// A product whose scale the target holds is exact.
pub proof fn law_fixed_multiply_exact(left: DecimalUnits, right: DecimalUnits, target: nat, units: int)
    requires
        left.scale + right.scale <= target,
        left.scale + right.scale <= 255,
        add_sub_mul_units(BinaryOp::Multiply, left, right, target) == Some(units),
    ensures
        units * ten_pow(left.scale as nat) * ten_pow(right.scale as nat) == left.units * right.units
            * ten_pow(target),
{
    let ls = left.scale as nat;
    let rs = right.scale as nat;
    let natural = (ls + rs) as nat;
    let k = (target - natural) as nat;
    lemma_ten_pow_add(ls, rs);
    lemma_ten_pow_add(k, natural);
    assert(k + natural == target);
    let p = left.units * right.units;
    assert(units == p * ten_pow(k));
    assert(p * ten_pow(k) * ten_pow(ls) * ten_pow(rs) == p * (ten_pow(k) * (ten_pow(ls) * ten_pow(rs))))
        by (nonlinear_arith);
}

/// Rounding half away from zero lands on a nearest multiple: the rounded
/// quotient times the divisor is within half the divisor of the dividend.
proof fn lemma_round_nearest(n: int, d: int)
    requires
        d >= 1,
    ensures
        2 * magnitude(round_half_away(n, d) * d - n) <= d,
{
    lemma_trunc_bounds(n, d);
    let q = crate::decimal::trunc_div(n, d);
    let r = n - q * d;
    let v = round_half_away(n, d);
    if 2 * magnitude(r) >= d {
        if n < 0 {
            assert(v * d - n == -d - r) by (nonlinear_arith)
                requires
                    v == q - 1,
                    r == n - q * d,
            ;
        } else {
            assert(v * d - n == d - r) by (nonlinear_arith)
                requires
                    v == q + 1,
                    r == n - q * d,
            ;
        }
    } else {
        assert(v * d - n == -r) by (nonlinear_arith)
            requires
                v == q,
                r == n - q * d,
        ;
    }
}

/// A product whose scale exceeds the target is rounded to the nearest
/// unit at the target, ties away from zero: its units scaled back differ
/// from the exact product by at most half a unit.
pub proof fn law_fixed_multiply_rounded(left: DecimalUnits, right: DecimalUnits, target: nat, units: int)
    requires
        left.scale + right.scale <= 255,
        left.scale + right.scale > target,
        add_sub_mul_units(BinaryOp::Multiply, left, right, target) == Some(units),
    ensures
        2 * magnitude(units * ten_pow((left.scale + right.scale - target) as nat) - left.units
            * right.units) <= ten_pow((left.scale + right.scale - target) as nat),
{
    let d = ten_pow((left.scale + right.scale - target) as nat);
    lemma_ten_pow_positive((left.scale + right.scale - target) as nat);
    lemma_round_nearest(left.units * right.units, d);
}

/// A quotient is the nearest unit at the target scale: the units times
/// the divisor lie within half the divisor of the aligned dividend.
pub proof fn law_divide_nearest(left: DecimalUnits, right: DecimalUnits, target: nat, units: int)
    requires
        divide_units(left, right, target) == Some(Some(units)),
    ensures
        2 * magnitude(units * right.units - left.units * ten_pow(
            (target + right.scale - left.scale) as nat,
        )) <= magnitude(right.units as int),
{
    let n = left.units * ten_pow((target + right.scale - left.scale) as nat);
    let d = right.units as int;
    let mn = magnitude(n);
    let md = magnitude(d);
    let q = mn / md;
    let r = mn % md;
    assert(q * md + r == mn && 0 <= r < md) by (nonlinear_arith)
        requires
            q == mn / md,
            r == mn % md,
            md >= 1,
    ;
    let m: int = if 2 * r >= md { q as int + 1 } else { q as int };
    assert(m * md - mn == if 2 * r >= md { md - r } else { -r }) by (nonlinear_arith)
        requires
            q * md + r == mn,
            m == if 2 * r >= md { q as int + 1 } else { q as int },
    ;
    assert(2 * magnitude(m * md - mn) <= md);
    assert(units == rounded_quotient(n, d));
    let e = m * md - mn;
    if n < 0 && d > 0 {
        assert(units * d - n == -e) by (nonlinear_arith)
            requires
                units == -m,
                d == md,
                n == -mn,
                e == m * md - mn,
        ;
    } else if n >= 0 && d < 0 {
        assert(units * d - n == e) by (nonlinear_arith)
            requires
                units == -m,
                d == -md,
                n == mn,
                e == m * md - mn,
        ;
    } else if n < 0 && d < 0 {
        assert(units * d - n == -e) by (nonlinear_arith)
            requires
                units == m,
                d == -md,
                n == -mn,
                e == m * md - mn,
        ;
    } else {
        assert(units * d - n == e) by (nonlinear_arith)
            requires
                units == m,
                d == md,
                n == mn,
                e == m * md - mn,
        ;
    }
}

/// Exchanging the operands reverses the order.
pub proof fn law_decimal_order_antisymmetric(left: DecimalUnits, right: DecimalUnits)
    ensures
        decimal_order(left, right) == -decimal_order(right, left),
{
}

/// The order reads values, not representations: units carrying trailing
/// zeros at a larger scale compare equal to the units without them (so
/// `1.50` equals `1.5`).
pub proof fn law_decimal_order_scale_free(units: i128, scale: u8, extra: u8)
    requires
        scale + extra <= 255,
        fits(units * ten_pow(extra as nat)),
    ensures
        decimal_order(
            DecimalUnits { units: (units * ten_pow(extra as nat)) as i128, scale: (scale + extra) as u8 },
            DecimalUnits { units, scale },
        ) == 0,
{
    lemma_ten_pow_add(extra as nat, scale as nat);
    assert(units * ten_pow(extra as nat) * ten_pow(scale as nat) == units * (ten_pow(extra as nat)
        * ten_pow(scale as nat))) by (nonlinear_arith);
}

/// The quotient of `units` by a positive `factor`, rounded toward minus
/// infinity (`ceiling` false) or plus infinity (`ceiling` true).
pub open spec fn bound_quotient(units: int, factor: int, ceiling: bool) -> int {
    let q = crate::decimal::trunc_div(units, factor);
    if q * factor != units && ceiling && units > 0 {
        q + 1
    } else if q * factor != units && !ceiling && units < 0 {
        q - 1
    } else {
        q
    }
}

/// `CEIL` or `FLOOR` of a DECIMAL's units at `scale` as a signed integer:
/// the whole part, moved up or down where a fraction remains; `None` when
/// the scale's power of ten or the result leaves its type.
pub open spec fn decimal_bound_of(units: int, scale: nat, ceiling: bool) -> Option<int> {
    if !fits(ten_pow(scale)) {
        None
    } else {
        let b = bound_quotient(units, ten_pow(scale), ceiling);
        if i64::MIN <= b <= i64::MAX { Some(b) } else { None }
    }
}

/// `CEIL` or `FLOOR` of DECIMAL units.
pub fn decimal_bound(units: i128, scale: u8, ceiling: bool) -> (r: Option<i64>)
    ensures
        r matches Some(v) ==> decimal_bound_of(units as int, scale as nat, ceiling) == Some(v as int),
        r is None ==> decimal_bound_of(units as int, scale as nat, ceiling) is None,
{
    let factor = match checked_ten_pow(scale) {
        Some(f) => f,
        None => return None,
    };
    proof {
        lemma_ten_pow_positive(scale as nat);
        lemma_trunc_bounds(units as int, factor as int);
    }
    let q = units / factor;
    assert(q == crate::decimal::trunc_div(units as int, factor as int));
    let exact = q * factor == units;
    let whole: i128 = if !exact && ceiling && units > 0 {
        q + 1
    } else if !exact && !ceiling && units < 0 {
        q - 1
    } else {
        q
    };
    if whole < -0x8000_0000_0000_0000i128 || whole > 0x7fff_ffff_ffff_ffffi128 {
        None
    } else {
        Some(whole as i64)
    }
}

/// Two bounds bracket the value: `FLOOR(x) <= x <= CEIL(x)`, written on
/// the units, and they differ by at most one.
pub proof fn law_decimal_bounds_bracket(units: int, factor: int)
    requires
        factor >= 1,
    ensures
        bound_quotient(units, factor, false) * factor <= units,
        units <= bound_quotient(units, factor, true) * factor,
        0 <= bound_quotient(units, factor, true) - bound_quotient(units, factor, false) <= 1,
{
    lemma_trunc_bounds(units, factor);
    let q = crate::decimal::trunc_div(units, factor);
    assert((q + 1) * factor == q * factor + factor && (q - 1) * factor == q * factor - factor)
        by (nonlinear_arith);
}

/// An integer-family scalar cast to DECIMAL at `scale`: its canonical text,
/// NULL for NULL, `NumericOverflow` when the units leave `i128`.
pub open spec fn cast_decimal_units(value: IntegerValue, scale: nat) -> Option<Option<int>> {
    match units_of(value) {
        None => Some(None),
        Some(u) => match units_at_scale(u.units as int, scale) {
            Some(v) => Some(Some(v)),
            None => None,
        },
    }
}

/// `CAST(value AS DECIMAL(p, scale))` of an integer-family scalar.
pub fn cast_decimal(value: &IntegerValue, scale: u8) -> (r: Result<Option<String>, ExecError>)
    requires
        scale <= 38,
    ensures
        match cast_decimal_units(*value, scale as nat) {
            Some(Some(u)) => r matches Ok(Some(text)) && text@ == scaled_text(u, scale as nat),
            Some(None) => r == Ok::<Option<String>, ExecError>(None),
            None => r == Err::<Option<String>, ExecError>(ExecError::NumericOverflow),
        },
{
    let units = match decimal_units_of(value) {
        None => return Ok(None),
        Some(u) => u,
    };
    match decimal_units_from_i128(units.units, scale) {
        Some(v) => Ok(Some(format_decimal_scaled(v, scale))),
        None => Err(ExecError::NumericOverflow),
    }
}

/// The whole part of decimal text: everything before its last `.`.
pub open spec fn whole_part(t: Seq<char>) -> Seq<char> {
    match last_index(t, '.') {
        Some(i) => t.take(i),
        None => t,
    }
}

/// Whether the fraction after the last `.` has a digit other than `0`.
pub open spec fn has_fraction(t: Seq<char>) -> bool {
    match last_index(t, '.') {
        Some(i) => exists|j: int| i < j < t.len() && t[j] != '0',
        None => false,
    }
}

/// `CEIL` (`ceiling`) or `FLOOR` of canonical decimal text: the whole part
/// read as a signed integer, moved away from zero's side by one where a
/// fraction remains; `NumericOverflow` for a whole part that is no `i64`
/// or a bound beyond `i64`.
pub open spec fn integer_bound_of(t: Seq<char>, ceiling: bool) -> Result<int, ExecError> {
    match i64_text(whole_part(t)) {
        None => Err(ExecError::NumericOverflow),
        Some(v) => {
            let negative = t.len() > 0 && t[0] == '-';
            let b = if has_fraction(t) && ceiling && !negative {
                v + 1
            } else if has_fraction(t) && !ceiling && negative {
                v - 1
            } else {
                v
            };
            if i64::MIN <= b <= i64::MAX {
                Ok(b)
            } else {
                Err(ExecError::NumericOverflow)
            }
        },
    }
}

/// `CEIL` or `FLOOR` of canonical decimal text as a signed integer.
pub fn decimal_integer_bound(text: &str, ceiling: bool) -> (r: Result<i64, ExecError>)
    ensures
        match r {
            Ok(v) => integer_bound_of(text@, ceiling) == Ok::<int, ExecError>(v as int),
            Err(e) => integer_bound_of(text@, ceiling) == Err::<int, ExecError>(e),
        },
{
    let chars = chars_of(text);
    let (whole, fraction_start) = match rfind_char(chars.as_slice(), '.') {
        Some(i) => (slice_chars(chars.as_slice(), 0, i), i + 1),
        None => (slice_chars(chars.as_slice(), 0, chars.len()), chars.len()),
    };
    assert(whole@ =~= whole_part(chars@));
    let mut fraction = false;
    let mut k = fraction_start;
    while k < chars.len()
        invariant
            fraction_start <= k <= chars@.len(),
            chars@ == text@,
            last_index(chars@, '.') matches Some(i) ==> fraction_start == i + 1,
            last_index(chars@, '.') is None ==> fraction_start == chars@.len(),
            fraction <==> exists|j: int| fraction_start <= j < k && chars@[j] != '0',
        decreases chars@.len() - k,
    {
        if chars[k] != '0' {
            fraction = true;
        }
        k = k + 1;
    }
    assert(fraction == has_fraction(chars@));
    let integer = match parse_i64(whole.as_slice()) {
        Some(v) => v,
        None => return Err(ExecError::NumericOverflow),
    };
    if fraction {
        let negative = chars.len() > 0 && chars[0] == '-';
        if ceiling && !negative {
            if integer == i64::MAX {
                return Err(ExecError::NumericOverflow);
            }
            return Ok(integer + 1);
        }
        if !ceiling && negative {
            if integer == i64::MIN {
                return Err(ExecError::NumericOverflow);
            }
            return Ok(integer - 1);
        }
    }
    Ok(integer)
}

} // verus!
