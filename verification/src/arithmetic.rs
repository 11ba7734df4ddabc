//! SQL arithmetic over the integer family of scalars at a declared result
//! type: checked signed and unsigned 64-bit integer arithmetic, where an
//! overflow is an error and a division by zero is NULL, and DECIMAL
//! arithmetic on scaled units.
use crate::chars::{chars_of, decimal, string_of};
use crate::compare::{truth_of, BinaryOp, IntegerValue};
use crate::decimal::{format_decimal_scaled, magnitude, scaled_text, ExecError};
use crate::fixed_point::{
    add_sub_mul_units, decimal_add_sub_mul, decimal_modulo, decimal_units_of, divide_decimal,
    divide_units, modulo_units, trunc_rem, units_of,
};
use vstd::prelude::*;

verus! {

/// The declared type of an arithmetic result (doubles aside).
#[derive(Clone, Copy, Debug, PartialEq, Eq, Structural)]
pub enum NumericType {
    Int64,
    UInt64,
    Decimal { scale: u8 },
    Boolean,
    Utf8,
    Binary,
}

/// The value of an arithmetic expression.
#[derive(Debug, PartialEq, Eq)]
pub enum ArithmeticValue {
    Null,
    Int64(i64),
    UInt64(u64),
    Boolean(bool),
    /// Canonical decimal text.
    Decimal(String),
}

/// A scalar read as an unsigned 64-bit integer: NULL has no number, and a
/// negative one does not fit.
pub open spec fn unsigned_of(v: IntegerValue) -> Result<int, ExecError> {
    match v {
        IntegerValue::Null => Err(ExecError::InvalidExpressionType),
        IntegerValue::Boolean(b) => Ok(if b { 1 } else { 0 }),
        IntegerValue::Int64(x) => if x < 0 {
            Err(ExecError::NumericOverflow)
        } else {
            Ok(x as int)
        },
        IntegerValue::UInt64(x) => Ok(x as int),
    }
}

/// A scalar read as a signed 64-bit integer: NULL has no number, and an
/// unsigned one above `i64::MAX` does not fit.
pub open spec fn signed_of(v: IntegerValue) -> Result<int, ExecError> {
    match v {
        IntegerValue::Null => Err(ExecError::InvalidExpressionType),
        IntegerValue::Boolean(b) => Ok(if b { 1 } else { 0 }),
        IntegerValue::Int64(x) => Ok(x as int),
        IntegerValue::UInt64(x) => if x > i64::MAX {
            Err(ExecError::NumericOverflow)
        } else {
            Ok(x as int)
        },
    }
}

/// Reads a scalar as `u64`.
pub fn mysql_u64(value: &IntegerValue) -> (r: Result<u64, ExecError>)
    ensures
        match r {
            Ok(x) => unsigned_of(*value) == Ok::<int, ExecError>(x as int),
            Err(e) => unsigned_of(*value) == Err::<int, ExecError>(e),
        },
{
    match value {
        IntegerValue::Null => Err(ExecError::InvalidExpressionType),
        IntegerValue::Boolean(b) => Ok(if *b { 1 } else { 0 }),
        IntegerValue::Int64(x) => if *x < 0 {
            Err(ExecError::NumericOverflow)
        } else {
            Ok(*x as u64)
        },
        IntegerValue::UInt64(x) => Ok(*x),
    }
}

/// Reads a scalar as `i64`.
pub fn mysql_i64(value: &IntegerValue) -> (r: Result<i64, ExecError>)
    ensures
        match r {
            Ok(x) => signed_of(*value) == Ok::<int, ExecError>(x as int),
            Err(e) => signed_of(*value) == Err::<int, ExecError>(e),
        },
{
    match value {
        IntegerValue::Null => Err(ExecError::InvalidExpressionType),
        IntegerValue::Boolean(b) => Ok(if *b { 1 } else { 0 }),
        IntegerValue::Int64(x) => Ok(*x),
        IntegerValue::UInt64(x) => if *x > 0x7fff_ffff_ffff_ffffu64 {
            Err(ExecError::NumericOverflow)
        } else {
            Ok(*x as i64)
        },
    }
}

/// The quotient of truncated division, toward zero.
pub open spec fn trunc_quotient(a: int, b: int) -> int {
    let m = magnitude(a) / magnitude(b);
    if (a < 0) != (b < 0) {
        -m
    } else {
        m as int
    }
}

/// `left op right` over integers that must land in `[min, max]`: `Ok(None)`
/// (SQL NULL) for `DIV`, `%` or `/` by zero; `NumericOverflow` for a result
/// outside the range, for `/` by anything else (integer types take no
/// fractional quotient), and for a non-arithmetic operator.
pub open spec fn integer_arithmetic(op: BinaryOp, l: int, r: int, min: int, max: int) -> Result<Option<int>, ExecError> {
    let ranged = |x: int|
        if min <= x <= max {
            Ok(Some(x))
        } else {
            Err(ExecError::NumericOverflow)
        };
    match op {
        BinaryOp::Add => ranged(l + r),
        BinaryOp::Subtract => ranged(l - r),
        BinaryOp::Multiply => ranged(l * r),
        BinaryOp::IntegerDivide => if r == 0 {
            Ok(None)
        } else {
            ranged(trunc_quotient(l, r))
        },
        BinaryOp::Modulo => if r == 0 {
            Ok(None)
        } else if !(min <= trunc_quotient(l, r) <= max) {
            Err(ExecError::NumericOverflow)
        } else {
            Ok(Some(trunc_rem(l, r)))
        },
        BinaryOp::Divide => if r == 0 {
            Ok(None)
        } else {
            Err(ExecError::NumericOverflow)
        },
        _ => Err(ExecError::NumericOverflow),
    }
}

/// Unsigned arithmetic with overflow checks.
fn unsigned_arithmetic(op: BinaryOp, left: u64, right: u64) -> (r: Result<Option<u64>, ExecError>)
    ensures
        match r {
            Ok(Some(x)) => integer_arithmetic(op, left as int, right as int, 0, u64::MAX as int) == Ok::<
                Option<int>,
                ExecError,
            >(Some(x as int)),
            Ok(None) => integer_arithmetic(op, left as int, right as int, 0, u64::MAX as int) == Ok::<
                Option<int>,
                ExecError,
            >(None),
            Err(e) => integer_arithmetic(op, left as int, right as int, 0, u64::MAX as int) == Err::<
                Option<int>,
                ExecError,
            >(e),
        },
{
    let result = match op {
        BinaryOp::Add => left.checked_add(right),
        BinaryOp::Subtract => left.checked_sub(right),
        BinaryOp::Multiply => left.checked_mul(right),
        BinaryOp::IntegerDivide => {
            if right == 0 {
                return Ok(None);
            }
            Some(left / right)
        },
        BinaryOp::Modulo => {
            if right == 0 {
                return Ok(None);
            }
            Some(left % right)
        },
        BinaryOp::Divide => {
            if right == 0 {
                return Ok(None);
            }
            None
        },
        _ => None,
    };
    match result {
        Some(x) => Ok(Some(x)),
        None => Err(ExecError::NumericOverflow),
    }
}

/// The magnitude of an `i64` as `u64`.
fn magnitude_u64(n: i64) -> (r: u64)
    ensures
        r == magnitude(n as int),
        r <= 0x8000_0000_0000_0000u64,
{
    if n < 0 {
        ((-(n + 1)) as u64) + 1
    } else {
        n as u64
    }
}

/// Signed arithmetic with overflow checks; division and remainder
/// truncate toward zero.
fn signed_arithmetic(op: BinaryOp, left: i64, right: i64) -> (r: Result<Option<i64>, ExecError>)
    ensures
        match r {
            Ok(Some(x)) => integer_arithmetic(op, left as int, right as int, i64::MIN as int, i64::MAX as int)
                == Ok::<Option<int>, ExecError>(Some(x as int)),
            Ok(None) => integer_arithmetic(op, left as int, right as int, i64::MIN as int, i64::MAX as int)
                == Ok::<Option<int>, ExecError>(None),
            Err(e) => integer_arithmetic(op, left as int, right as int, i64::MIN as int, i64::MAX as int)
                == Err::<Option<int>, ExecError>(e),
        },
{
    match op {
        BinaryOp::Add => match left.checked_add(right) {
            Some(x) => Ok(Some(x)),
            None => Err(ExecError::NumericOverflow),
        },
        BinaryOp::Subtract => match left.checked_sub(right) {
            Some(x) => Ok(Some(x)),
            None => Err(ExecError::NumericOverflow),
        },
        BinaryOp::Multiply => match left.checked_mul(right) {
            Some(x) => Ok(Some(x)),
            None => Err(ExecError::NumericOverflow),
        },
        BinaryOp::IntegerDivide | BinaryOp::Modulo => {
            if right == 0 {
                return Ok(None);
            }
            let ml = magnitude_u64(left);
            let mr = magnitude_u64(right);
            let q = ml / mr;
            let rem = ml % mr;
            assert(rem < mr);
            assert(q <= ml) by (nonlinear_arith)
                requires
                    q == ml / mr,
                    mr >= 1,
            ;
            let negative = (left < 0) != (right < 0);
            let fits = if negative {
                q <= 0x8000_0000_0000_0000u64
            } else {
                q <= 0x7fff_ffff_ffff_ffffu64
            };
            if !fits {
                return Err(ExecError::NumericOverflow);
            }
            if op == BinaryOp::IntegerDivide {
                if negative {
                    if q == 0x8000_0000_0000_0000u64 {
                        Ok(Some(i64::MIN))
                    } else {
                        Ok(Some(-(q as i64)))
                    }
                } else {
                    Ok(Some(q as i64))
                }
            } else {
                if left < 0 {
                    Ok(Some(-(rem as i64)))
                } else {
                    Ok(Some(rem as i64))
                }
            }
        },
        BinaryOp::Divide => {
            if right == 0 {
                return Ok(None);
            }
            Err(ExecError::NumericOverflow)
        },
        _ => Err(ExecError::NumericOverflow),
    }
}

/// Whether an arithmetic result is the DECIMAL text of `units` at `scale`,
/// NULL, or the overflow error, as `units` says.
pub open spec fn decimal_result(units: Option<Option<int>>, scale: nat, r: Result<ArithmeticValue, ExecError>) -> bool {
    match units {
        Some(Some(u)) => r matches Ok(ArithmeticValue::Decimal(text)) && text@ == scaled_text(u, scale),
        Some(None) => r == Ok::<ArithmeticValue, ExecError>(ArithmeticValue::Null),
        None => r == Err::<ArithmeticValue, ExecError>(ExecError::NumericOverflow),
    }
}

/// Whether an arithmetic result is the integer outcome `outcome`, as a
/// signed or an unsigned value.
pub open spec fn integer_result(outcome: Result<Option<int>, ExecError>, signed: bool, r: Result<ArithmeticValue, ExecError>) -> bool {
    match outcome {
        Ok(Some(x)) => if signed {
            r matches Ok(ArithmeticValue::Int64(v)) && v == x
        } else {
            r matches Ok(ArithmeticValue::UInt64(v)) && v == x
        },
        Ok(None) => r == Ok::<ArithmeticValue, ExecError>(ArithmeticValue::Null),
        Err(e) => r == Err::<ArithmeticValue, ExecError>(e),
    }
}

/// What `left op right` evaluates to at the declared result type: NULL
/// when an operand is NULL or no type was declared; DECIMAL operators on
/// scaled units; checked integer arithmetic at `BIGINT` and `BIGINT
/// UNSIGNED`, an operand that does not fit the type failing first; an
/// error for a non-numeric type or a DECIMAL `DIV`.
pub open spec fn arithmetic_result(
    op: BinaryOp,
    left: IntegerValue,
    right: IntegerValue,
    data_type: Option<NumericType>,
    r: Result<ArithmeticValue, ExecError>,
) -> bool {
    if left is Null || right is Null {
        r == Ok::<ArithmeticValue, ExecError>(ArithmeticValue::Null)
    } else {
        match data_type {
            Some(NumericType::Decimal { scale }) => {
                let (lu, ru) = (units_of(left)->Some_0, units_of(right)->Some_0);
                match op {
                    BinaryOp::Divide => decimal_result(divide_units(lu, ru, scale as nat), scale as nat, r),
                    BinaryOp::Modulo => decimal_result(modulo_units(lu, ru, scale as nat), scale as nat, r),
                    BinaryOp::Add | BinaryOp::Subtract | BinaryOp::Multiply => match add_sub_mul_units(
                        op,
                        lu,
                        ru,
                        scale as nat,
                    ) {
                        Some(u) => decimal_result(Some(Some(u)), scale as nat, r),
                        None => decimal_result(None, scale as nat, r),
                    },
                    _ => r == Err::<ArithmeticValue, ExecError>(ExecError::InvalidExpressionType),
                }
            },
            Some(NumericType::UInt64) => match (unsigned_of(left), unsigned_of(right)) {
                (Err(e), _) => r == Err::<ArithmeticValue, ExecError>(e),
                (Ok(_), Err(e)) => r == Err::<ArithmeticValue, ExecError>(e),
                (Ok(a), Ok(b)) => integer_result(
                    integer_arithmetic(op, a, b, 0, u64::MAX as int),
                    false,
                    r,
                ),
            },
            Some(NumericType::Int64) => match (signed_of(left), signed_of(right)) {
                (Err(e), _) => r == Err::<ArithmeticValue, ExecError>(e),
                (Ok(_), Err(e)) => r == Err::<ArithmeticValue, ExecError>(e),
                (Ok(a), Ok(b)) => integer_result(
                    integer_arithmetic(op, a, b, i64::MIN as int, i64::MAX as int),
                    true,
                    r,
                ),
            },
            None => r == Ok::<ArithmeticValue, ExecError>(ArithmeticValue::Null),
            Some(_) => r == Err::<ArithmeticValue, ExecError>(ExecError::InvalidExpressionType),
        }
    }
}

/// Evaluates `left op right` for an arithmetic operator at the declared
/// result type.
pub fn evaluate_arithmetic(
    op: BinaryOp,
    left: &IntegerValue,
    right: &IntegerValue,
    data_type: Option<NumericType>,
) -> (r: Result<ArithmeticValue, ExecError>)
    requires
        data_type matches Some(NumericType::Decimal { scale }) ==> scale <= 38,
    ensures
        arithmetic_result(op, *left, *right, data_type, r),
{
    if matches!(left, IntegerValue::Null) || matches!(right, IntegerValue::Null) {
        return Ok(ArithmeticValue::Null);
    }
    match data_type {
        Some(NumericType::Decimal { scale }) => {
            let lu = match decimal_units_of(left) {
                Some(u) => u,
                None => return Ok(ArithmeticValue::Null),
            };
            let ru = match decimal_units_of(right) {
                Some(u) => u,
                None => return Ok(ArithmeticValue::Null),
            };
            match op {
                BinaryOp::Divide => match divide_decimal(lu, ru, scale) {
                    Ok(Some(text)) => Ok(ArithmeticValue::Decimal(text)),
                    Ok(None) => Ok(ArithmeticValue::Null),
                    Err(e) => Err(e),
                },
                BinaryOp::Modulo => match decimal_modulo(lu, ru, scale) {
                    Ok(Some(text)) => Ok(ArithmeticValue::Decimal(text)),
                    Ok(None) => Ok(ArithmeticValue::Null),
                    Err(e) => Err(e),
                },
                BinaryOp::Add | BinaryOp::Subtract | BinaryOp::Multiply => match decimal_add_sub_mul(
                    op,
                    lu,
                    ru,
                    scale,
                ) {
                    Ok(text) => Ok(ArithmeticValue::Decimal(text)),
                    Err(e) => Err(e),
                },
                _ => Err(ExecError::InvalidExpressionType),
            }
        },
        Some(NumericType::UInt64) => {
            let a = match mysql_u64(left) {
                Ok(x) => x,
                Err(e) => return Err(e),
            };
            let b = match mysql_u64(right) {
                Ok(x) => x,
                Err(e) => return Err(e),
            };
            match unsigned_arithmetic(op, a, b) {
                Ok(Some(x)) => Ok(ArithmeticValue::UInt64(x)),
                Ok(None) => Ok(ArithmeticValue::Null),
                Err(e) => Err(e),
            }
        },
        Some(NumericType::Int64) => {
            let a = match mysql_i64(left) {
                Ok(x) => x,
                Err(e) => return Err(e),
            };
            let b = match mysql_i64(right) {
                Ok(x) => x,
                Err(e) => return Err(e),
            };
            match signed_arithmetic(op, a, b) {
                Ok(Some(x)) => Ok(ArithmeticValue::Int64(x)),
                Ok(None) => Ok(ArithmeticValue::Null),
                Err(e) => Err(e),
            }
        },
        None => Ok(ArithmeticValue::Null),
        Some(_) => Err(ExecError::InvalidExpressionType),
    }
}

/// Unary operators.
#[derive(Clone, Copy, Debug, PartialEq, Eq, Structural)]
pub enum UnaryOp {
    Not,
    Plus,
    Minus,
}

/// A number's text with its sign flipped, as a DECIMAL negation edits
/// canonical text: a leading minus is dropped, else one is written
/// (so zero becomes `-0`).
pub open spec fn flipped_text(x: int) -> Seq<char> {
    if x < 0 {
        decimal(magnitude(x))
    } else {
        seq!['-'] + decimal(x as nat)
    }
}

/// What a unary operator makes of a non-NULL or NULL scalar at the
/// declared result type.
pub open spec fn unary_result(op: UnaryOp, value: IntegerValue, data_type: Option<NumericType>, r: Result<ArithmeticValue, ExecError>) -> bool {
    if value is Null {
        r == Ok::<ArithmeticValue, ExecError>(ArithmeticValue::Null)
    } else {
        match op {
            UnaryOp::Not => r == Ok::<ArithmeticValue, ExecError>(ArithmeticValue::Boolean(
                !truth_of(value)->Some_0,
            )),
            UnaryOp::Plus => numeric_cast(value, data_type, r),
            UnaryOp::Minus => match data_type {
                Some(NumericType::Decimal { .. }) => r matches Ok(ArithmeticValue::Decimal(text))
                    && text@ == flipped_text(crate::compare::numeric_value(value)),
                Some(NumericType::Int64) => match signed_of(value) {
                    Ok(x) => if x == i64::MIN {
                        r == Err::<ArithmeticValue, ExecError>(ExecError::NumericOverflow)
                    } else {
                        r matches Ok(ArithmeticValue::Int64(v)) && v == -x
                    },
                    Err(e) => r == Err::<ArithmeticValue, ExecError>(e),
                },
                Some(NumericType::UInt64) => r == Err::<ArithmeticValue, ExecError>(
                    ExecError::NumericOverflow,
                ),
                None => r == Ok::<ArithmeticValue, ExecError>(ArithmeticValue::Null),
                Some(_) => r == Err::<ArithmeticValue, ExecError>(ExecError::InvalidExpressionType),
            },
        }
    }
}

/// Negates a number by editing its text.
fn negated_text(x: i128) -> (r: String)
    requires
        i64::MIN <= x <= u64::MAX,
    ensures
        r@ == flipped_text(x as int),
{
    if x < 0 {
        let text = format_decimal_scaled(-x, 0);
        assert(text@ =~= decimal(magnitude(x as int)));
        text
    } else {
        let text = format_decimal_scaled(x, 0);
        assert(crate::decimal::ten_pow(0) == 1);
        assert(magnitude(x as int) == x as nat);
        assert((x as nat) / 1 == x as nat);
        assert(text@ =~= decimal(x as nat));
        let digits = chars_of(text.as_str());
        let mut out: Vec<char> = Vec::new();
        out.push('-');
        let mut i: usize = 0;
        while i < digits.len()
            invariant
                i <= digits@.len(),
                out@ == seq!['-'] + digits@.subrange(0, i as int),
            decreases digits@.len() - i,
        {
            out.push(digits[i]);
            i = i + 1;
            assert(out@ =~= seq!['-'] + digits@.subrange(0, i as int));
        }
        assert(digits@.subrange(0, i as int) =~= digits@);
        string_of(out.as_slice())
    }
}

/// Evaluates `NOT`, unary plus or unary minus at the declared result type.
pub fn evaluate_unary(op: UnaryOp, value: &IntegerValue, data_type: Option<NumericType>) -> (r: Result<ArithmeticValue, ExecError>)
    ensures
        unary_result(op, *value, data_type, r),
{
    if matches!(value, IntegerValue::Null) {
        return Ok(ArithmeticValue::Null);
    }
    match op {
        UnaryOp::Not => {
            let truth = match value {
                IntegerValue::Boolean(b) => *b,
                IntegerValue::Int64(x) => *x != 0,
                IntegerValue::UInt64(x) => *x != 0,
                IntegerValue::Null => false,
            };
            Ok(ArithmeticValue::Boolean(!truth))
        },
        UnaryOp::Plus => cast_numeric(value, data_type),
        UnaryOp::Minus => match data_type {
            Some(NumericType::Decimal { .. }) => {
                let x: i128 = match value {
                    IntegerValue::Boolean(b) => if *b { 1 } else { 0 },
                    IntegerValue::Int64(x) => *x as i128,
                    IntegerValue::UInt64(x) => *x as i128,
                    IntegerValue::Null => 0,
                };
                Ok(ArithmeticValue::Decimal(negated_text(x)))
            },
            Some(NumericType::Int64) => match mysql_i64(value) {
                Ok(x) => if x == i64::MIN {
                    Err(ExecError::NumericOverflow)
                } else {
                    Ok(ArithmeticValue::Int64(-x))
                },
                Err(e) => Err(e),
            },
            Some(NumericType::UInt64) => Err(ExecError::NumericOverflow),
            None => Ok(ArithmeticValue::Null),
            Some(_) => Err(ExecError::InvalidExpressionType),
        },
    }
}

/// Division by zero is NULL, not an error: `/`, `DIV` and `%` by a zero
/// integer, at an integer or DECIMAL result type (`DIV` at an integer one),
/// wherever the dividend fits the result type.
pub proof fn law_division_by_zero_is_null(
    op: BinaryOp,
    left: IntegerValue,
    right: IntegerValue,
    data_type: NumericType,
    r: Result<ArithmeticValue, ExecError>,
)
    requires
        !(left is Null),
        !(right is Null),
        crate::compare::numeric_value(right) == 0,
        op == BinaryOp::Divide || op == BinaryOp::Modulo || (op == BinaryOp::IntegerDivide
            && !(data_type is Decimal)),
        data_type is Int64 || data_type is UInt64 || data_type is Decimal,
        data_type is Int64 ==> signed_of(left) is Ok,
        data_type is UInt64 ==> unsigned_of(left) is Ok,
        arithmetic_result(op, left, right, Some(data_type), r),
    ensures
        r == Ok::<ArithmeticValue, ExecError>(ArithmeticValue::Null),
{
}

/// `DIV` and `%` truncate toward zero and fit together: the quotient
/// times the divisor plus the remainder is the dividend, and the remainder
/// is smaller than the divisor and has the dividend's sign.
pub proof fn law_div_mod_reconstruct(l: int, r: int)
    requires
        r != 0,
    ensures
        trunc_quotient(l, r) * r + trunc_rem(l, r) == l,
        magnitude(trunc_rem(l, r)) < magnitude(r),
        l >= 0 ==> trunc_rem(l, r) >= 0,
        l < 0 ==> trunc_rem(l, r) <= 0,
{
    let ml = magnitude(l);
    let mr = magnitude(r);
    let q = ml / mr;
    let m = ml % mr;
    assert(q * mr + m == ml && 0 <= m < mr) by (nonlinear_arith)
        requires
            q == ml / mr,
            m == ml % mr,
            mr >= 1,
    ;
    if l >= 0 && r > 0 {
        assert(q * r + m == l);
    } else if l >= 0 && r < 0 {
        assert((-q) * r + m == l) by (nonlinear_arith)
            requires
                q * mr + m == ml,
                mr == -r,
                ml == l,
        ;
    } else if l < 0 && r > 0 {
        assert((-q) * r + (-m) == l) by (nonlinear_arith)
            requires
                q * mr + m == ml,
                mr == r,
                ml == -l,
        ;
    } else {
        assert(q * r + (-m) == l) by (nonlinear_arith)
            requires
                q * mr + m == ml,
                mr == -r,
                ml == -l,
        ;
    }
}

/// A scalar converted to the declared numeric type: `BIGINT` and `BIGINT
/// UNSIGNED` read it as such; no type is NULL; any other type is refused.
pub open spec fn numeric_cast(value: IntegerValue, data_type: Option<NumericType>, r: Result<ArithmeticValue, ExecError>) -> bool {
    match data_type {
        Some(NumericType::Int64) => match signed_of(value) {
            Ok(x) => r matches Ok(ArithmeticValue::Int64(v)) && v == x,
            Err(e) => r == Err::<ArithmeticValue, ExecError>(e),
        },
        Some(NumericType::UInt64) => match unsigned_of(value) {
            Ok(x) => r matches Ok(ArithmeticValue::UInt64(v)) && v == x,
            Err(e) => r == Err::<ArithmeticValue, ExecError>(e),
        },
        None => r == Ok::<ArithmeticValue, ExecError>(ArithmeticValue::Null),
        Some(_) => r == Err::<ArithmeticValue, ExecError>(ExecError::InvalidExpressionType),
    }
}

/// Converts a scalar to the declared numeric type.
pub fn cast_numeric(value: &IntegerValue, data_type: Option<NumericType>) -> (r: Result<ArithmeticValue, ExecError>)
    ensures
        numeric_cast(*value, data_type, r),
{
    match data_type {
        Some(NumericType::Int64) => match mysql_i64(value) {
            Ok(x) => Ok(ArithmeticValue::Int64(x)),
            Err(e) => Err(e),
        },
        Some(NumericType::UInt64) => match mysql_u64(value) {
            Ok(x) => Ok(ArithmeticValue::UInt64(x)),
            Err(e) => Err(e),
        },
        None => Ok(ArithmeticValue::Null),
        Some(_) => Err(ExecError::InvalidExpressionType),
    }
}

} // verus!
