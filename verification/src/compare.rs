//! Comparison and truth in MySQL's three-valued logic over the integer
//! family of scalars (truth values, signed and unsigned 64-bit integers),
//! and the packed-column kernels that turn a comparison against a literal
//! into a row selection.
use crate::decimal::ExecError;
use crate::json_order::{bytes_lt, compare_key_bytes};
use std::cmp::Ordering;
use vstd::prelude::*;

verus! {

/// Binary operators of a bound expression.
#[derive(Clone, Copy, Debug, PartialEq, Eq, Structural)]
pub enum BinaryOp {
    Equal,
    NotEqual,
    Less,
    LessOrEqual,
    Greater,
    GreaterOrEqual,
    And,
    Or,
    Xor,
    Add,
    Subtract,
    Multiply,
    Divide,
    IntegerDivide,
    Modulo,
}

/// Whether an operator is one of the six comparisons.
pub open spec fn is_comparison(op: BinaryOp) -> bool {
    match op {
        BinaryOp::Equal | BinaryOp::NotEqual | BinaryOp::Less | BinaryOp::LessOrEqual
        | BinaryOp::Greater | BinaryOp::GreaterOrEqual => true,
        _ => false,
    }
}

/// The operator that states the same comparison with its operands swapped;
/// every other operator is its own mirror.
pub open spec fn mirrored(op: BinaryOp) -> BinaryOp {
    match op {
        BinaryOp::Less => BinaryOp::Greater,
        BinaryOp::LessOrEqual => BinaryOp::GreaterOrEqual,
        BinaryOp::Greater => BinaryOp::Less,
        BinaryOp::GreaterOrEqual => BinaryOp::LessOrEqual,
        other => other,
    }
}

/// Swaps the sides of a comparison: `a < b` becomes `b > a`.
pub fn mirror_comparison(op: BinaryOp) -> (r: BinaryOp)
    ensures
        r == mirrored(op),
{
    match op {
        BinaryOp::Less => BinaryOp::Greater,
        BinaryOp::LessOrEqual => BinaryOp::GreaterOrEqual,
        BinaryOp::Greater => BinaryOp::Less,
        BinaryOp::GreaterOrEqual => BinaryOp::LessOrEqual,
        other => other,
    }
}

/// The sign of an integer: -1, 0 or 1.
pub open spec fn sign_of(x: int) -> int {
    if x < 0 {
        -1
    } else if x == 0 {
        0
    } else {
        1
    }
}

/// What a comparison says of two operands whose difference has sign
/// `sign`; `false` for an operator that compares nothing.
pub open spec fn holds(op: BinaryOp, sign: int) -> bool {
    match op {
        BinaryOp::Equal => sign == 0,
        BinaryOp::NotEqual => sign != 0,
        BinaryOp::Less => sign < 0,
        BinaryOp::LessOrEqual => sign <= 0,
        BinaryOp::Greater => sign > 0,
        BinaryOp::GreaterOrEqual => sign >= 0,
        _ => false,
    }
}

/// A scalar of the integer family.
#[derive(Clone, Copy, Debug, PartialEq, Eq, Structural)]
pub enum IntegerValue {
    Null,
    Boolean(bool),
    Int64(i64),
    UInt64(u64),
}

/// The number a non-null scalar stands for: a truth value is 0 or 1.
pub open spec fn numeric_value(v: IntegerValue) -> int {
    match v {
        IntegerValue::Null => 0,
        IntegerValue::Boolean(b) => if b { 1 } else { 0 },
        IntegerValue::Int64(x) => x as int,
        IntegerValue::UInt64(x) => x as int,
    }
}

/// The sign of `left - right` over two non-null scalars, exact across
/// signed and unsigned operands.
fn difference_sign(left: &IntegerValue, right: &IntegerValue) -> (r: i8)
    requires
        !(*left is Null),
        !(*right is Null),
    ensures
        r as int == sign_of(numeric_value(*left) - numeric_value(*right)),
{
    let l: i128 = match left {
        IntegerValue::Boolean(b) => if *b { 1 } else { 0 },
        IntegerValue::Int64(x) => *x as i128,
        IntegerValue::UInt64(x) => *x as i128,
        IntegerValue::Null => 0,
    };
    let r: i128 = match right {
        IntegerValue::Boolean(b) => if *b { 1 } else { 0 },
        IntegerValue::Int64(x) => *x as i128,
        IntegerValue::UInt64(x) => *x as i128,
        IntegerValue::Null => 0,
    };
    if l < r {
        -1
    } else if l == r {
        0
    } else {
        1
    }
}

/// The sign an ordering stands for.
pub open spec fn ordering_sign(o: Ordering) -> int {
    match o {
        Ordering::Less => -1,
        Ordering::Equal => 0,
        Ordering::Greater => 1,
    }
}

/// Orders two scalars as MySQL does: by their numbers, exactly, a signed
/// operand against an unsigned one too. MySQL compares a truth value with
/// an integer as doubles; rounding an integer to a double never moves it
/// across 0 or 1, so that order is the integers' order. A NULL operand has
/// no order.
pub fn compare_mysql(left: &IntegerValue, right: &IntegerValue) -> (r: Result<Ordering, ExecError>)
    ensures
        match r {
            Ok(o) => !(*left is Null) && !(*right is Null) && ordering_sign(o) == sign_of(
                numeric_value(*left) - numeric_value(*right),
            ),
            Err(e) => (*left is Null || *right is Null) && e == ExecError::InvalidExpressionType,
        },
{
    if matches!(left, IntegerValue::Null) || matches!(right, IntegerValue::Null) {
        return Err(ExecError::InvalidExpressionType);
    }
    let sign = difference_sign(left, right);
    if sign < 0 {
        Ok(Ordering::Less)
    } else if sign == 0 {
        Ok(Ordering::Equal)
    } else {
        Ok(Ordering::Greater)
    }
}

/// A truth value as a scalar: unknown is NULL.
pub open spec fn truth_value(t: Option<bool>) -> IntegerValue {
    match t {
        Some(b) => IntegerValue::Boolean(b),
        None => IntegerValue::Null,
    }
}

/// What a comparison of two scalars says: unknown when either is NULL.
pub open spec fn comparison_truth(op: BinaryOp, left: IntegerValue, right: IntegerValue) -> Option<
    bool,
> {
    if left is Null || right is Null {
        None
    } else {
        Some(holds(op, sign_of(numeric_value(left) - numeric_value(right))))
    }
}

/// A comparison's value: NULL when an operand is NULL, an error for an
/// operator that is no comparison, else the truth of the comparison.
pub open spec fn comparison_value(op: BinaryOp, left: IntegerValue, right: IntegerValue) -> Result<
    IntegerValue,
    ExecError,
> {
    if left is Null || right is Null {
        Ok(IntegerValue::Null)
    } else if !is_comparison(op) {
        Err(ExecError::InvalidExpressionType)
    } else {
        Ok(truth_value(comparison_truth(op, left, right)))
    }
}

/// Evaluates `left op right` for a comparison operator.
pub fn evaluate_comparison(op: BinaryOp, left: &IntegerValue, right: &IntegerValue) -> (r: Result<
    IntegerValue,
    ExecError,
>)
    ensures
        r == comparison_value(op, *left, *right),
{
    if matches!(left, IntegerValue::Null) || matches!(right, IntegerValue::Null) {
        return Ok(IntegerValue::Null);
    }
    let ordering = match compare_mysql(left, right) {
        Ok(o) => o,
        Err(e) => return Err(e),
    };
    let result = match op {
        BinaryOp::Equal => matches!(ordering, Ordering::Equal),
        BinaryOp::NotEqual => !matches!(ordering, Ordering::Equal),
        BinaryOp::Less => matches!(ordering, Ordering::Less),
        BinaryOp::LessOrEqual => !matches!(ordering, Ordering::Greater),
        BinaryOp::Greater => matches!(ordering, Ordering::Greater),
        BinaryOp::GreaterOrEqual => !matches!(ordering, Ordering::Less),
        _ => return Err(ExecError::InvalidExpressionType),
    };
    Ok(IntegerValue::Boolean(result))
}

/// MySQL's truth of a scalar: NULL is unknown, a number is true when it is
/// not zero.
pub open spec fn truth_of(v: IntegerValue) -> Option<bool> {
    match v {
        IntegerValue::Null => None,
        IntegerValue::Boolean(b) => Some(b),
        IntegerValue::Int64(x) => Some(x != 0),
        IntegerValue::UInt64(x) => Some(x != 0),
    }
}

/// The truth of a scalar.
pub fn mysql_truth(value: &IntegerValue) -> (r: Option<bool>)
    ensures
        r == truth_of(*value),
{
    match value {
        IntegerValue::Null => None,
        IntegerValue::Boolean(b) => Some(*b),
        IntegerValue::Int64(x) => Some(*x != 0),
        IntegerValue::UInt64(x) => Some(*x != 0),
    }
}

/// Three-valued AND: false wins over unknown.
pub open spec fn kleene_and(a: Option<bool>, b: Option<bool>) -> Option<bool> {
    if a == Some(false) || b == Some(false) {
        Some(false)
    } else if a == Some(true) && b == Some(true) {
        Some(true)
    } else {
        None
    }
}

/// Three-valued OR: true wins over unknown.
pub open spec fn kleene_or(a: Option<bool>, b: Option<bool>) -> Option<bool> {
    if a == Some(true) || b == Some(true) {
        Some(true)
    } else if a == Some(false) && b == Some(false) {
        Some(false)
    } else {
        None
    }
}

/// Three-valued XOR: unknown when either side is.
pub open spec fn kleene_xor(a: Option<bool>, b: Option<bool>) -> Option<bool> {
    match (a, b) {
        (Some(x), Some(y)) => Some(x != y),
        _ => None,
    }
}

/// Three-valued NOT.
pub open spec fn kleene_not(a: Option<bool>) -> Option<bool> {
    match a {
        Some(x) => Some(!x),
        None => None,
    }
}

/// The value of `left op right` for a logical operator, an error for any
/// other operator.
pub open spec fn logic_value(op: BinaryOp, left: IntegerValue, right: IntegerValue) -> Result<
    IntegerValue,
    ExecError,
> {
    match op {
        BinaryOp::And => Ok(truth_value(kleene_and(truth_of(left), truth_of(right)))),
        BinaryOp::Or => Ok(truth_value(kleene_or(truth_of(left), truth_of(right)))),
        BinaryOp::Xor => Ok(truth_value(kleene_xor(truth_of(left), truth_of(right)))),
        _ => Err(ExecError::InvalidExpressionType),
    }
}

/// Evaluates AND, OR or XOR over the truths of two scalars.
pub fn evaluate_logic(op: BinaryOp, left: &IntegerValue, right: &IntegerValue) -> (r: Result<
    IntegerValue,
    ExecError,
>)
    ensures
        r == logic_value(op, *left, *right),
{
    let left = mysql_truth(left);
    let right = mysql_truth(right);
    let result = match op {
        BinaryOp::And => match (left, right) {
            (Some(false), _) | (_, Some(false)) => Some(false),
            (Some(true), Some(true)) => Some(true),
            _ => None,
        },
        BinaryOp::Or => match (left, right) {
            (Some(true), _) | (_, Some(true)) => Some(true),
            (Some(false), Some(false)) => Some(false),
            _ => None,
        },
        BinaryOp::Xor => match (left, right) {
            (Some(x), Some(y)) => Some(x != y),
            _ => None,
        },
        _ => return Err(ExecError::InvalidExpressionType),
    };
    Ok(
        match result {
            Some(b) => IntegerValue::Boolean(b),
            None => IntegerValue::Null,
        },
    )
}

/// `NOT value`: NULL stays NULL.
pub open spec fn not_value(v: IntegerValue) -> IntegerValue {
    truth_value(kleene_not(truth_of(v)))
}

/// Evaluates `NOT value`.
pub fn evaluate_not(value: &IntegerValue) -> (r: IntegerValue)
    ensures
        r == not_value(*value),
{
    match mysql_truth(value) {
        Some(b) => IntegerValue::Boolean(!b),
        None => IntegerValue::Null,
    }
}

/// `value [NOT] BETWEEN low AND high`: both bounds inclusive, unknown when
/// the conjunction of the two bound comparisons is.
pub open spec fn between_value(value: IntegerValue, low: IntegerValue, high: IntegerValue, negated: bool) -> IntegerValue {
    match kleene_and(
        comparison_truth(BinaryOp::GreaterOrEqual, value, low),
        comparison_truth(BinaryOp::LessOrEqual, value, high),
    ) {
        Some(b) => IntegerValue::Boolean(if negated { !b } else { b }),
        None => IntegerValue::Null,
    }
}

/// Evaluates `values[0] [NOT] BETWEEN values[1] AND values[2]`.
pub fn evaluate_between(values: &[IntegerValue], negated: bool) -> (r: IntegerValue)
    requires
        values@.len() >= 3,
    ensures
        r == between_value(values@[0], values@[1], values@[2], negated),
{
    let lower = match evaluate_comparison(BinaryOp::GreaterOrEqual, &values[0], &values[1]) {
        Ok(v) => v,
        Err(_) => IntegerValue::Null,
    };
    let upper = match evaluate_comparison(BinaryOp::LessOrEqual, &values[0], &values[2]) {
        Ok(v) => v,
        Err(_) => IntegerValue::Null,
    };
    let result = match evaluate_logic(BinaryOp::And, &lower, &upper) {
        Ok(v) => v,
        Err(_) => IntegerValue::Null,
    };
    match result {
        IntegerValue::Boolean(value) => IntegerValue::Boolean(if negated { !value } else { value }),
        _ => IntegerValue::Null,
    }
}

/// Whether some candidate after the first value is non-null and equal to it.
pub open spec fn in_list_hit(values: Seq<IntegerValue>) -> bool {
    exists|i: int|
        1 <= i < values.len() && !(#[trigger] values[i] is Null) && numeric_value(values[i])
            == numeric_value(values[0])
}

/// Whether some candidate after the first value is NULL.
pub open spec fn in_list_null(values: Seq<IntegerValue>) -> bool {
    exists|i: int| 1 <= i < values.len() && #[trigger] values[i] is Null
}

/// `values[0] [NOT] IN (values[1..])`: NULL for a NULL probe; a match
/// decides; else a NULL candidate leaves it unknown.
pub open spec fn in_list_value(values: Seq<IntegerValue>, negated: bool) -> IntegerValue {
    if values[0] is Null {
        IntegerValue::Null
    } else if in_list_hit(values) {
        IntegerValue::Boolean(!negated)
    } else if in_list_null(values) {
        IntegerValue::Null
    } else {
        IntegerValue::Boolean(negated)
    }
}

/// Evaluates `values[0] [NOT] IN (values[1..])`.
pub fn evaluate_in_list(values: &[IntegerValue], negated: bool) -> (r: IntegerValue)
    requires
        values@.len() >= 1,
    ensures
        r == in_list_value(values@, negated),
{
    if matches!(values[0], IntegerValue::Null) {
        return IntegerValue::Null;
    }
    let mut saw_null = false;
    let mut i: usize = 1;
    while i < values.len()
        invariant
            1 <= i <= values@.len(),
            !(values@[0] is Null),
            forall|j: int|
                1 <= j < i ==> ((#[trigger] values@[j] is Null) || numeric_value(values@[j])
                    != numeric_value(values@[0])),
            saw_null <==> exists|j: int| 1 <= j < i && #[trigger] values@[j] is Null,
        decreases values@.len() - i,
    {
        let comparison = evaluate_comparison(BinaryOp::Equal, &values[0], &values[i]);
        match comparison {
            Ok(IntegerValue::Boolean(true)) => {
                assert(!(values@[i as int] is Null));
                return IntegerValue::Boolean(!negated);
            },
            Ok(IntegerValue::Null) => {
                saw_null = true;
            },
            _ => {},
        }
        i = i + 1;
    }
    if saw_null {
        IntegerValue::Null
    } else {
        IntegerValue::Boolean(negated)
    }
}

/// The logical type a packed column carries.
#[derive(Clone, Copy, Debug, PartialEq, Eq, Structural)]
pub enum DataType {
    Boolean,
    Int64,
    UInt64,
    Float64,
    Decimal { precision: u8, scale: u8 },
    Utf8,
    Binary,
    Date32,
    DateTime64 { fsp: u8 },
    Time64 { fsp: u8 },
    Json,
}

/// Whether values of a type travel as canonical fixed-width text, where
/// byte order is chronological order.
pub open spec fn is_temporal(t: DataType) -> bool {
    match t {
        DataType::Date32 | DataType::DateTime64 { .. } | DataType::Time64 { .. } => true,
        _ => false,
    }
}

/// A literal operand.
#[derive(Debug, PartialEq, Eq)]
pub enum Value {
    Null,
    Boolean(bool),
    Int64(i64),
    UInt64(u64),
    Utf8(Vec<u8>),
    Binary(Vec<u8>),
}

/// A column's packed physical values, one per row.
#[derive(Debug)]
pub enum TypedValues {
    Int64(Vec<i64>),
    UInt64(Vec<u64>),
    /// Temporal units: days or microseconds.
    Temporal { units: Vec<i64> },
    /// Text, as each row's bytes.
    Utf8(Vec<Vec<u8>>),
}

/// The number of rows a packed column holds.
pub open spec fn typed_len(typed: TypedValues) -> nat {
    match typed {
        TypedValues::Int64(v) => v@.len(),
        TypedValues::UInt64(v) => v@.len(),
        TypedValues::Temporal { units } => units@.len(),
        TypedValues::Utf8(rows) => rows@.len(),
    }
}

/// The sign of the lexicographic comparison of two byte strings.
pub open spec fn byte_sign(a: Seq<u8>, b: Seq<u8>) -> int {
    if bytes_lt(a, b) {
        -1
    } else if a == b {
        0
    } else {
        1
    }
}

/// The byte-wise kernel's test: the six comparisons, and "not less" for
/// any other operator.
pub open spec fn bytes_holds(op: BinaryOp, sign: int) -> bool {
    if is_comparison(op) {
        holds(op, sign)
    } else {
        sign >= 0
    }
}

/// The selection a comparison against a literal makes over packed integers.
pub open spec fn integer_selection(values: Seq<int>, validity: Seq<bool>, op: BinaryOp, literal: int) -> Seq<bool> {
    Seq::new(values.len(), |i: int| validity[i] && holds(op, sign_of(values[i] - literal)))
}

/// Signed packed values as integers.
pub open spec fn ints_i64(v: Seq<i64>) -> Seq<int> {
    Seq::new(v.len(), |i: int| v[i] as int)
}

/// Unsigned packed values as integers.
pub open spec fn ints_u64(v: Seq<u64>) -> Seq<int> {
    Seq::new(v.len(), |i: int| v[i] as int)
}

/// Each row's bytes.
pub open spec fn row_bytes(rows: Seq<Vec<u8>>) -> Seq<Seq<u8>> {
    Seq::new(rows.len(), |i: int| rows[i]@)
}

/// The selection a byte-wise comparison against `needle` makes.
pub open spec fn bytes_selection(rows: Seq<Seq<u8>>, validity: Seq<bool>, op: BinaryOp, needle: Seq<u8>) -> Seq<bool> {
    Seq::new(rows.len(), |i: int| validity[i] && bytes_holds(op, byte_sign(rows[i], needle)))
}

/// The row selection of `column op literal` where a packed kernel decides
/// it: a comparison of signed or unsigned integers against a literal of the
/// same kind, and any comparison of canonical temporal text against a text
/// literal. `None` elsewhere: a mixed-type comparison, a double column,
/// packed temporal units and collation-aware text keep the row-at-a-time
/// semantics of `evaluate_comparison`.
pub open spec fn packed_selection(typed: TypedValues, validity: Seq<bool>, logical_type: DataType, op: BinaryOp, literal: Value) -> Option<Seq<bool>> {
    match (typed, literal) {
        (TypedValues::Int64(values), Value::Int64(lit)) => if is_comparison(op) {
            Some(integer_selection(ints_i64(values@), validity, op, lit as int))
        } else {
            None
        },
        (TypedValues::UInt64(values), Value::UInt64(lit)) => if is_comparison(op) {
            Some(integer_selection(ints_u64(values@), validity, op, lit as int))
        } else {
            None
        },
        (TypedValues::Utf8(rows), Value::Utf8(text)) => if is_temporal(logical_type) {
            Some(bytes_selection(row_bytes(rows@), validity, op, text@))
        } else {
            None
        },
        _ => None,
    }
}

/// Selects the valid rows of a signed column where `value op literal`.
fn ordered_i64(values: &Vec<i64>, validity: &Vec<bool>, op: BinaryOp, literal: i64) -> (r: Vec<bool>)
    requires
        validity@.len() == values@.len(),
        is_comparison(op),
    ensures
        r@ == integer_selection(ints_i64(values@), validity@, op, literal as int),
{
    let mut mask: Vec<bool> = Vec::new();
    let mut row: usize = 0;
    while row < values.len()
        invariant
            row <= values@.len(),
            validity@.len() == values@.len(),
            mask@.len() == row,
            is_comparison(op),
            forall|i: int|
                0 <= i < row ==> #[trigger] mask@[i] == (validity@[i] && holds(
                    op,
                    sign_of(values@[i] - literal),
                )),
        decreases values@.len() - row,
    {
        let v = values[row];
        let keep = match op {
            BinaryOp::Equal => v == literal,
            BinaryOp::NotEqual => v != literal,
            BinaryOp::Less => v < literal,
            BinaryOp::LessOrEqual => v <= literal,
            BinaryOp::Greater => v > literal,
            _ => v >= literal,
        };
        mask.push(validity[row] && keep);
        row = row + 1;
    }
    assert(mask@ =~= integer_selection(ints_i64(values@), validity@, op, literal as int));
    mask
}

/// Selects the valid rows of an unsigned column where `value op literal`.
fn ordered_u64(values: &Vec<u64>, validity: &Vec<bool>, op: BinaryOp, literal: u64) -> (r: Vec<bool>)
    requires
        validity@.len() == values@.len(),
        is_comparison(op),
    ensures
        r@ == integer_selection(ints_u64(values@), validity@, op, literal as int),
{
    let mut mask: Vec<bool> = Vec::new();
    let mut row: usize = 0;
    while row < values.len()
        invariant
            row <= values@.len(),
            validity@.len() == values@.len(),
            mask@.len() == row,
            is_comparison(op),
            forall|i: int|
                0 <= i < row ==> #[trigger] mask@[i] == (validity@[i] && holds(
                    op,
                    sign_of(values@[i] - literal),
                )),
        decreases values@.len() - row,
    {
        let v = values[row];
        let keep = match op {
            BinaryOp::Equal => v == literal,
            BinaryOp::NotEqual => v != literal,
            BinaryOp::Less => v < literal,
            BinaryOp::LessOrEqual => v <= literal,
            BinaryOp::Greater => v > literal,
            _ => v >= literal,
        };
        mask.push(validity[row] && keep);
        row = row + 1;
    }
    assert(mask@ =~= integer_selection(ints_u64(values@), validity@, op, literal as int));
    mask
}

/// Selects the valid rows of a text column whose bytes compare to
/// `needle` as `op` says, byte-wise.
fn ordered_bytes(rows: &Vec<Vec<u8>>, validity: &Vec<bool>, op: BinaryOp, needle: &Vec<u8>) -> (r: Vec<bool>)
    requires
        validity@.len() == rows@.len(),
    ensures
        r@ == bytes_selection(row_bytes(rows@), validity@, op, needle@),
{
    let mut mask: Vec<bool> = Vec::new();
    let mut row: usize = 0;
    while row < rows.len()
        invariant
            row <= rows@.len(),
            validity@.len() == rows@.len(),
            mask@.len() == row,
            forall|i: int|
                0 <= i < row ==> #[trigger] mask@[i] == (validity@[i] && bytes_holds(
                    op,
                    byte_sign(rows@[i]@, needle@),
                )),
        decreases rows@.len() - row,
    {
        let keep = if validity[row] {
            let c = compare_key_bytes(rows[row].as_slice(), needle.as_slice());
            assert(c as int == byte_sign(rows@[row as int]@, needle@));
            match op {
                BinaryOp::Equal => c == 0,
                BinaryOp::NotEqual => c != 0,
                BinaryOp::Less => c < 0,
                BinaryOp::LessOrEqual => c <= 0,
                BinaryOp::Greater => c > 0,
                _ => c >= 0,
            }
        } else {
            false
        };
        mask.push(keep);
        row = row + 1;
    }
    assert(mask@ =~= bytes_selection(row_bytes(rows@), validity@, op, needle@));
    mask
}

/// Builds the selection of `column op literal` from packed values, where a
/// kernel decides it (see `packed_selection`); `None` sends the comparison
/// to the row-at-a-time path. A row the validity marks NULL is never
/// selected.
pub fn typed_comparison_mask(
    typed: &TypedValues,
    validity: &Vec<bool>,
    logical_type: DataType,
    op: BinaryOp,
    literal: &Value,
) -> (r: Option<Vec<bool>>)
    requires
        validity@.len() == typed_len(*typed),
    ensures
        match r {
            Some(mask) => packed_selection(*typed, validity@, logical_type, op, *literal) == Some(
                mask@,
            ),
            None => packed_selection(*typed, validity@, logical_type, op, *literal) is None,
        },
{
    let comparison = matches!(
        op,
        BinaryOp::Equal | BinaryOp::NotEqual | BinaryOp::Less | BinaryOp::LessOrEqual
            | BinaryOp::Greater | BinaryOp::GreaterOrEqual
    );
    match (typed, literal) {
        (TypedValues::Int64(values), Value::Int64(lit)) => if comparison {
            Some(ordered_i64(values, validity, op, *lit))
        } else {
            None
        },
        (TypedValues::UInt64(values), Value::UInt64(lit)) => if comparison {
            Some(ordered_u64(values, validity, op, *lit))
        } else {
            None
        },
        (TypedValues::Utf8(rows), Value::Utf8(text)) => {
            let temporal = matches!(
                logical_type,
                DataType::Date32 | DataType::DateTime64 { .. } | DataType::Time64 { .. }
            );
            if temporal {
                Some(ordered_bytes(rows, validity, op, text))
            } else {
                None
            }
        },
        _ => None,
    }
}

/// The scalar a packed integer cell holds.
pub open spec fn packed_cell(typed: TypedValues, r: int) -> IntegerValue {
    match typed {
        TypedValues::Int64(v) => IntegerValue::Int64(v@[r]),
        TypedValues::UInt64(v) => IntegerValue::UInt64(v@[r]),
        _ => IntegerValue::Null,
    }
}

/// A literal of the integer family as a scalar.
pub open spec fn literal_scalar(v: Value) -> IntegerValue {
    match v {
        Value::Boolean(b) => IntegerValue::Boolean(b),
        Value::Int64(x) => IntegerValue::Int64(x),
        Value::UInt64(x) => IntegerValue::UInt64(x),
        _ => IntegerValue::Null,
    }
}

/// The packed mask of `column op literal` over an integer column keeps a
/// row exactly when the row is not NULL and the row-at-a-time comparison
/// of its value with the literal answers true.
pub proof fn law_mask_agrees_with_row_comparison(
    typed: TypedValues,
    validity: Seq<bool>,
    logical_type: DataType,
    op: BinaryOp,
    literal: Value,
    r: int,
)
    requires
        packed_selection(typed, validity, logical_type, op, literal) is Some,
        typed is Int64 || typed is UInt64,
        validity.len() == typed_len(typed),
        0 <= r < typed_len(typed),
    ensures
        packed_selection(typed, validity, logical_type, op, literal).unwrap()[r] == (validity[r] && comparison_value(
            op,
            packed_cell(typed, r),
            literal_scalar(literal),
        ) == Ok::<IntegerValue, ExecError>(IntegerValue::Boolean(true))),
{
}

} // verus!
