//! Constant folding: every subexpression whose operands are literals of
//! the integer family is replaced by the literal it evaluates to, `x OR
//! TRUE` and `x AND FALSE` are decided without evaluating `x`, and a
//! filter whose predicate folds to a constant keeps or empties its input.
//!
//! Text operands are left for execution: their truth and their order go
//! through number parsing and collations that run there. DECIMAL
//! arithmetic stays a tree, so the executor sees its unrounded chain.
use crate::arithmetic::{
    evaluate_arithmetic, evaluate_unary, signed_of, unsigned_of, integer_arithmetic, ArithmeticValue,
    NumericType, UnaryOp,
};
use crate::bound_expr::{BoundExpr, BoundExprKind};
use crate::compare::{
    comparison_value, evaluate_comparison, evaluate_logic, is_comparison, logic_value, truth_of,
    BinaryOp, DataType, IntegerValue, Value,
};
use crate::logical::{BoundLimit, LogicalPlan, Projection};
use vstd::prelude::*;

verus! {

/// A literal of the integer family as a scalar; text and bytes are none.
pub open spec fn integer_of(v: Value) -> Option<IntegerValue> {
    match v {
        Value::Null => Some(IntegerValue::Null),
        Value::Boolean(b) => Some(IntegerValue::Boolean(b)),
        Value::Int64(x) => Some(IntegerValue::Int64(x)),
        Value::UInt64(x) => Some(IntegerValue::UInt64(x)),
        _ => None,
    }
}

/// A scalar as a literal value.
pub open spec fn value_of(v: IntegerValue) -> Value {
    match v {
        IntegerValue::Null => Value::Null,
        IntegerValue::Boolean(b) => Value::Boolean(b),
        IntegerValue::Int64(x) => Value::Int64(x),
        IntegerValue::UInt64(x) => Value::UInt64(x),
    }
}

/// The type a scalar carries by itself; NULL carries none.
pub open spec fn type_of(v: IntegerValue) -> Option<DataType> {
    match v {
        IntegerValue::Null => None,
        IntegerValue::Boolean(_) => Some(DataType::Boolean),
        IntegerValue::Int64(_) => Some(DataType::Int64),
        IntegerValue::UInt64(_) => Some(DataType::UInt64),
    }
}

/// The declared type, else the value's own.
pub open spec fn or_type(dt: Option<DataType>, v: IntegerValue) -> Option<DataType> {
    if dt is Some {
        dt
    } else {
        type_of(v)
    }
}

/// The literal a constant folds to: the expression's declared type is
/// kept, and it is nullable only when it is NULL.
pub open spec fn literal_of(v: IntegerValue, dt: Option<DataType>) -> BoundExpr {
    BoundExpr { kind: BoundExprKind::Literal(value_of(v)), data_type: or_type(dt, v), nullable: v is Null }
}

/// The arithmetic type a declared type evaluates at: `Some(None)` for no
/// declared type; `None` for DECIMAL, DOUBLE and the temporal types,
/// whose values a literal here does not carry.
pub open spec fn numeric_of(dt: Option<DataType>) -> Option<Option<NumericType>> {
    match dt {
        None => Some(None),
        Some(DataType::Boolean) => Some(Some(NumericType::Boolean)),
        Some(DataType::Int64) => Some(Some(NumericType::Int64)),
        Some(DataType::UInt64) => Some(Some(NumericType::UInt64)),
        Some(DataType::Utf8) => Some(Some(NumericType::Utf8)),
        Some(DataType::Binary) => Some(Some(NumericType::Binary)),
        _ => None,
    }
}

/// A scalar converted to the declared integer type; `None` where the
/// conversion fails.
pub open spec fn cast_value(v: IntegerValue, nt: Option<NumericType>) -> Option<IntegerValue> {
    match nt {
        Some(NumericType::Int64) => match signed_of(v) {
            Ok(x) => Some(IntegerValue::Int64(x as i64)),
            Err(_) => None,
        },
        Some(NumericType::UInt64) => match unsigned_of(v) {
            Ok(x) => Some(IntegerValue::UInt64(x as u64)),
            Err(_) => None,
        },
        None => Some(IntegerValue::Null),
        Some(_) => None,
    }
}

/// The constant a unary operator makes of a constant; `None` where it
/// fails or has no integer value.
pub open spec fn unary_value(op: UnaryOp, v: IntegerValue, nt: Option<Option<NumericType>>) -> Option<
    IntegerValue,
> {
    match nt {
        None => None,
        Some(nt) => if v is Null {
            Some(IntegerValue::Null)
        } else {
            match op {
                UnaryOp::Not => Some(IntegerValue::Boolean(!truth_of(v)->Some_0)),
                UnaryOp::Plus => cast_value(v, nt),
                UnaryOp::Minus => match nt {
                    Some(NumericType::Int64) => match signed_of(v) {
                        Ok(x) => if x == i64::MIN {
                            None
                        } else {
                            Some(IntegerValue::Int64((-x) as i64))
                        },
                        Err(_) => None,
                    },
                    None => Some(IntegerValue::Null),
                    Some(_) => None,
                },
            }
        },
    }
}

/// An integer outcome as a constant.
pub open spec fn outcome_value(outcome: Result<Option<int>, crate::decimal::ExecError>, signed: bool) -> Option<
    IntegerValue,
> {
    match outcome {
        Ok(Some(x)) => if signed {
            Some(IntegerValue::Int64(x as i64))
        } else {
            Some(IntegerValue::UInt64(x as u64))
        },
        Ok(None) => Some(IntegerValue::Null),
        Err(_) => None,
    }
}

/// The constant `a op b` evaluates to; `None` where it fails or has no
/// integer value.
pub open spec fn binary_value(op: BinaryOp, a: IntegerValue, b: IntegerValue, nt: Option<Option<NumericType>>) -> Option<
    IntegerValue,
> {
    if op == BinaryOp::And || op == BinaryOp::Or || op == BinaryOp::Xor {
        match logic_value(op, a, b) {
            Ok(v) => Some(v),
            Err(_) => None,
        }
    } else if is_comparison(op) {
        match comparison_value(op, a, b) {
            Ok(v) => Some(v),
            Err(_) => None,
        }
    } else {
        match nt {
            None => None,
            Some(Some(NumericType::Decimal { .. })) => None,
            Some(nt) => if a is Null || b is Null {
                Some(IntegerValue::Null)
            } else {
                match nt {
                    Some(NumericType::Int64) => match (signed_of(a), signed_of(b)) {
                        (Ok(x), Ok(y)) => outcome_value(integer_arithmetic(op, x, y, i64::MIN as int, i64::MAX as int), true),
                        _ => None,
                    },
                    Some(NumericType::UInt64) => match (unsigned_of(a), unsigned_of(b)) {
                        (Ok(x), Ok(y)) => outcome_value(integer_arithmetic(op, x, y, 0, u64::MAX as int), false),
                        _ => None,
                    },
                    None => Some(IntegerValue::Null),
                    Some(_) => None,
                }
            },
        }
    }
}

/// The constant an expression evaluates to without looking at any row:
/// literals of the integer family and the operators over them.
pub open spec fn raw_constant(e: BoundExpr) -> Option<IntegerValue>
    decreases e,
{
    match e.kind {
        BoundExprKind::Literal(v) => integer_of(v),
        BoundExprKind::Unary { op, expr } => match raw_constant(*expr) {
            Some(v) => unary_value(op, v, numeric_of(e.data_type)),
            None => None,
        },
        BoundExprKind::IsNull { expr, negated } => {
            let known = match expr.kind {
                BoundExprKind::Literal(v) => Some(v is Null),
                _ => match raw_constant(*expr) {
                    Some(v) => Some(v is Null),
                    None => None,
                },
            };
            match known {
                Some(n) => Some(IntegerValue::Boolean(if negated { !n } else { n })),
                None => None,
            }
        },
        BoundExprKind::Binary { op, left, right } => match (raw_constant(*left), raw_constant(*right)) {
            (Some(a), Some(b)) => binary_value(op, a, b, numeric_of(e.data_type)),
            _ => None,
        },
        _ => None,
    }
}

/// Whether an expression is DECIMAL arithmetic, which folding leaves as a
/// tree so the executor sees the whole chain.
pub open spec fn decimal_tree(e: BoundExpr) -> bool {
    &&& e.data_type matches Some(DataType::Decimal { .. })
    &&& e.kind matches BoundExprKind::Binary { op, .. }
    &&& (op == BinaryOp::Add || op == BinaryOp::Subtract || op == BinaryOp::Multiply || op
        == BinaryOp::Divide)
}

/// The definite truth of a constant: NULL has none.
pub open spec fn definite_truth(c: Option<IntegerValue>) -> Option<bool> {
    match c {
        Some(v) => if v is Null {
            None
        } else {
            truth_of(v)
        },
        None => None,
    }
}

/// The constant the folded form of an expression evaluates to.
pub open spec fn folded_constant(e: BoundExpr) -> Option<IntegerValue>
    decreases e, 0nat,
{
    if decimal_tree(e) {
        None
    } else {
        match e.kind {
            BoundExprKind::Literal(v) => integer_of(v),
            BoundExprKind::Unary { op, expr } => match folded_constant(*expr) {
                Some(v) => unary_value(op, v, numeric_of(e.data_type)),
                None => None,
            },
            BoundExprKind::IsNull { expr, negated } => {
                let known = if folded_text(*expr) {
                    Some(false)
                } else {
                    match folded_constant(*expr) {
                        Some(v) => Some(v is Null),
                        None => None,
                    }
                };
                match known {
                    Some(n) => Some(IntegerValue::Boolean(if negated { !n } else { n })),
                    None => None,
                }
            },
            BoundExprKind::Binary { op, left, right } => {
                let logical = op == BinaryOp::Or || op == BinaryOp::And;
                let absorbing = op == BinaryOp::Or;
                let (tl, tr) = (definite_truth(folded_constant(*left)), definite_truth(folded_constant(*right)));
                if logical && (tl == Some(absorbing) || tr == Some(absorbing)) {
                    Some(IntegerValue::Boolean(absorbing))
                } else if logical && tr == Some(!absorbing) && folded_type(*left) == Some(DataType::Boolean) {
                    folded_constant(*left)
                } else if logical && tl == Some(!absorbing) && folded_type(*right) == Some(DataType::Boolean) {
                    folded_constant(*right)
                } else {
                    match (folded_constant(*left), folded_constant(*right)) {
                        (Some(a), Some(b)) => binary_value(op, a, b, numeric_of(e.data_type)),
                        _ => None,
                    }
                }
            },
            _ => None,
        }
    }
}

/// Whether `AND`/`OR` simplification keeps the left operand of a binary
/// node: the right one is the neutral literal and the left one is boolean.
pub open spec fn keeps_left(e: BoundExpr) -> bool
    decreases e, 1nat,
{
    match e.kind {
        BoundExprKind::Binary { op, left, right } => {
            let logical = op == BinaryOp::Or || op == BinaryOp::And;
            let absorbing = op == BinaryOp::Or;
            let (tl, tr) = (definite_truth(folded_constant(*left)), definite_truth(folded_constant(*right)));
            logical && !(tl == Some(absorbing) || tr == Some(absorbing)) && tr == Some(!absorbing)
                && folded_type(*left) == Some(DataType::Boolean)
        },
        _ => false,
    }
}

/// Whether `AND`/`OR` simplification keeps the right operand.
pub open spec fn keeps_right(e: BoundExpr) -> bool
    decreases e, 1nat,
{
    match e.kind {
        BoundExprKind::Binary { op, left, right } => {
            let logical = op == BinaryOp::Or || op == BinaryOp::And;
            let absorbing = op == BinaryOp::Or;
            let (tl, tr) = (definite_truth(folded_constant(*left)), definite_truth(folded_constant(*right)));
            logical && !(tl == Some(absorbing) || tr == Some(absorbing)) && !(tr == Some(!absorbing)
                && folded_type(*left) == Some(DataType::Boolean)) && tl == Some(!absorbing) && folded_type(
                *right,
            ) == Some(DataType::Boolean)
        },
        _ => false,
    }
}

/// Whether the folded form of an expression is a text or byte literal.
pub open spec fn folded_text(e: BoundExpr) -> bool
    decreases e, 2nat,
{
    if decimal_tree(e) {
        false
    } else {
        match e.kind {
            BoundExprKind::Literal(v) => integer_of(v) is None,
            BoundExprKind::Binary { op, left, right } => if folded_constant(e) is Some {
                false
            } else if keeps_left(e) {
                folded_text(*left)
            } else if keeps_right(e) {
                folded_text(*right)
            } else {
                false
            },
            _ => false,
        }
    }
}

/// The declared type of the folded form of an expression.
pub open spec fn folded_type(e: BoundExpr) -> Option<DataType>
    decreases e, 1nat,
{
    if decimal_tree(e) {
        e.data_type
    } else {
        match e.kind {
            BoundExprKind::Binary { op, left, right } => {
                let base = binary_base_type(e);
                match folded_constant(e) {
                    Some(v) => or_type(base, v),
                    None => base,
                }
            },
            BoundExprKind::Unary { .. } | BoundExprKind::IsNull { .. } => match folded_constant(e) {
                Some(v) => or_type(e.data_type, v),
                None => e.data_type,
            },
            _ => e.data_type,
        }
    }
}

/// The type of what `AND`/`OR` simplification leaves of a binary node,
/// before it is evaluated.
pub open spec fn binary_base_type(e: BoundExpr) -> Option<DataType>
    decreases e, 0nat,
{
    match e.kind {
        BoundExprKind::Binary { op, left, right } => {
            let logical = op == BinaryOp::Or || op == BinaryOp::And;
            let absorbing = op == BinaryOp::Or;
            let (tl, tr) = (definite_truth(folded_constant(*left)), definite_truth(folded_constant(*right)));
            if logical && (tl == Some(absorbing) || tr == Some(absorbing)) {
                Some(DataType::Boolean)
            } else if logical && tr == Some(!absorbing) && folded_type(*left) == Some(DataType::Boolean) {
                folded_type(*left)
            } else if logical && tl == Some(!absorbing) && folded_type(*right) == Some(DataType::Boolean) {
                folded_type(*right)
            } else {
                e.data_type
            }
        },
        _ => e.data_type,
    }
}


/// Whether a folded expression is a literal of the integer family and
/// which definite truth it has.
pub open spec fn literal_truth_of(e: BoundExpr) -> Option<bool> {
    match e.kind {
        BoundExprKind::Literal(v) => definite_truth(integer_of(v)),
        _ => None,
    }
}

/// A literal of the integer family, read.
pub(crate) fn integer_literal(v: &Value) -> (r: Option<IntegerValue>)
    ensures
        r == integer_of(*v),
{
    match v {
        Value::Null => Some(IntegerValue::Null),
        Value::Boolean(b) => Some(IntegerValue::Boolean(*b)),
        Value::Int64(x) => Some(IntegerValue::Int64(*x)),
        Value::UInt64(x) => Some(IntegerValue::UInt64(*x)),
        _ => None,
    }
}

/// The literal a constant folds to, at the declared type.
fn make_literal(v: IntegerValue, dt: Option<DataType>) -> (r: BoundExpr)
    ensures
        r == literal_of(v, dt),
        integer_of(value_of(v)) == Some(v),
{
    let (value, own, null) = match v {
        IntegerValue::Null => (Value::Null, None, true),
        IntegerValue::Boolean(b) => (Value::Boolean(b), Some(DataType::Boolean), false),
        IntegerValue::Int64(x) => (Value::Int64(x), Some(DataType::Int64), false),
        IntegerValue::UInt64(x) => (Value::UInt64(x), Some(DataType::UInt64), false),
    };
    let data_type = match dt {
        Some(t) => Some(t),
        None => own,
    };
    BoundExpr { kind: BoundExprKind::Literal(value), data_type, nullable: null }
}

/// The arithmetic type a declared type evaluates at.
pub(crate) fn numeric_type(dt: Option<DataType>) -> (r: Option<Option<NumericType>>)
    ensures
        r == numeric_of(dt),
{
    match dt {
        None => Some(None),
        Some(DataType::Boolean) => Some(Some(NumericType::Boolean)),
        Some(DataType::Int64) => Some(Some(NumericType::Int64)),
        Some(DataType::UInt64) => Some(Some(NumericType::UInt64)),
        Some(DataType::Utf8) => Some(Some(NumericType::Utf8)),
        Some(DataType::Binary) => Some(Some(NumericType::Binary)),
        _ => None,
    }
}

/// An arithmetic result with an integer value, as a constant.
fn integer_result(r: Result<ArithmeticValue, crate::decimal::ExecError>) -> (out: Option<IntegerValue>)
    ensures
        out == match r {
            Ok(ArithmeticValue::Null) => Some(IntegerValue::Null),
            Ok(ArithmeticValue::Boolean(b)) => Some(IntegerValue::Boolean(b)),
            Ok(ArithmeticValue::Int64(x)) => Some(IntegerValue::Int64(x)),
            Ok(ArithmeticValue::UInt64(x)) => Some(IntegerValue::UInt64(x)),
            _ => None::<IntegerValue>,
        },
{
    match r {
        Ok(ArithmeticValue::Null) => Some(IntegerValue::Null),
        Ok(ArithmeticValue::Boolean(b)) => Some(IntegerValue::Boolean(b)),
        Ok(ArithmeticValue::Int64(x)) => Some(IntegerValue::Int64(x)),
        Ok(ArithmeticValue::UInt64(x)) => Some(IntegerValue::UInt64(x)),
        _ => None,
    }
}

/// Evaluates a unary operator over a constant.
pub(crate) fn unary_constant(op: UnaryOp, v: IntegerValue, nt: Option<Option<NumericType>>) -> (r: Option<IntegerValue>)
    ensures
        r == unary_value(op, v, nt),
{
    match nt {
        None => None,
        Some(t) => {
            let out = evaluate_unary(op, &v, t);
            integer_result(out)
        },
    }
}

/// Evaluates a binary operator over two constants.
pub(crate) fn binary_constant(op: BinaryOp, a: IntegerValue, b: IntegerValue, nt: Option<Option<NumericType>>) -> (r: Option<
    IntegerValue,
>)
    ensures
        r == binary_value(op, a, b, nt),
{
    match op {
        BinaryOp::And | BinaryOp::Or | BinaryOp::Xor => match evaluate_logic(op, &a, &b) {
            Ok(v) => Some(v),
            Err(_) => None,
        },
        BinaryOp::Equal | BinaryOp::NotEqual | BinaryOp::Less | BinaryOp::LessOrEqual | BinaryOp::Greater
        | BinaryOp::GreaterOrEqual => match evaluate_comparison(op, &a, &b) {
            Ok(v) => Some(v),
            Err(_) => None,
        },
        _ => match nt {
            None => None,
            Some(Some(NumericType::Decimal { .. })) => None,
            Some(t) => {
                let out = evaluate_arithmetic(op, &a, &b, t);
                integer_result(out)
            },
        },
    }
}

/// The constant an expression evaluates to without a row, if it has one.
pub fn constant_value(e: &BoundExpr) -> (r: Option<IntegerValue>)
    ensures
        r == raw_constant(*e),
    decreases e,
{
    match &e.kind {
        BoundExprKind::Literal(v) => integer_literal(v),
        BoundExprKind::Unary { op, expr } => match constant_value(expr) {
            Some(v) => unary_constant(*op, v, numeric_type(e.data_type)),
            None => None,
        },
        BoundExprKind::IsNull { expr, negated } => {
            let known = match &expr.kind {
                BoundExprKind::Literal(v) => Some(matches!(v, Value::Null)),
                _ => match constant_value(expr) {
                    Some(v) => Some(matches!(v, IntegerValue::Null)),
                    None => None,
                },
            };
            match known {
                Some(n) => Some(IntegerValue::Boolean(if *negated { !n } else { n })),
                None => None,
            }
        },
        BoundExprKind::Binary { op, left, right } => match (constant_value(left), constant_value(right)) {
            (Some(a), Some(b)) => binary_constant(*op, a, b, numeric_type(e.data_type)),
            _ => None,
        },
        _ => None,
    }
}

/// Whether `f` is the folded form of `e`: a subexpression with a constant
/// value becomes that literal; `x OR TRUE` and `x AND FALSE` become the
/// constant, `x OR FALSE` and `x AND TRUE` become boolean `x`; DECIMAL
/// arithmetic, leaves and subqueries stay; every other node keeps its
/// shape over folded operands.
pub open spec fn expr_folded(e: BoundExpr, f: BoundExpr) -> bool
    decreases e,
{
    if decimal_tree(e) {
        f == e
    } else {
        match e.kind {
            BoundExprKind::Unary { op, expr } => match folded_constant(e) {
                Some(v) => f == literal_of(v, e.data_type),
                None => f.data_type == e.data_type && f.nullable == e.nullable && (f.kind matches BoundExprKind::Unary {
                    op: o,
                    expr: c,
                } && o == op && expr_folded(*expr, *c)),
            },
            BoundExprKind::IsNull { expr, negated } => match folded_constant(e) {
                Some(v) => f == literal_of(v, e.data_type),
                None => f.data_type == e.data_type && f.nullable == e.nullable && (f.kind matches BoundExprKind::IsNull {
                    expr: c,
                    negated: n,
                } && n == negated && expr_folded(*expr, *c)),
            },
            BoundExprKind::InSubquery { expr, reads, negated } => f.data_type == e.data_type && f.nullable
                == e.nullable && (f.kind matches BoundExprKind::InSubquery { expr: c, reads: r, negated: n }
                && r == reads && n == negated && expr_folded(*expr, *c)),
            BoundExprKind::Scalar { function, volatile, args } => f.data_type == e.data_type && f.nullable
                == e.nullable && (f.kind matches BoundExprKind::Scalar { function: g, volatile: w, args: a }
                && g == function && w == volatile && a@.len() == args@.len() && forall|i: int|
                0 <= i < args@.len() ==> expr_folded(#[trigger] args@[i], a@[i])),
            BoundExprKind::AggregateCall { function, arg, distinct, declared } => f.data_type == e.data_type
                && f.nullable == e.nullable && (f.kind matches BoundExprKind::AggregateCall {
                function: g,
                arg: a,
                distinct: d,
                declared: c,
            } && g == function && d == distinct && c == declared && match arg {
                Some(x) => a matches Some(y) && expr_folded(*x, *y),
                None => a is None,
            }),
            BoundExprKind::Binary { op, left, right } => match folded_constant(e) {
                Some(v) => f == literal_of(v, binary_base_type(e)),
                None => if keeps_left(e) {
                    expr_folded(*left, f)
                } else if keeps_right(e) {
                    expr_folded(*right, f)
                } else {
                    f.data_type == e.data_type && f.nullable == e.nullable && (f.kind matches BoundExprKind::Binary {
                        op: o,
                        left: l,
                        right: r,
                    } && o == op && expr_folded(*left, *l) && expr_folded(*right, *r))
                },
            },
            _ => f == e,
        }
    }
}

/// Whether an expression is DECIMAL arithmetic.
fn is_decimal_tree(e: &BoundExpr) -> (r: bool)
    ensures
        r == decimal_tree(*e),
{
    let typed = match e.data_type {
        Some(DataType::Decimal { .. }) => true,
        _ => false,
    };
    let arithmetic = match &e.kind {
        BoundExprKind::Binary { op, .. } => match op {
            BinaryOp::Add | BinaryOp::Subtract | BinaryOp::Multiply | BinaryOp::Divide => true,
            _ => false,
        },
        _ => false,
    };
    typed && arithmetic
}

/// The definite truth of a literal of the integer family.
fn literal_truth(e: &BoundExpr) -> (r: Option<bool>)
    ensures
        r == literal_truth_of(*e),
{
    match &e.kind {
        BoundExprKind::Literal(v) => match integer_literal(v) {
            Some(IntegerValue::Null) => None,
            Some(IntegerValue::Boolean(b)) => Some(b),
            Some(IntegerValue::Int64(x)) => Some(x != 0),
            Some(IntegerValue::UInt64(x)) => Some(x != 0),
            None => None,
        },
        _ => None,
    }
}

/// Decides `AND`/`OR` from a constant operand without evaluating the
/// other: the absorbing literal decides it, the neutral literal leaves
/// the other operand where that one is boolean; else the node over both.
fn fold_binary(op: BinaryOp, left: BoundExpr, right: BoundExpr, data_type: Option<DataType>, nullable: bool) -> (r:
    BoundExpr)
    ensures
        ({
            let logical = op == BinaryOp::Or || op == BinaryOp::And;
            let absorbing = op == BinaryOp::Or;
            let (tl, tr) = (literal_truth_of(left), literal_truth_of(right));
            if logical && (tl == Some(absorbing) || tr == Some(absorbing)) {
                r == BoundExpr {
                    kind: BoundExprKind::Literal(Value::Boolean(absorbing)),
                    data_type: Some(DataType::Boolean),
                    nullable: false,
                }
            } else if logical && tr == Some(!absorbing) && left.data_type == Some(DataType::Boolean) {
                r == left
            } else if logical && tl == Some(!absorbing) && right.data_type == Some(DataType::Boolean) {
                r == right
            } else {
                r == BoundExpr {
                    kind: BoundExprKind::Binary { op, left: Box::new(left), right: Box::new(right) },
                    data_type,
                    nullable,
                }
            }
        }),
{
    let logical = match op {
        BinaryOp::Or | BinaryOp::And => true,
        _ => false,
    };
    let absorbing = match op {
        BinaryOp::Or => true,
        _ => false,
    };
    if logical {
        let tl = literal_truth(&left);
        let tr = literal_truth(&right);
        if tl == Some(absorbing) || tr == Some(absorbing) {
            return BoundExpr {
                kind: BoundExprKind::Literal(Value::Boolean(absorbing)),
                data_type: Some(DataType::Boolean),
                nullable: false,
            };
        }
        let left_boolean = match left.data_type {
            Some(DataType::Boolean) => true,
            _ => false,
        };
        let right_boolean = match right.data_type {
            Some(DataType::Boolean) => true,
            _ => false,
        };
        if tr == Some(!absorbing) && left_boolean {
            return left;
        }
        if tl == Some(!absorbing) && right_boolean {
            return right;
        }
    }
    BoundExpr { kind: BoundExprKind::Binary { op, left: Box::new(left), right: Box::new(right) }, data_type, nullable }
}

/// A node replaced by the literal it evaluates to, where it has one.
fn settle(node: BoundExpr) -> (r: BoundExpr)
    ensures
        match raw_constant(node) {
            Some(v) => r == literal_of(v, node.data_type),
            None => r == node,
        },
        raw_constant(r) == raw_constant(node),
        raw_constant(node) is Some ==> (r.kind matches BoundExprKind::Literal(w) && integer_of(w) is Some),
        literal_truth_of(r) == (match raw_constant(node) {
            Some(v) => definite_truth(Some(v)),
            None => literal_truth_of(node),
        }),
{
    match constant_value(&node) {
        Some(v) => make_literal(v, node.data_type),
        None => node,
    }
}

/// Folds every expression of a list.
fn fold_each(items: Vec<BoundExpr>) -> (r: Vec<BoundExpr>)
    ensures
        r@.len() == items@.len(),
        forall|i: int| 0 <= i < items@.len() ==> expr_folded(#[trigger] items@[i], r@[i]),
    decreases items, 0nat,
{
    let ghost source = items@;
    let mut rest = items;
    let total = rest.len();
    let mut out: Vec<BoundExpr> = Vec::new();
    let mut k: usize = 0;
    while rest.len() > 0
        invariant
            source == items@,
            total == source.len(),
            k + rest@.len() == source.len(),
            rest@ == source.subrange(k as int, source.len() as int),
            out@.len() == k,
            forall|i: int| 0 <= i < k ==> expr_folded(#[trigger] source[i], out@[i]),
        decreases rest@.len(),
    {
        let item = rest.remove(0);
        proof {
            assert(item == source[k as int]);
            assert(decreases_to!(items => items@));
            assert(decreases_to!(items@ => items@[k as int]));
        }
        let done = fold_expr(item);
        out.push(done);
        proof {
            assert(rest@ =~= source.subrange(k + 1, source.len() as int));
        }
        k = k + 1;
    }
    out
}

/// Folds the constant subexpressions of an expression.
#[verifier::spinoff_prover]
pub fn fold_expr(e: BoundExpr) -> (r: BoundExpr)
    ensures
        expr_folded(e, r),
        raw_constant(r) == folded_constant(e),
        r.data_type == folded_type(e),
        literal_truth_of(r) == definite_truth(folded_constant(e)),
        (r.kind matches BoundExprKind::Literal(w) && integer_of(w) is None) == folded_text(e),
        folded_constant(e) is Some ==> r.kind is Literal,
    decreases e, 1nat,
{
    if is_decimal_tree(&e) {
        return e;
    }
    let ghost whole = e;
    let BoundExpr { kind, data_type, nullable } = e;
    match kind {
        BoundExprKind::Unary { op, expr } => {
            let c = fold_expr(*expr);
            settle(BoundExpr { kind: BoundExprKind::Unary { op, expr: Box::new(c) }, data_type, nullable })
        },
        BoundExprKind::IsNull { expr, negated } => {
            let c = fold_expr(*expr);
            settle(BoundExpr { kind: BoundExprKind::IsNull { expr: Box::new(c), negated }, data_type, nullable })
        },
        BoundExprKind::Binary { op, left, right } => {
            let cl = fold_expr(*left);
            let cr = fold_expr(*right);
            let folded = fold_binary(op, cl, cr, data_type, nullable);
            let r = settle(folded);
            assert(raw_constant(r) == folded_constant(whole));
            assert(r.data_type == folded_type(whole));
            assert(literal_truth_of(r) == definite_truth(folded_constant(whole)));
            assert(expr_folded(whole, r));
            assert((r.kind matches BoundExprKind::Literal(w) && integer_of(w) is None) == folded_text(whole));
            r
        },
        BoundExprKind::InSubquery { expr, reads, negated } => {
            let c = fold_expr(*expr);
            BoundExpr { kind: BoundExprKind::InSubquery { expr: Box::new(c), reads, negated }, data_type, nullable }
        },
        BoundExprKind::Scalar { function, volatile, args } => {
            let folded_args = fold_each(args);
            BoundExpr { kind: BoundExprKind::Scalar { function, volatile, args: folded_args }, data_type, nullable }
        },
        BoundExprKind::AggregateCall { function, arg, distinct, declared } => {
            let folded_arg = match arg {
                Some(a) => Some(Box::new(fold_expr(*a))),
                None => None,
            };
            BoundExpr {
                kind: BoundExprKind::AggregateCall { function, arg: folded_arg, distinct, declared },
                data_type,
                nullable,
            }
        },
        other => BoundExpr { kind: other, data_type, nullable },
    }
}

/// What a filter whose predicate folds to a constant does with its rows:
/// a true constant keeps them all, a false or NULL one none; `None` where
/// the predicate is no constant.
pub open spec fn filter_truth(predicate: BoundExpr) -> Option<bool> {
    match folded_constant(predicate) {
        Some(v) => Some(
            match truth_of(v) {
                Some(b) => b,
                None => false,
            },
        ),
        None => None,
    }
}

/// Whether `f` is `p` with the constants of every expression folded: a
/// filter on a true constant gives way to its input, one on a false or
/// NULL constant becomes `LIMIT 0` over it, which answers no row and keeps
/// the input's columns; scans, derived columns, sort keys and limits stay.
pub open spec fn constants_folded(p: LogicalPlan<BoundExpr>, f: LogicalPlan<BoundExpr>) -> bool
    decreases p,
{
    match p {
        LogicalPlan::Empty => f is Empty,
        LogicalPlan::OneRow => f is OneRow,
        LogicalPlan::Scan(_) => f == p,
        LogicalPlan::Derived { input, columns } => f matches LogicalPlan::Derived { input: fi, columns: fc }
            && fc == columns && constants_folded(*input, *fi),
        LogicalPlan::CrossJoin { inputs } => f matches LogicalPlan::CrossJoin { inputs: fs } && fs@.len()
            == inputs@.len() && forall|i: int|
            0 <= i < inputs@.len() ==> constants_folded(#[trigger] inputs@[i], fs@[i]),
        LogicalPlan::UnionAll { inputs } => f matches LogicalPlan::UnionAll { inputs: fs } && fs@.len()
            == inputs@.len() && forall|i: int|
            0 <= i < inputs@.len() ==> constants_folded(#[trigger] inputs@[i], fs@[i]),
        LogicalPlan::Join { left, right, kind, condition } => f matches LogicalPlan::Join {
            left: fl,
            right: fr,
            kind: fk,
            condition: fc,
        } && fk == kind && constants_folded(*left, *fl) && constants_folded(*right, *fr) && match condition {
            Some(c) => fc matches Some(d) && expr_folded(c, d),
            None => fc is None,
        },
        LogicalPlan::Filter { input, predicate } => match filter_truth(predicate) {
            Some(true) => constants_folded(*input, f),
            Some(false) => f matches LogicalPlan::Limit { input: fi, limit } && limit == BoundLimit {
                offset: 0,
                count: 0,
            } && constants_folded(*input, *fi),
            None => f matches LogicalPlan::Filter { input: fi, predicate: fp } && constants_folded(*input, *fi)
                && expr_folded(predicate, fp),
        },
        LogicalPlan::Project { input, expressions } => f matches LogicalPlan::Project {
            input: fi,
            expressions: fe,
        } && constants_folded(*input, *fi) && fe@.len() == expressions@.len() && forall|i: int|
            0 <= i < expressions@.len() ==> (#[trigger] fe@[i]).name == expressions@[i].name && expr_folded(
                expressions@[i].expr,
                fe@[i].expr,
            ),
        LogicalPlan::Aggregate { input, group_by, aggregates } => f matches LogicalPlan::Aggregate {
            input: fi,
            group_by: fg,
            aggregates: fa,
        } && constants_folded(*input, *fi) && fg@.len() == group_by@.len() && fa@.len() == aggregates@.len()
            && (forall|i: int| 0 <= i < group_by@.len() ==> expr_folded(#[trigger] group_by@[i], fg@[i]))
            && (forall|i: int| 0 <= i < aggregates@.len() ==> expr_folded(#[trigger] aggregates@[i], fa@[i])),
        LogicalPlan::Distinct { input } => f matches LogicalPlan::Distinct { input: fi } && constants_folded(
            *input,
            *fi,
        ),
        LogicalPlan::Sort { input, keys } => f matches LogicalPlan::Sort { input: fi, keys: fk } && fk == keys
            && constants_folded(*input, *fi),
        LogicalPlan::Limit { input, limit } => f matches LogicalPlan::Limit { input: fi, limit: fl } && fl
            == limit && constants_folded(*input, *fi),
    }
}

/// Folds the expression of every projection, keeping its name.
fn fold_projections(items: Vec<Projection<BoundExpr>>) -> (r: Vec<Projection<BoundExpr>>)
    ensures
        r@.len() == items@.len(),
        forall|i: int|
            0 <= i < items@.len() ==> (#[trigger] r@[i]).name == items@[i].name && expr_folded(
                items@[i].expr,
                r@[i].expr,
            ),
{
    let ghost source = items@;
    let mut rest = items;
    let total = rest.len();
    let mut out: Vec<Projection<BoundExpr>> = Vec::new();
    let mut k: usize = 0;
    while rest.len() > 0
        invariant
            source == items@,
            total == source.len(),
            k + rest@.len() == source.len(),
            rest@ == source.subrange(k as int, source.len() as int),
            out@.len() == k,
            forall|i: int|
                0 <= i < k ==> (#[trigger] out@[i]).name == source[i].name && expr_folded(
                    source[i].expr,
                    out@[i].expr,
                ),
        decreases rest@.len(),
    {
        let item = rest.remove(0);
        proof {
            assert(item == source[k as int]);
        }
        let Projection { name, expr } = item;
        let done = fold_expr(expr);
        out.push(Projection { name, expr: done });
        proof {
            assert(rest@ =~= source.subrange(k + 1, source.len() as int));
        }
        k = k + 1;
    }
    out
}

/// Folds the constants of every plan of a list.
fn fold_each_plan(inputs: Vec<LogicalPlan<BoundExpr>>) -> (r: Vec<LogicalPlan<BoundExpr>>)
    ensures
        r@.len() == inputs@.len(),
        forall|i: int| 0 <= i < inputs@.len() ==> constants_folded(#[trigger] inputs@[i], r@[i]),
    decreases inputs, 0nat,
{
    let ghost source = inputs@;
    let mut rest = inputs;
    let total = rest.len();
    let mut out: Vec<LogicalPlan<BoundExpr>> = Vec::new();
    let mut k: usize = 0;
    while rest.len() > 0
        invariant
            source == inputs@,
            total == source.len(),
            k + rest@.len() == source.len(),
            rest@ == source.subrange(k as int, source.len() as int),
            out@.len() == k,
            forall|i: int| 0 <= i < k ==> constants_folded(#[trigger] source[i], out@[i]),
        decreases rest@.len(),
    {
        let item = rest.remove(0);
        proof {
            assert(item == source[k as int]);
            assert(decreases_to!(inputs => inputs@));
            assert(decreases_to!(inputs@ => inputs@[k as int]));
        }
        let done = fold_constants(item);
        out.push(done);
        proof {
            assert(rest@ =~= source.subrange(k + 1, source.len() as int));
        }
        k = k + 1;
    }
    out
}

/// Folds the constants of every expression of a plan, and settles the
/// filters whose predicate folds to a constant.
pub fn fold_constants(plan: LogicalPlan<BoundExpr>) -> (r: LogicalPlan<BoundExpr>)
    ensures
        constants_folded(plan, r),
    decreases plan, 1nat,
{
    match plan {
        LogicalPlan::Empty => LogicalPlan::Empty,
        LogicalPlan::OneRow => LogicalPlan::OneRow,
        LogicalPlan::Scan(scan) => LogicalPlan::Scan(scan),
        LogicalPlan::Derived { input, columns } => LogicalPlan::Derived {
            input: Box::new(fold_constants(*input)),
            columns,
        },
        LogicalPlan::CrossJoin { inputs } => LogicalPlan::CrossJoin { inputs: fold_each_plan(inputs) },
        LogicalPlan::UnionAll { inputs } => LogicalPlan::UnionAll { inputs: fold_each_plan(inputs) },
        LogicalPlan::Join { left, right, kind, condition } => {
            let fl = fold_constants(*left);
            let fr = fold_constants(*right);
            let fc = match condition {
                Some(c) => Some(fold_expr(c)),
                None => None,
            };
            LogicalPlan::Join { left: Box::new(fl), right: Box::new(fr), kind, condition: fc }
        },
        LogicalPlan::Filter { input, predicate } => {
            let fi = fold_constants(*input);
            let fp = fold_expr(predicate);
            let truth = match &fp.kind {
                BoundExprKind::Literal(v) => match integer_literal(v) {
                    Some(IntegerValue::Null) => Some(false),
                    Some(IntegerValue::Boolean(b)) => Some(b),
                    Some(IntegerValue::Int64(x)) => Some(x != 0),
                    Some(IntegerValue::UInt64(x)) => Some(x != 0),
                    None => None,
                },
                _ => None,
            };
            match truth {
                Some(true) => fi,
                Some(false) => LogicalPlan::Limit { input: Box::new(fi), limit: BoundLimit { offset: 0, count: 0 } },
                None => LogicalPlan::Filter { input: Box::new(fi), predicate: fp },
            }
        },
        LogicalPlan::Project { input, expressions } => {
            let fi = fold_constants(*input);
            LogicalPlan::Project { input: Box::new(fi), expressions: fold_projections(expressions) }
        },
        LogicalPlan::Aggregate { input, group_by, aggregates } => {
            let fi = fold_constants(*input);
            LogicalPlan::Aggregate {
                input: Box::new(fi),
                group_by: fold_each(group_by),
                aggregates: fold_each(aggregates),
            }
        },
        LogicalPlan::Distinct { input } => LogicalPlan::Distinct { input: Box::new(fold_constants(*input)) },
        LogicalPlan::Sort { input, keys } => LogicalPlan::Sort { input: Box::new(fold_constants(*input)), keys },
        LogicalPlan::Limit { input, limit } => LogicalPlan::Limit {
            input: Box::new(fold_constants(*input)),
            limit,
        },
    }
}

/// Whether every boolean-typed subexpression that has a constant value has
/// a truth value or NULL, as the binder types them.
pub open spec fn booleans_typed(e: BoundExpr) -> bool
    decreases e,
{
    &&& (e.data_type == Some(DataType::Boolean) ==> match raw_constant(e) {
        Some(v) => v is Null || v is Boolean,
        None => true,
    })
    &&& match e.kind {
        BoundExprKind::Unary { expr, .. } => booleans_typed(*expr),
        BoundExprKind::IsNull { expr, .. } => booleans_typed(*expr),
        BoundExprKind::Binary { left, right, .. } => booleans_typed(*left) && booleans_typed(*right),
        _ => true,
    }
}

/// A boolean-typed folded form of a constant holds a truth value or NULL.
proof fn lemma_boolean_folded(x: BoundExpr)
    requires
        booleans_typed(x),
        raw_constant(x) is Some,
        folded_constant(x) == raw_constant(x),
        folded_type(x) == Some(DataType::Boolean),
    ensures
        raw_constant(x) matches Some(v) && (v is Null || v is Boolean),
{
    let v = raw_constant(x)->Some_0;
    if !decimal_tree(x) {
        match x.kind {
            BoundExprKind::Binary { op, left, right } => {
                if !(op == BinaryOp::Or || op == BinaryOp::And) {
                    assert(binary_base_type(x) == x.data_type);
                }
            },
            _ => {},
        }
    }
}

/// Folding keeps the value of every expression that has a constant value:
/// the folded form evaluates to what the expression evaluates to.
pub proof fn law_fold_keeps_constant_values(e: BoundExpr)
    requires
        booleans_typed(e),
        raw_constant(e) is Some,
    ensures
        folded_constant(e) == raw_constant(e),
    decreases e,
{
    if decimal_tree(e) {
        return;
    }
    match e.kind {
        BoundExprKind::Unary { op, expr } => {
            law_fold_keeps_constant_values(*expr);
            assert(folded_constant(e) == raw_constant(e));
        },
        BoundExprKind::IsNull { expr, negated } => {
            match expr.kind {
                BoundExprKind::Literal(v) => {
                    assert(folded_text(*expr) == (integer_of(v) is None));
                    assert(folded_constant(*expr) == integer_of(v));
                },
                _ => {
                    law_fold_keeps_constant_values(*expr);
                    assert(folded_constant(*expr) is Some);
                    assert(!folded_text(*expr));
                },
            }
            assert(folded_constant(e) == raw_constant(e));
        },
        BoundExprKind::Binary { op, left, right } => {
            law_fold_keeps_constant_values(*left);
            law_fold_keeps_constant_values(*right);
            let a = raw_constant(*left)->Some_0;
            let b = raw_constant(*right)->Some_0;
            if op == BinaryOp::Or || op == BinaryOp::And {
                let absorbing = op == BinaryOp::Or;
                let (tl, tr) = (definite_truth(folded_constant(*left)), definite_truth(folded_constant(*right)));
                if tr == Some(!absorbing) && folded_type(*left) == Some(DataType::Boolean) {
                    lemma_boolean_folded(*left);
                }
                if tl == Some(!absorbing) && folded_type(*right) == Some(DataType::Boolean) {
                    lemma_boolean_folded(*right);
                }
                assert(folded_constant(e) == raw_constant(e));
            } else {
                assert(folded_constant(e) == raw_constant(e));
            }
        },
        _ => {},
    }
}

} // verus!
