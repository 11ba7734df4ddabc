//! Laws of MySQL's comparisons and three-valued logic, stated over the
//! spec functions that the evaluators' contracts use.
use crate::compare::{
    between_value, comparison_value, in_list_hit, in_list_null, in_list_value, is_comparison,
    logic_value, mirrored, not_value, numeric_value, packed_selection, BinaryOp,
    DataType, IntegerValue, TypedValues, Value,
};
use crate::decimal::ExecError;
use vstd::prelude::*;

verus! {

/// Swapping the operands of a comparison and mirroring its operator gives
/// the same answer, NULLs included; mirroring twice is the identity.
pub proof fn law_mirror_comparison(op: BinaryOp, left: IntegerValue, right: IntegerValue)
    requires
        is_comparison(op),
    ensures
        comparison_value(mirrored(op), right, left) == comparison_value(op, left, right),
        mirrored(mirrored(op)) == op,
        is_comparison(mirrored(op)),
{
}

/// AND, OR and XOR do not depend on the order of their operands.
pub proof fn law_logic_commutes(op: BinaryOp, left: IntegerValue, right: IntegerValue)
    ensures
        logic_value(op, left, right) == logic_value(op, right, left),
{
}

/// De Morgan holds in three-valued logic: NOT (a AND b) is (NOT a) OR
/// (NOT b), and NOT (a OR b) is (NOT a) AND (NOT b).
pub proof fn law_de_morgan(left: IntegerValue, right: IntegerValue)
    ensures
        logic_value(BinaryOp::And, left, right) is Ok,
        logic_value(BinaryOp::Or, left, right) is Ok,
        logic_value(BinaryOp::Or, not_value(left), not_value(right)) == Ok::<IntegerValue, ExecError>(
            not_value(logic_value(BinaryOp::And, left, right)->Ok_0),
        ),
        logic_value(BinaryOp::And, not_value(left), not_value(right)) == Ok::<IntegerValue, ExecError>(
            not_value(logic_value(BinaryOp::Or, left, right)->Ok_0),
        ),
{
}

/// FALSE AND anything is FALSE, TRUE OR anything is TRUE, even NULL; XOR
/// with NULL and any comparison with NULL are NULL.
pub proof fn law_null_dominance(op: BinaryOp, other: IntegerValue)
    ensures
        logic_value(BinaryOp::And, IntegerValue::Boolean(false), other) == Ok::<IntegerValue, ExecError>(
            IntegerValue::Boolean(false),
        ),
        logic_value(BinaryOp::Or, IntegerValue::Boolean(true), other) == Ok::<IntegerValue, ExecError>(
            IntegerValue::Boolean(true),
        ),
        logic_value(BinaryOp::Xor, IntegerValue::Null, other) == Ok::<IntegerValue, ExecError>(
            IntegerValue::Null,
        ),
        comparison_value(op, IntegerValue::Null, other) == Ok::<IntegerValue, ExecError>(
            IntegerValue::Null,
        ),
        comparison_value(op, other, IntegerValue::Null) == Ok::<IntegerValue, ExecError>(
            IntegerValue::Null,
        ),
{
}

/// `x BETWEEN low AND high` is `x >= low AND x <= high`, and `NOT BETWEEN`
/// is its negation, NULL staying NULL.
pub proof fn law_between(value: IntegerValue, low: IntegerValue, high: IntegerValue)
    ensures
        comparison_value(BinaryOp::GreaterOrEqual, value, low) is Ok,
        comparison_value(BinaryOp::LessOrEqual, value, high) is Ok,
        logic_value(
            BinaryOp::And,
            comparison_value(BinaryOp::GreaterOrEqual, value, low)->Ok_0,
            comparison_value(BinaryOp::LessOrEqual, value, high)->Ok_0,
        ) == Ok::<IntegerValue, ExecError>(between_value(value, low, high, false)),
        between_value(value, low, high, true) == not_value(between_value(value, low, high, false)),
{
}

/// `x NOT IN (...)` is the negation of `x IN (...)`, NULL staying NULL.
pub proof fn law_not_in(values: Seq<IntegerValue>)
    requires
        values.len() >= 1,
    ensures
        in_list_value(values, true) == not_value(in_list_value(values, false)),
{
}

/// `x IN (y)` is `x = y`.
pub proof fn law_in_single(value: IntegerValue, candidate: IntegerValue)
    ensures
        comparison_value(BinaryOp::Equal, value, candidate) is Ok,
        in_list_value(seq![value, candidate], false) == comparison_value(
            BinaryOp::Equal,
            value,
            candidate,
        )->Ok_0,
{
    let s = seq![value, candidate];
    if !(value is Null) && !(candidate is Null) && numeric_value(candidate) == numeric_value(value) {
        assert(in_list_hit(s)) by {
            assert(s[1] == candidate);
        }
    }
    if candidate is Null {
        assert(in_list_null(s)) by {
            assert(s[1] == candidate);
        }
    }
}

/// Over the rows a packed kernel decides, `column <> literal` selects
/// exactly the non-NULL rows that `column = literal` leaves out.
pub proof fn law_not_equal_selection(
    typed: TypedValues,
    validity: Seq<bool>,
    logical_type: DataType,
    literal: Value,
    i: int,
)
    requires
        packed_selection(typed, validity, logical_type, BinaryOp::Equal, literal) is Some,
        0 <= i < packed_selection(typed, validity, logical_type, BinaryOp::Equal, literal)->Some_0.len(),
    ensures
        packed_selection(typed, validity, logical_type, BinaryOp::NotEqual, literal) is Some,
        packed_selection(typed, validity, logical_type, BinaryOp::NotEqual, literal)->Some_0.len()
            == packed_selection(typed, validity, logical_type, BinaryOp::Equal, literal)->Some_0.len(),
        packed_selection(typed, validity, logical_type, BinaryOp::NotEqual, literal)->Some_0[i]
            == (validity[i] && !packed_selection(
            typed,
            validity,
            logical_type,
            BinaryOp::Equal,
            literal,
        )->Some_0[i]),
{
}

/// A packed kernel never selects a row that the validity marks NULL.
pub proof fn law_selection_skips_nulls(
    typed: TypedValues,
    validity: Seq<bool>,
    logical_type: DataType,
    op: BinaryOp,
    literal: Value,
    i: int,
)
    requires
        packed_selection(typed, validity, logical_type, op, literal) is Some,
        0 <= i < packed_selection(typed, validity, logical_type, op, literal)->Some_0.len(),
        !validity[i],
    ensures
        !packed_selection(typed, validity, logical_type, op, literal)->Some_0[i],
{
}

} // verus!
