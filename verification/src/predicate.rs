//! Filter predicates answered straight from a row's values: comparisons
//! and `BETWEEN` of columns and literals, joined by `AND` and `OR`, without
//! building an intermediate value per node. Any other shape is declined
//! and left to full evaluation.
use crate::compare::{
    comparison_truth, holds, is_comparison, kleene_and, kleene_not, kleene_or, mirrored,
    numeric_value, packed_selection, sign_of, truth_of, typed_comparison_mask, typed_len,
    BinaryOp, DataType, IntegerValue, TypedValues, Value,
};
use vstd::prelude::*;

verus! {

/// The shapes of a compiled predicate that direct evaluation reads.
pub enum CompiledPredicate {
    /// A column of the input row.
    Column(usize),
    Literal(Value),
    Binary { op: BinaryOp, left: Box<CompiledPredicate>, right: Box<CompiledPredicate> },
    /// `value [NOT] BETWEEN low AND high`.
    Between {
        negated: bool,
        value: Box<CompiledPredicate>,
        low: Box<CompiledPredicate>,
        high: Box<CompiledPredicate>,
    },
    /// Any other expression (a function call, arithmetic, ...).
    Opaque,
}

/// A literal of the integer family as such; text and bytes compare under
/// a collation and are not read here.
pub open spec fn integer_literal(v: Value) -> Option<IntegerValue> {
    match v {
        Value::Null => Some(IntegerValue::Null),
        Value::Boolean(b) => Some(IntegerValue::Boolean(b)),
        Value::Int64(x) => Some(IntegerValue::Int64(x)),
        Value::UInt64(x) => Some(IntegerValue::UInt64(x)),
        _ => None,
    }
}

/// A leaf's value: a column of the row, or an integer-family literal.
pub open spec fn leaf_value(e: CompiledPredicate, row: Seq<IntegerValue>) -> Option<IntegerValue> {
    match e {
        CompiledPredicate::Column(i) => if i < row.len() {
            Some(row[i as int])
        } else {
            None
        },
        CompiledPredicate::Literal(v) => integer_literal(v),
        _ => None,
    }
}

/// What direct evaluation answers: `Some(true)` where the row passes the
/// filter, `Some(false)` where it does not, `None` where the shape is
/// declined. A comparison with NULL does not pass, nor does a `BETWEEN`
/// with a NULL operand.
pub open spec fn direct_truth(e: CompiledPredicate, row: Seq<IntegerValue>) -> Option<bool>
    decreases e,
{
    match e {
        CompiledPredicate::Binary { op, left, right } => if op == BinaryOp::And {
            match (direct_truth(*left, row), direct_truth(*right, row)) {
                (Some(a), Some(b)) => Some(a && b),
                _ => None,
            }
        } else if op == BinaryOp::Or {
            match (direct_truth(*left, row), direct_truth(*right, row)) {
                (Some(a), Some(b)) => Some(a || b),
                _ => None,
            }
        } else if is_comparison(op) {
            match (leaf_value(*left, row), leaf_value(*right, row)) {
                (Some(x), Some(y)) => Some(comparison_truth(op, x, y) == Some(true)),
                _ => None,
            }
        } else {
            None
        },
        CompiledPredicate::Between { negated, value, low, high } => match (
            leaf_value(*value, row),
            leaf_value(*low, row),
            leaf_value(*high, row),
        ) {
            (Some(x), Some(lo), Some(hi)) => if x is Null || lo is Null || hi is Null {
                Some(false)
            } else {
                let inside = holds(BinaryOp::GreaterOrEqual, sign_of(numeric_value(x) - numeric_value(lo)))
                    && holds(BinaryOp::LessOrEqual, sign_of(numeric_value(x) - numeric_value(hi)));
                Some(if negated { !inside } else { inside })
            },
            _ => None,
        },
        _ => None,
    }
}

impl CompiledPredicate {
    /// A leaf's value in the row, if this is a leaf it reads.
    fn direct_value(&self, row: &[IntegerValue]) -> (r: Option<IntegerValue>)
        ensures
            r == leaf_value(*self, row@),
    {
        match self {
            CompiledPredicate::Column(index) => if *index < row.len() {
                Some(row[*index])
            } else {
                None
            },
            CompiledPredicate::Literal(value) => match value {
                Value::Null => Some(IntegerValue::Null),
                Value::Boolean(b) => Some(IntegerValue::Boolean(*b)),
                Value::Int64(x) => Some(IntegerValue::Int64(*x)),
                Value::UInt64(x) => Some(IntegerValue::UInt64(*x)),
                _ => None,
            },
            _ => None,
        }
    }

    /// Answers a filter predicate for one row straight from the values it
    /// reads, or declines (`None`).
    pub fn evaluate_predicate_direct(&self, row: &[IntegerValue]) -> (r: Option<bool>)
        ensures
            r == direct_truth(*self, row@),
        decreases self,
    {
        match self {
            CompiledPredicate::Binary { op, left, right } => {
                if *op == BinaryOp::And {
                    match (left.evaluate_predicate_direct(row), right.evaluate_predicate_direct(row)) {
                        (Some(a), Some(b)) => Some(a && b),
                        _ => None,
                    }
                } else if *op == BinaryOp::Or {
                    match (left.evaluate_predicate_direct(row), right.evaluate_predicate_direct(row)) {
                        (Some(a), Some(b)) => Some(a || b),
                        _ => None,
                    }
                } else if matches!(
                    op,
                    BinaryOp::Equal | BinaryOp::NotEqual | BinaryOp::Less | BinaryOp::LessOrEqual
                        | BinaryOp::Greater | BinaryOp::GreaterOrEqual
                ) {
                    match (left.direct_value(row), right.direct_value(row)) {
                        (Some(x), Some(y)) => match crate::compare::evaluate_comparison(*op, &x, &y) {
                            Ok(IntegerValue::Boolean(b)) => Some(b),
                            _ => Some(false),
                        },
                        _ => None,
                    }
                } else {
                    None
                }
            },
            CompiledPredicate::Between { negated, value, low, high } => {
                match (value.direct_value(row), low.direct_value(row), high.direct_value(row)) {
                    (Some(x), Some(lo), Some(hi)) => {
                        if matches!(x, IntegerValue::Null) || matches!(lo, IntegerValue::Null)
                            || matches!(hi, IntegerValue::Null) {
                            return Some(false);
                        }
                        let lower = matches!(
                            crate::compare::evaluate_comparison(BinaryOp::GreaterOrEqual, &x, &lo),
                            Ok(IntegerValue::Boolean(true))
                        );
                        let upper = matches!(
                            crate::compare::evaluate_comparison(BinaryOp::LessOrEqual, &x, &hi),
                            Ok(IntegerValue::Boolean(true))
                        );
                        let inside = lower && upper;
                        Some(if *negated { !inside } else { inside })
                    },
                    _ => None,
                }
            },
            _ => None,
        }
    }
}

/// The three-valued truth of a predicate (`None` is NULL): comparisons
/// with NULL are NULL, `AND` and `OR` are Kleene's, `BETWEEN` is the
/// conjunction of its bounds' comparisons, a column or literal is its own
/// truth.
pub open spec fn kleene_truth(e: CompiledPredicate, row: Seq<IntegerValue>) -> Option<bool>
    decreases e,
{
    match e {
        CompiledPredicate::Column(_) | CompiledPredicate::Literal(_) => match leaf_value(e, row) {
            Some(v) => truth_of(v),
            None => None,
        },
        CompiledPredicate::Binary { op, left, right } => if op == BinaryOp::And {
            kleene_and(kleene_truth(*left, row), kleene_truth(*right, row))
        } else if op == BinaryOp::Or {
            kleene_or(kleene_truth(*left, row), kleene_truth(*right, row))
        } else {
            match (leaf_value(*left, row), leaf_value(*right, row)) {
                (Some(x), Some(y)) => comparison_truth(op, x, y),
                _ => None,
            }
        },
        CompiledPredicate::Between { negated, value, low, high } => match (
            leaf_value(*value, row),
            leaf_value(*low, row),
            leaf_value(*high, row),
        ) {
            (Some(x), Some(lo), Some(hi)) => {
                let t = kleene_and(
                    comparison_truth(BinaryOp::GreaterOrEqual, x, lo),
                    comparison_truth(BinaryOp::LessOrEqual, x, hi),
                );
                if negated { kleene_not(t) } else { t }
            },
            _ => None,
        },
        CompiledPredicate::Opaque => None,
    }
}

/// Whether the predicate holds a `NOT BETWEEN` of a non-NULL value with
/// one NULL bound while the other bound's comparison is false: there
/// three-valued logic makes `NOT BETWEEN` true, and direct evaluation,
/// which fails any `BETWEEN` with a NULL operand, answers false.
pub open spec fn null_bound_not_between(e: CompiledPredicate, row: Seq<IntegerValue>) -> bool
    decreases e,
{
    match e {
        CompiledPredicate::Binary { op, left, right } => (op == BinaryOp::And || op == BinaryOp::Or)
            && (null_bound_not_between(*left, row) || null_bound_not_between(*right, row)),
        CompiledPredicate::Between { negated, value, low, high } => negated && match (
            leaf_value(*value, row),
            leaf_value(*low, row),
            leaf_value(*high, row),
        ) {
            (Some(x), Some(lo), Some(hi)) => !(x is Null) && ((lo is Null && !(hi is Null)
                && comparison_truth(BinaryOp::LessOrEqual, x, hi) == Some(false)) || (hi is Null
                && !(lo is Null) && comparison_truth(BinaryOp::GreaterOrEqual, x, lo) == Some(
                false,
            ))),
            _ => false,
        },
        _ => false,
    }
}

/// Where direct evaluation answers, a row passes exactly when the
/// predicate is TRUE in three-valued logic, NULL failing like FALSE; the
/// one exception is a `NOT BETWEEN` with a NULL bound that three-valued
/// logic makes true (`null_bound_not_between`), which direct evaluation
/// fails.
pub proof fn law_direct_predicate_is_filter_truth(e: CompiledPredicate, row: Seq<IntegerValue>)
    requires
        direct_truth(e, row) is Some,
        !null_bound_not_between(e, row),
    ensures
        direct_truth(e, row) == Some(kleene_truth(e, row) == Some(true)),
    decreases e,
{
    match e {
        CompiledPredicate::Binary { op, left, right } => {
            if op == BinaryOp::And || op == BinaryOp::Or {
                law_direct_predicate_is_filter_truth(*left, row);
                law_direct_predicate_is_filter_truth(*right, row);
            }
        },
        _ => {},
    }
}

/// A column of a record batch: its logical type, its packed values where
/// it has them, and which of its rows are not NULL.
pub struct ColumnVector {
    pub data_type: DataType,
    pub packed: Option<TypedValues>,
    pub validity: Vec<bool>,
}

/// Whether a batch's columns agree on their row count, packed values
/// included.
pub open spec fn batch_wf(columns: Seq<ColumnVector>) -> bool {
    forall|i: int, j: int|
        0 <= i < columns.len() && 0 <= j < columns.len() ==> (#[trigger] columns[i]).validity@.len()
            == (#[trigger] columns[j]).validity@.len() && (columns[i].packed matches Some(t)
            ==> typed_len(t) == columns[i].validity@.len())
}

/// The selection of `column op literal` over one packed column, where a
/// packed kernel decides it.
pub open spec fn column_selection(columns: Seq<ColumnVector>, index: usize, op: BinaryOp, literal: Value) -> Option<Seq<bool>> {
    if index < columns.len() {
        match columns[index as int].packed {
            Some(t) => packed_selection(
                t,
                columns[index as int].validity@,
                columns[index as int].data_type,
                op,
                literal,
            ),
            None => None,
        }
    } else {
        None
    }
}

/// Rows two selections both keep.
pub open spec fn both(a: Seq<bool>, b: Seq<bool>) -> Seq<bool> {
    Seq::new(a.len(), |i: int| a[i] && b[i])
}

/// The batch-wide selection of a predicate where packed kernels decide
/// it: a comparison of a column with a literal (a literal on the left
/// mirrors the comparison), `BETWEEN` of a column and two literals, and
/// conjunctions of these; `None` elsewhere, for row-at-a-time evaluation.
pub open spec fn filter_selection(e: CompiledPredicate, columns: Seq<ColumnVector>) -> Option<Seq<bool>>
    decreases e,
{
    match e {
        CompiledPredicate::Binary { op, left, right } => if op == BinaryOp::And {
            match (filter_selection(*left, columns), filter_selection(*right, columns)) {
                (Some(a), Some(b)) => Some(both(a, b)),
                _ => None,
            }
        } else if is_comparison(op) {
            match (*left, *right) {
                (CompiledPredicate::Column(i), CompiledPredicate::Literal(v)) => column_selection(
                    columns,
                    i,
                    op,
                    v,
                ),
                (CompiledPredicate::Literal(v), CompiledPredicate::Column(i)) => column_selection(
                    columns,
                    i,
                    mirrored(op),
                    v,
                ),
                _ => None,
            }
        } else {
            None
        },
        CompiledPredicate::Between { negated, value, low, high } => if negated {
            None
        } else {
            match (*value, *low, *high) {
                (
                    CompiledPredicate::Column(i),
                    CompiledPredicate::Literal(lo),
                    CompiledPredicate::Literal(hi),
                ) => match (
                    column_selection(columns, i, BinaryOp::GreaterOrEqual, lo),
                    column_selection(columns, i, BinaryOp::LessOrEqual, hi),
                ) {
                    (Some(a), Some(b)) => Some(both(a, b)),
                    _ => None,
                },
                _ => None,
            }
        },
        _ => None,
    }
}

/// The rows both selections keep.
fn intersect(a: Vec<bool>, b: &Vec<bool>) -> (r: Vec<bool>)
    requires
        a@.len() == b@.len(),
    ensures
        r@ == both(a@, b@),
{
    let mut out: Vec<bool> = Vec::new();
    let mut i: usize = 0;
    while i < a.len()
        invariant
            i <= a@.len(),
            a@.len() == b@.len(),
            out@ == both(a@, b@).subrange(0, i as int),
        decreases a@.len() - i,
    {
        out.push(a[i] && b[i]);
        i = i + 1;
        assert(out@ =~= both(a@, b@).subrange(0, i as int));
    }
    assert(both(a@, b@).subrange(0, i as int) =~= both(a@, b@));
    out
}

/// The selection one packed column makes.
fn column_mask(columns: &[ColumnVector], index: usize, op: BinaryOp, literal: &Value) -> (r: Option<Vec<bool>>)
    requires
        batch_wf(columns@),
    ensures
        match r {
            Some(m) => column_selection(columns@, index, op, *literal) == Some(m@),
            None => column_selection(columns@, index, op, *literal) is None,
        },
        r matches Some(m) ==> (index < columns@.len() && m@.len() == columns@[index as int].validity@.len()),
{
    if index >= columns.len() {
        return None;
    }
    let column = &columns[index];
    proof {
        assert(columns@[index as int] == *column);
    }
    match &column.packed {
        Some(typed) => typed_comparison_mask(typed, &column.validity, column.data_type, op, literal),
        None => None,
    }
}

/// The length every selection over the batch has.
pub open spec fn selection_len(columns: Seq<ColumnVector>, m: Seq<bool>) -> bool {
    forall|i: int| 0 <= i < columns.len() ==> m.len() == #[trigger] columns[i].validity@.len()
}

impl CompiledPredicate {
    /// Evaluates a filter predicate over a whole batch with packed kernels,
    /// where its shape and the columns' packed types allow (see
    /// `filter_selection`); `None` sends it to row-at-a-time evaluation.
    pub fn evaluate_filter_mask(&self, columns: &[ColumnVector]) -> (r: Option<Vec<bool>>)
        requires
            batch_wf(columns@),
        ensures
            match r {
                Some(m) => filter_selection(*self, columns@) == Some(m@) && selection_len(columns@, m@),
                None => filter_selection(*self, columns@) is None,
            },
        decreases self,
    {
        match self {
            CompiledPredicate::Binary { op, left, right } => {
                if *op == BinaryOp::And {
                    match (left.evaluate_filter_mask(columns), right.evaluate_filter_mask(columns)) {
                        (Some(a), Some(b)) => {
                            proof {
                                assert(columns@.len() > 0 ==> a@.len() == columns@[0].validity@.len());
                                if columns@.len() == 0 {
                                    assert(false) by {
                                        assert(filter_selection(**left, columns@) is Some);
                                        lemma_selection_needs_a_column(**left, columns@);
                                    }
                                }
                            }
                            let m = intersect(a, &b);
                            Some(m)
                        },
                        _ => None,
                    }
                } else if matches!(
                    op,
                    BinaryOp::Equal | BinaryOp::NotEqual | BinaryOp::Less | BinaryOp::LessOrEqual
                        | BinaryOp::Greater | BinaryOp::GreaterOrEqual
                ) {
                    match (&**left, &**right) {
                        (CompiledPredicate::Column(index), CompiledPredicate::Literal(value)) => {
                            let r = column_mask(columns, *index, *op, value);
                            proof {
                                if r is Some {
                                    let m = r->Some_0;
                                    assert forall|i: int| 0 <= i < columns@.len() implies m@.len()
                                        == #[trigger] columns@[i].validity@.len() by {
                                        assert(columns@[*index as int].validity@.len()
                                            == columns@[i].validity@.len());
                                    }
                                }
                            }
                            r
                        },
                        (CompiledPredicate::Literal(value), CompiledPredicate::Column(index)) => {
                            let r = column_mask(columns, *index, crate::compare::mirror_comparison(*op), value);
                            proof {
                                if r is Some {
                                    let m = r->Some_0;
                                    assert forall|i: int| 0 <= i < columns@.len() implies m@.len()
                                        == #[trigger] columns@[i].validity@.len() by {
                                        assert(columns@[*index as int].validity@.len()
                                            == columns@[i].validity@.len());
                                    }
                                }
                            }
                            r
                        },
                        _ => None,
                    }
                } else {
                    None
                }
            },
            CompiledPredicate::Between { negated, value, low, high } => {
                if *negated {
                    return None;
                }
                match (&**value, &**low, &**high) {
                    (
                        CompiledPredicate::Column(index),
                        CompiledPredicate::Literal(lo),
                        CompiledPredicate::Literal(hi),
                    ) => {
                        match (
                            column_mask(columns, *index, BinaryOp::GreaterOrEqual, lo),
                            column_mask(columns, *index, BinaryOp::LessOrEqual, hi),
                        ) {
                            (Some(a), Some(b)) => {
                                let m = intersect(a, &b);
                                proof {
                                    assert forall|i: int| 0 <= i < columns@.len() implies m@.len()
                                        == #[trigger] columns@[i].validity@.len() by {
                                        assert(columns@[*index as int].validity@.len()
                                            == columns@[i].validity@.len());
                                    }
                                }
                                Some(m)
                            },
                            _ => None,
                        }
                    },
                    _ => None,
                }
            },
            _ => None,
        }
    }
}

/// A selection exists only over a batch with at least one column.
proof fn lemma_selection_needs_a_column(e: CompiledPredicate, columns: Seq<ColumnVector>)
    requires
        filter_selection(e, columns) is Some,
    ensures
        columns.len() > 0,
    decreases e,
{
    match e {
        CompiledPredicate::Binary { op, left, right } => {
            if op == BinaryOp::And {
                lemma_selection_needs_a_column(*left, columns);
            }
        },
        _ => {},
    }
}

} // verus!
