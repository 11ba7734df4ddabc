//! Column-at-a-time evaluation: an expression over the integer-family
//! columns of a batch, computed one whole column per node. Each cell it
//! produces is the value the row-at-a-time evaluation gives that row; a
//! node that some row cannot evaluate here declines the whole column,
//! which is then left to the row path.
use crate::arithmetic::UnaryOp;
use crate::compare::{BinaryOp, DataType, IntegerValue, Value};
use crate::constant_fold::{
    binary_constant, binary_value, integer_literal, integer_of, numeric_of, numeric_type, unary_constant,
    unary_value,
};
use vstd::prelude::*;

verus! {

/// An expression compiled against a batch's columns.
pub enum VectorExpr {
    /// A column of the batch, by index.
    Column(usize),
    Literal(Value),
    IsNull { expr: Box<VectorExpr>, negated: bool },
    Unary { op: UnaryOp, expr: Box<VectorExpr>, data_type: Option<DataType> },
    Binary { op: BinaryOp, left: Box<VectorExpr>, right: Box<VectorExpr>, data_type: Option<DataType> },
}

/// The value of an expression on one row; `None` where the row cannot be
/// evaluated here (an error, a missing column, a non-integer literal).
pub open spec fn row_value(e: VectorExpr, row: Seq<IntegerValue>) -> Option<IntegerValue>
    decreases e,
{
    match e {
        VectorExpr::Column(i) => if i < row.len() {
            Some(row[i as int])
        } else {
            None
        },
        VectorExpr::Literal(v) => integer_of(v),
        VectorExpr::IsNull { expr, negated } => match row_value(*expr, row) {
            Some(v) => Some(IntegerValue::Boolean(if negated { !(v is Null) } else { v is Null })),
            None => None,
        },
        VectorExpr::Unary { op, expr, data_type } => match row_value(*expr, row) {
            Some(v) => unary_value(op, v, numeric_of(data_type)),
            None => None,
        },
        VectorExpr::Binary { op, left, right, data_type } => match (row_value(*left, row), row_value(*right, row)) {
            (Some(a), Some(b)) => binary_value(op, a, b, numeric_of(data_type)),
            _ => None,
        },
    }
}

/// Row `r` of a batch held as columns.
pub open spec fn row_of(columns: Seq<Vec<IntegerValue>>, r: int) -> Seq<IntegerValue> {
    Seq::new(columns.len(), |c: int| columns[c]@[r])
}

/// Whether every column of a batch holds `rows` cells.
pub open spec fn batch_rows(columns: Seq<Vec<IntegerValue>>, rows: nat) -> bool {
    forall|c: int| 0 <= c < columns.len() ==> (#[trigger] columns[c])@.len() == rows
}

/// Whether `cells` is the column of `e` over the batch: one cell per row,
/// each the row's value.
pub open spec fn column_of(e: VectorExpr, columns: Seq<Vec<IntegerValue>>, rows: nat, cells: Seq<IntegerValue>) -> bool {
    cells.len() == rows && forall|r: int| 0 <= r < rows ==> Some(#[trigger] cells[r]) == row_value(e, row_of(columns, r))
}

/// Whether some row of the batch cannot evaluate `e` here.
pub open spec fn declined(e: VectorExpr, columns: Seq<Vec<IntegerValue>>, rows: nat) -> bool {
    exists|r: int| 0 <= r < rows && (#[trigger] row_value(e, row_of(columns, r))) is None
}

/// Evaluates an expression over a whole batch, one column per node: the
/// column of its values, or `None` where some row cannot be evaluated
/// here.
pub fn kernel(expr: &VectorExpr, columns: &Vec<Vec<IntegerValue>>, rows: usize) -> (out: Option<Vec<IntegerValue>>)
    requires
        batch_rows(columns@, rows as nat),
    ensures
        match out {
            Some(cells) => column_of(*expr, columns@, rows as nat, cells@),
            None => declined(*expr, columns@, rows as nat),
        },
    decreases expr,
{
    match expr {
        VectorExpr::Column(index) => {
            if *index >= columns.len() {
                if rows == 0 {
                    return Some(Vec::new());
                }
                assert(row_value(*expr, row_of(columns@, 0)) is None);
                return None;
            }
            let source = &columns[*index];
            let mut cells: Vec<IntegerValue> = Vec::new();
            let mut r: usize = 0;
            while r < rows
                invariant
                    r <= rows,
                    source@.len() == rows,
                    *index < columns@.len(),
                    *source == columns@[*index as int],
                    *expr == VectorExpr::Column(*index),
                    cells@.len() == r,
                    forall|k: int| 0 <= k < r ==> Some(#[trigger] cells@[k]) == row_value(*expr, row_of(columns@, k)),
                decreases rows - r,
            {
                cells.push(source[r]);
                proof {
                    assert(row_of(columns@, r as int)[*index as int] == source@[r as int]);
                }
                r = r + 1;
            }
            Some(cells)
        },
        VectorExpr::Literal(v) => match integer_literal(v) {
            Some(value) => {
                let mut cells: Vec<IntegerValue> = Vec::new();
                let mut r: usize = 0;
                while r < rows
                    invariant
                        r <= rows,
                        integer_of(*v) == Some(value),
                        cells@.len() == r,
                        forall|k: int| 0 <= k < r ==> #[trigger] cells@[k] == value,
                    decreases rows - r,
                {
                    cells.push(value);
                    r = r + 1;
                }
                Some(cells)
            },
            None => {
                if rows == 0 {
                    return Some(Vec::new());
                }
                assert(row_value(*expr, row_of(columns@, 0)) is None);
                None
            },
        },
        VectorExpr::IsNull { expr: child, negated } => {
            let inner = match kernel(child, columns, rows) {
                Some(c) => c,
                None => {
                    proof {
                        let r = choose|r: int| 0 <= r < rows && (#[trigger] row_value(**child, row_of(columns@, r))) is None;
                        assert(row_value(*expr, row_of(columns@, r)) is None);
                    }
                    return None;
                },
            };
            let mut cells: Vec<IntegerValue> = Vec::new();
            let mut r: usize = 0;
            while r < rows
                invariant
                    r <= rows,
                    *expr == (VectorExpr::IsNull { expr: *child, negated: *negated }),
                    column_of(**child, columns@, rows as nat, inner@),
                    cells@.len() == r,
                    forall|k: int| 0 <= k < r ==> Some(#[trigger] cells@[k]) == row_value(*expr, row_of(columns@, k)),
                decreases rows - r,
            {
                let v = inner[r];
                assert(Some(inner@[r as int]) == row_value(**child, row_of(columns@, r as int)));
                let is_null = match v {
                    IntegerValue::Null => true,
                    _ => false,
                };
                cells.push(IntegerValue::Boolean(if *negated { !is_null } else { is_null }));
                r = r + 1;
            }
            Some(cells)
        },
        VectorExpr::Unary { op, expr: child, data_type } => {
            let inner = match kernel(child, columns, rows) {
                Some(c) => c,
                None => {
                    proof {
                        let r = choose|r: int| 0 <= r < rows && (#[trigger] row_value(**child, row_of(columns@, r))) is None;
                        assert(row_value(*expr, row_of(columns@, r)) is None);
                    }
                    return None;
                },
            };
            let nt = numeric_type(*data_type);
            let mut cells: Vec<IntegerValue> = Vec::new();
            let mut r: usize = 0;
            while r < rows
                invariant
                    r <= rows,
                    nt == numeric_of(*data_type),
                    *expr == (VectorExpr::Unary { op: *op, expr: *child, data_type: *data_type }),
                    column_of(**child, columns@, rows as nat, inner@),
                    cells@.len() == r,
                    forall|k: int| 0 <= k < r ==> Some(#[trigger] cells@[k]) == row_value(*expr, row_of(columns@, k)),
                decreases rows - r,
            {
                assert(Some(inner@[r as int]) == row_value(**child, row_of(columns@, r as int)));
                match unary_constant(*op, inner[r], nt) {
                    Some(c) => cells.push(c),
                    None => {
                        assert(row_value(*expr, row_of(columns@, r as int)) is None);
                        return None;
                    },
                }
                r = r + 1;
            }
            Some(cells)
        },
        VectorExpr::Binary { op, left, right, data_type } => {
            let lv = match kernel(left, columns, rows) {
                Some(c) => c,
                None => {
                    proof {
                        let r = choose|r: int| 0 <= r < rows && (#[trigger] row_value(**left, row_of(columns@, r))) is None;
                        assert(row_value(*expr, row_of(columns@, r)) is None);
                    }
                    return None;
                },
            };
            let rv = match kernel(right, columns, rows) {
                Some(c) => c,
                None => {
                    proof {
                        let r = choose|r: int| 0 <= r < rows && (#[trigger] row_value(**right, row_of(columns@, r))) is None;
                        assert(Some(lv@[r]) == row_value(**left, row_of(columns@, r)));
                        assert(row_value(*expr, row_of(columns@, r)) is None);
                    }
                    return None;
                },
            };
            let nt = numeric_type(*data_type);
            let mut cells: Vec<IntegerValue> = Vec::new();
            let mut r: usize = 0;
            while r < rows
                invariant
                    r <= rows,
                    nt == numeric_of(*data_type),
                    *expr == (VectorExpr::Binary { op: *op, left: *left, right: *right, data_type: *data_type }),
                    column_of(**left, columns@, rows as nat, lv@),
                    column_of(**right, columns@, rows as nat, rv@),
                    cells@.len() == r,
                    forall|k: int| 0 <= k < r ==> Some(#[trigger] cells@[k]) == row_value(*expr, row_of(columns@, k)),
                decreases rows - r,
            {
                assert(Some(lv@[r as int]) == row_value(**left, row_of(columns@, r as int)));
                assert(Some(rv@[r as int]) == row_value(**right, row_of(columns@, r as int)));
                match binary_constant(*op, lv[r], rv[r], nt) {
                    Some(c) => cells.push(c),
                    None => {
                        assert(row_value(*expr, row_of(columns@, r as int)) is None);
                        return None;
                    },
                }
                r = r + 1;
            }
            Some(cells)
        },
    }
}

} // verus!
