//! Join inference and ordering: a filter over a cross join becomes a tree
//! of inner joins, merging first the linked pair whose join costs least,
//! each on the equalities that link it; what links nothing stays a
//! product and what no join takes stays in the filter.
use crate::bound_expr::{
    and_expr, collect_expr_tables, column_key, conjuncts, expr_tables, key_of_column, split_conjunction,
    BoundExpr, BoundExprKind, ColumnKey, TableKey,
};
use crate::compare::BinaryOp;
use crate::logical::{plan_rows, scan_rows, BoundColumn, BoundJoinKind, LogicalPlan};
use crate::optimizer::{order_cross_join_inputs, sorted_by_estimate};
use crate::pushdown::{and_all, contains_table, plan_contains, residual_filter};
use vstd::prelude::*;

verus! {

/// Whether an expression may answer differently on two evaluations of one
/// row. A shape this walk does not know counts as volatile.
pub open spec fn is_volatile(e: BoundExpr) -> bool
    decreases e,
{
    match e.kind {
        BoundExprKind::Scalar { volatile, args, .. } => {
            proof {
                assert(decreases_to!(e => e.kind));
                assert(decreases_to!(e.kind => e.kind->Scalar_args));
                assert(decreases_to!(e.kind->Scalar_args => e.kind->Scalar_args@));
            }
            volatile || args_volatile(args@)
        },
        BoundExprKind::PreparedIn { expr, .. } => is_volatile(*expr),
        BoundExprKind::Unary { expr, .. } => is_volatile(*expr),
        BoundExprKind::IsNull { expr, .. } => is_volatile(*expr),
        BoundExprKind::Binary { left, right, .. } => is_volatile(*left) || is_volatile(*right),
        BoundExprKind::Column(_) | BoundExprKind::Literal(_) => false,
        _ => true,
    }
}

/// Whether some argument is volatile.
pub open spec fn args_volatile(args: Seq<BoundExpr>) -> bool
    decreases args,
{
    if args.len() == 0 {
        false
    } else {
        proof {
            assert(decreases_to!(args => args[args.len() - 1]));
            assert(decreases_to!(args => args.subrange(0, args.len() - 1)));
        }
        args_volatile(args.subrange(0, args.len() - 1)) || is_volatile(args[args.len() - 1])
    }
}

/// A list is volatile when one of its prefixes is.
proof fn lemma_args_volatile_prefix(s: Seq<BoundExpr>, n: int)
    requires
        0 <= n <= s.len(),
        args_volatile(s.subrange(0, n)),
    ensures
        args_volatile(s),
    decreases s.len() - n,
{
    if n < s.len() {
        let t = s.subrange(0, n + 1);
        assert(t.subrange(0, t.len() - 1) =~= s.subrange(0, n));
        lemma_args_volatile_prefix(s, n + 1);
    } else {
        assert(s.subrange(0, n) =~= s);
    }
}

/// Whether an expression may answer differently on two evaluations of one
/// row.
pub fn expression_is_volatile(expr: &BoundExpr) -> (r: bool)
    ensures
        r == is_volatile(*expr),
    decreases expr,
{
    match &expr.kind {
        BoundExprKind::Scalar { volatile, args, .. } => {
            if *volatile {
                return true;
            }
            let mut i: usize = 0;
            while i < args.len()
                invariant
                    i <= args@.len(),
                    expr.kind == (BoundExprKind::Scalar {
                        function: expr.kind->Scalar_function,
                        volatile: expr.kind->Scalar_volatile,
                        args: *args,
                    }),
                    !args_volatile(args@.subrange(0, i as int)),
                decreases args@.len() - i,
            {
                proof {
                    assert(decreases_to!(*expr => expr.kind));
                    assert(decreases_to!(expr.kind => expr.kind->Scalar_args));
                    assert(decreases_to!(expr.kind->Scalar_args => args@));
                    assert(decreases_to!(args@ => args@[i as int]));
                    assert(args@.subrange(0, i + 1).subrange(0, i as int) =~= args@.subrange(0, i as int));
                }
                if expression_is_volatile(&args[i]) {
                    proof {
                        let prefix = args@.subrange(0, i + 1);
                        assert(prefix.subrange(0, prefix.len() - 1) =~= args@.subrange(0, i as int));
                        assert(prefix[prefix.len() - 1] == args@[i as int]);
                        lemma_args_volatile_prefix(args@, i + 1);
                    }
                    return true;
                }
                i = i + 1;
            }
            assert(args@.subrange(0, args@.len() as int) =~= args@);
            false
        },
        BoundExprKind::PreparedIn { expr: inner, .. } => expression_is_volatile(inner),
        BoundExprKind::Unary { expr: inner, .. } => expression_is_volatile(inner),
        BoundExprKind::IsNull { expr: inner, .. } => expression_is_volatile(inner),
        BoundExprKind::Binary { left, right, .. } => expression_is_volatile(left) || expression_is_volatile(right),
        BoundExprKind::Column(_) | BoundExprKind::Literal(_) => false,
        _ => true,
    }
}

/// Whether every relation in `ts` is read by `p`.
pub open spec fn all_read_by(ts: Seq<TableKey>, p: LogicalPlan<BoundExpr>) -> bool {
    forall|i: int| 0 <= i < ts.len() ==> plan_contains(p, #[trigger] ts[i])
}

/// The side of a join whose relations alone an operand names:
/// `Some(false)` the left, `Some(true)` the right, `None` when it names
/// none, or relations both or neither side reads alone.
pub open spec fn operand_side(
    e: BoundExpr,
    left: LogicalPlan<BoundExpr>,
    right: LogicalPlan<BoundExpr>,
) -> Option<bool> {
    let ts = expr_tables(e);
    if ts.len() == 0 {
        None
    } else if all_read_by(ts, left) && !all_read_by(ts, right) {
        Some(false)
    } else if !all_read_by(ts, left) && all_read_by(ts, right) {
        Some(true)
    } else {
        None
    }
}

/// Whether a conjunct can be the condition of a join between `left` and
/// `right`: an equality of two non-volatile operands, each naming the
/// relations of one side, the two sides different.
pub open spec fn links(c: BoundExpr, left: LogicalPlan<BoundExpr>, right: LogicalPlan<BoundExpr>) -> bool {
    match c.kind {
        BoundExprKind::Binary { op, left: lhs, right: rhs } => op == BinaryOp::Equal && !is_volatile(*lhs)
            && !is_volatile(*rhs) && operand_side(*lhs, left, right) is Some && operand_side(*rhs, left, right)
            is Some && operand_side(*lhs, left, right) != operand_side(*rhs, left, right),
        _ => false,
    }
}

/// Whether every relation in `tables` is read by `plan`.
fn all_in(tables: &Vec<TableKey>, plan: &LogicalPlan<BoundExpr>) -> (r: bool)
    ensures
        r == all_read_by(tables@, *plan),
{
    let mut i: usize = 0;
    while i < tables.len()
        invariant
            i <= tables@.len(),
            forall|j: int| 0 <= j < i ==> plan_contains(*plan, #[trigger] tables@[j]),
        decreases tables@.len() - i,
    {
        if !contains_table(plan, &tables[i]) {
            return false;
        }
        i = i + 1;
    }
    true
}

/// The side of a join an operand names alone.
fn side_of(
    expr: &BoundExpr,
    left: &LogicalPlan<BoundExpr>,
    right: &LogicalPlan<BoundExpr>,
) -> (r: Option<bool>)
    ensures
        r == operand_side(*expr, *left, *right),
{
    let mut tables: Vec<TableKey> = Vec::new();
    collect_expr_tables(expr, &mut tables);
    assert(tables@ =~= expr_tables(*expr));
    if tables.len() == 0 {
        return None;
    }
    let in_left = all_in(&tables, left);
    let in_right = all_in(&tables, right);
    if in_left && !in_right {
        Some(false)
    } else if !in_left && in_right {
        Some(true)
    } else {
        None
    }
}

/// Whether a conjunct can be the condition of a join between two inputs.
pub fn joins_two_sides(
    conjunct: &BoundExpr,
    left: &LogicalPlan<BoundExpr>,
    right: &LogicalPlan<BoundExpr>,
) -> (r: bool)
    ensures
        r == links(*conjunct, *left, *right),
{
    match &conjunct.kind {
        BoundExprKind::Binary { op, left: lhs, right: rhs } => {
            if *op != BinaryOp::Equal {
                return false;
            }
            if expression_is_volatile(lhs) || expression_is_volatile(rhs) {
                return false;
            }
            let a = side_of(lhs, left, right);
            let b = side_of(rhs, left, right);
            match (a, b) {
                (Some(x), Some(y)) => x != y,
                _ => false,
            }
        },
        _ => false,
    }
}

/// The columns of a table that make up its key, in column order.
pub open spec fn key_columns(columns: Seq<BoundColumn>, ids: Seq<u32>) -> Seq<ColumnKey>
    decreases columns.len(),
{
    if columns.len() == 0 {
        seq![]
    } else {
        let kept = key_columns(columns.drop_last(), ids);
        if ids.contains(columns.last().column_id) {
            kept.push(column_key(columns.last()))
        } else {
            kept
        }
    }
}

/// The columns compared by the column-to-column equalities of a
/// conjunction.
pub open spec fn eq_columns(e: BoundExpr) -> Seq<ColumnKey>
    decreases e,
{
    match e.kind {
        BoundExprKind::Binary { op, left, right } => if op == BinaryOp::And {
            eq_columns(*left) + eq_columns(*right)
        } else if op == BinaryOp::Equal && left.kind is Column && right.kind is Column {
            seq![column_key(left.kind->Column_0), column_key(right.kind->Column_0)]
        } else {
            seq![]
        },
        _ => seq![],
    }
}

/// The columns compared by the equalities of a list of conditions.
pub open spec fn equality_columns(cs: Seq<BoundExpr>) -> Seq<ColumnKey>
    decreases cs.len(),
{
    if cs.len() == 0 {
        seq![]
    } else {
        equality_columns(cs.drop_last()) + eq_columns(cs.last())
    }
}

/// Whether every column of a key is among `columns`.
pub open spec fn covered(key: Seq<ColumnKey>, columns: Seq<ColumnKey>) -> bool {
    forall|j: int| 0 <= j < key.len() ==> columns.contains(#[trigger] key[j])
}

/// Whether one of the keys is covered by `columns`.
pub open spec fn key_covered(keys: Seq<Seq<ColumnKey>>, columns: Seq<ColumnKey>) -> bool {
    exists|i: int| 0 <= i < keys.len() && covered(#[trigger] keys[i], columns)
}

/// `a * b`, saturating at `u64::MAX`.
pub open spec fn sat_mul_u64(a: u64, b: u64) -> u64 {
    if a * b > u64::MAX {
        u64::MAX
    } else {
        (a * b) as u64
    }
}

/// A row estimate, or `u64::MAX` where there is none.
pub open spec fn rows_or_max(rows: Option<u64>) -> u64 {
    match rows {
        Some(r) => r,
        None => u64::MAX,
    }
}

/// The cost hint of joining two inputs on equalities over `columns`: a
/// join onto a key keeps the other side's rows and its keys.
pub open spec fn joined_cost(
    left: (u64, Seq<Seq<ColumnKey>>),
    right: (u64, Seq<Seq<ColumnKey>>),
    columns: Seq<ColumnKey>,
) -> (u64, Seq<Seq<ColumnKey>>) {
    let left_key = key_covered(left.1, columns);
    let right_key = key_covered(right.1, columns);
    let rows = if left_key && right_key {
        if left.0 < right.0 {
            left.0
        } else {
            right.0
        }
    } else if left_key {
        right.0
    } else if right_key {
        left.0
    } else {
        sat_mul_u64(left.0, right.0)
    };
    let keys = (if right_key {
        left.1
    } else {
        seq![]
    }) + (if left_key {
        right.1
    } else {
        seq![]
    });
    (rows, keys)
}

/// The cost hint of a plan: the rows it is guessed to produce and the
/// column sets known to identify its rows. It chooses a join order only.
pub open spec fn join_cost(p: LogicalPlan<BoundExpr>) -> (u64, Seq<Seq<ColumnKey>>)
    decreases p,
{
    match p {
        LogicalPlan::Scan(scan) => {
            let key = key_columns(scan.table.columns@, scan.table.key_column_ids@);
            (rows_or_max(scan_rows(scan)), if key.len() == 0 {
                seq![]
            } else {
                seq![key]
            })
        },
        LogicalPlan::Filter { input, .. } => join_cost(*input),
        LogicalPlan::Sort { input, .. } => join_cost(*input),
        LogicalPlan::Join { left, right, kind, condition } => if kind == BoundJoinKind::Inner && condition is Some {
            joined_cost(join_cost(*left), join_cost(*right), eq_columns(condition->0))
        } else {
            (rows_or_max(plan_rows(p)), seq![])
        },
        _ => (rows_or_max(plan_rows(p)), seq![]),
    }
}

/// A cost hint: guessed rows and the column sets that identify them.
pub struct JoinCost {
    pub rows: u64,
    pub keys: Vec<Vec<ColumnKey>>,
}

/// A cost hint's rows and keys as values.
pub open spec fn cost_view(c: JoinCost) -> (u64, Seq<Seq<ColumnKey>>) {
    (c.rows, c.keys@.map_values(|k: Vec<ColumnKey>| k@))
}

/// A copy of a list of columns.
fn copy_columns(columns: &Vec<ColumnKey>) -> (r: Vec<ColumnKey>)
    ensures
        r@ == columns@,
{
    let mut out: Vec<ColumnKey> = Vec::new();
    let mut i: usize = 0;
    while i < columns.len()
        invariant
            i <= columns@.len(),
            out@ == columns@.subrange(0, i as int),
        decreases columns@.len() - i,
    {
        out.push(columns[i]);
        i = i + 1;
        assert(out@ =~= columns@.subrange(0, i as int));
    }
    assert(columns@.subrange(0, columns@.len() as int) =~= columns@);
    out
}

/// Whether `id` is among `ids`.
fn has_id(ids: &Vec<u32>, id: u32) -> (r: bool)
    ensures
        r == ids@.contains(id),
{
    let mut i: usize = 0;
    while i < ids.len()
        invariant
            i <= ids@.len(),
            forall|j: int| 0 <= j < i ==> #[trigger] ids@[j] != id,
        decreases ids@.len() - i,
    {
        if ids[i] == id {
            return true;
        }
        i = i + 1;
    }
    false
}

/// The key columns of a table.
fn key_columns_of(columns: &Vec<BoundColumn>, ids: &Vec<u32>) -> (r: Vec<ColumnKey>)
    ensures
        r@ == key_columns(columns@, ids@),
{
    let mut out: Vec<ColumnKey> = Vec::new();
    let mut i: usize = 0;
    while i < columns.len()
        invariant
            i <= columns@.len(),
            out@ == key_columns(columns@.take(i as int), ids@),
        decreases columns@.len() - i,
    {
        let c = columns[i];
        if has_id(ids, c.column_id) {
            out.push(key_of_column(&c));
        }
        i = i + 1;
        assert(columns@.take(i as int).drop_last() =~= columns@.take(i - 1));
    }
    assert(columns@.take(columns@.len() as int) =~= columns@);
    out
}

/// Appends the columns compared by a conjunction's equalities to `out`.
fn collect_eq_columns(e: &BoundExpr, out: &mut Vec<ColumnKey>)
    ensures
        final(out)@ == old(out)@ + eq_columns(*e),
    decreases e,
{
    let ghost start = out@;
    match &e.kind {
        BoundExprKind::Binary { op, left, right } => {
            if *op == BinaryOp::And {
                collect_eq_columns(left, out);
                collect_eq_columns(right, out);
                assert(out@ =~= start + eq_columns(*e));
            } else if *op == BinaryOp::Equal {
                match (&left.kind, &right.kind) {
                    (BoundExprKind::Column(a), BoundExprKind::Column(b)) => {
                        out.push(key_of_column(a));
                        out.push(key_of_column(b));
                        assert(out@ =~= start + eq_columns(*e));
                    },
                    _ => {
                        assert(out@ =~= start + eq_columns(*e));
                    },
                }
            } else {
                assert(out@ =~= start + eq_columns(*e));
            }
        },
        _ => {
            assert(out@ =~= start + eq_columns(*e));
        },
    }
}

/// Whether every column of `key` is among `columns`.
fn is_covered(key: &Vec<ColumnKey>, columns: &Vec<ColumnKey>) -> (r: bool)
    ensures
        r == covered(key@, columns@),
{
    let mut j: usize = 0;
    while j < key.len()
        invariant
            j <= key@.len(),
            forall|x: int| 0 <= x < j ==> columns@.contains(#[trigger] key@[x]),
        decreases key@.len() - j,
    {
        let c = key[j];
        let mut found = false;
        let mut i: usize = 0;
        while i < columns.len()
            invariant
                i <= columns@.len(),
                found == (exists|y: int| 0 <= y < i && columns@[y] == c),
            decreases columns@.len() - i,
        {
            if columns[i] == c {
                found = true;
            }
            i = i + 1;
        }
        if !found {
            assert(!columns@.contains(key@[j as int]));
            return false;
        }
        j = j + 1;
    }
    true
}

/// Whether one of the keys is covered by `columns`.
fn is_key_covered(keys: &Vec<Vec<ColumnKey>>, columns: &Vec<ColumnKey>) -> (r: bool)
    ensures
        r == key_covered(keys@.map_values(|k: Vec<ColumnKey>| k@), columns@),
{
    let ghost views = keys@.map_values(|k: Vec<ColumnKey>| k@);
    let mut i: usize = 0;
    while i < keys.len()
        invariant
            i <= keys@.len(),
            views == keys@.map_values(|k: Vec<ColumnKey>| k@),
            forall|x: int| 0 <= x < i ==> !covered(#[trigger] views[x], columns@),
        decreases keys@.len() - i,
    {
        if is_covered(&keys[i], columns) {
            assert(covered(views[i as int], columns@));
            return true;
        }
        i = i + 1;
    }
    false
}

/// The keys of a cost hint, copied onto the end of `out`.
fn extend_keys(out: &mut Vec<Vec<ColumnKey>>, keys: &Vec<Vec<ColumnKey>>)
    ensures
        final(out)@.map_values(|k: Vec<ColumnKey>| k@) == old(out)@.map_values(|k: Vec<ColumnKey>| k@)
            + keys@.map_values(|k: Vec<ColumnKey>| k@),
{
    let ghost start = out@.map_values(|k: Vec<ColumnKey>| k@);
    let mut i: usize = 0;
    while i < keys.len()
        invariant
            i <= keys@.len(),
            out@.map_values(|k: Vec<ColumnKey>| k@) == start + keys@.subrange(0, i as int).map_values(
                |k: Vec<ColumnKey>| k@,
            ),
        decreases keys@.len() - i,
    {
        let copy = copy_columns(&keys[i]);
        let ghost prev = out@;
        let ghost before = prev.map_values(|k: Vec<ColumnKey>| k@);
        out.push(copy);
        i = i + 1;
        proof {
            let after = out@.map_values(|k: Vec<ColumnKey>| k@);
            let want = start + keys@.subrange(0, i as int).map_values(|k: Vec<ColumnKey>| k@);
            assert(before == start + keys@.subrange(0, i - 1).map_values(|k: Vec<ColumnKey>| k@));
            assert forall|j: int| 0 <= j < after.len() implies after[j] == want[j] by {
                if j < prev.len() {
                    assert(out@[j] == prev[j]);
                    assert(after[j] == before[j]);
                    if j >= start.len() {
                        assert(keys@.subrange(0, i as int)[j - start.len()] == keys@.subrange(0, i - 1)[j
                            - start.len()]);
                    }
                } else {
                    assert(out@[j] == copy);
                }
            }
            assert(after =~= want);
        }
    }
    assert(keys@.subrange(0, keys@.len() as int) =~= keys@);
}

/// The cost hint of joining two inputs on equalities over `columns`.
fn joined(left: &JoinCost, right: &JoinCost, columns: &Vec<ColumnKey>) -> (r: JoinCost)
    ensures
        cost_view(r) == joined_cost(cost_view(*left), cost_view(*right), columns@),
{
    let left_key = is_key_covered(&left.keys, columns);
    let right_key = is_key_covered(&right.keys, columns);
    let rows = if left_key && right_key {
        if left.rows < right.rows {
            left.rows
        } else {
            right.rows
        }
    } else if left_key {
        right.rows
    } else if right_key {
        left.rows
    } else {
        match left.rows.checked_mul(right.rows) {
            Some(p) => p,
            None => u64::MAX,
        }
    };
    let mut keys: Vec<Vec<ColumnKey>> = Vec::new();
    if right_key {
        extend_keys(&mut keys, &left.keys);
    }
    let ghost first = keys@.map_values(|k: Vec<ColumnKey>| k@);
    if left_key {
        extend_keys(&mut keys, &right.keys);
    }
    let r = JoinCost { rows, keys };
    assert(cost_view(r).1 =~= joined_cost(cost_view(*left), cost_view(*right), columns@).1);
    r
}

/// The cost hint of a plan.
pub fn join_cost_of(plan: &LogicalPlan<BoundExpr>) -> (r: JoinCost)
    ensures
        cost_view(r) == join_cost(*plan),
    decreases plan,
{
    match plan {
        LogicalPlan::Scan(scan) => {
            let key = key_columns_of(&scan.table.columns, &scan.table.key_column_ids);
            let rows = match scan.estimated_rows() {
                Some(r) => r,
                None => u64::MAX,
            };
            let mut keys: Vec<Vec<ColumnKey>> = Vec::new();
            if key.len() > 0 {
                keys.push(key);
            }
            let r = JoinCost { rows, keys };
            assert(cost_view(r).1 =~= join_cost(*plan).1);
            r
        },
        LogicalPlan::Filter { input, .. } => join_cost_of(input),
        LogicalPlan::Sort { input, .. } => join_cost_of(input),
        LogicalPlan::Join { left, right, kind: BoundJoinKind::Inner, condition: Some(condition) } => {
            let l = join_cost_of(left);
            let r = join_cost_of(right);
            let mut columns: Vec<ColumnKey> = Vec::new();
            collect_eq_columns(condition, &mut columns);
            assert(columns@ =~= eq_columns(*condition));
            joined(&l, &r, &columns)
        },
        _ => {
            let rows = match plan.estimated_rows() {
                Some(r) => r,
                None => u64::MAX,
            };
            let r = JoinCost { rows, keys: Vec::new() };
            assert(cost_view(r).1 =~= join_cost(*plan).1);
            r
        },
    }
}

/// The conjuncts that link two inputs, in order.
pub open spec fn linking(
    cs: Seq<BoundExpr>,
    left: LogicalPlan<BoundExpr>,
    right: LogicalPlan<BoundExpr>,
) -> Seq<BoundExpr>
    decreases cs.len(),
{
    if cs.len() == 0 {
        seq![]
    } else {
        let kept = linking(cs.drop_last(), left, right);
        if links(cs.last(), left, right) {
            kept.push(cs.last())
        } else {
            kept
        }
    }
}

/// The conjuncts that do not link two inputs, in order.
pub open spec fn not_linking(
    cs: Seq<BoundExpr>,
    left: LogicalPlan<BoundExpr>,
    right: LogicalPlan<BoundExpr>,
) -> Seq<BoundExpr>
    decreases cs.len(),
{
    if cs.len() == 0 {
        seq![]
    } else {
        let kept = not_linking(cs.drop_last(), left, right);
        if links(cs.last(), left, right) {
            kept
        } else {
            kept.push(cs.last())
        }
    }
}

/// Whether inputs `l` and `r`, in that order, are linked by a conjunct.
pub open spec fn linked_pair(comps: Seq<LogicalPlan<BoundExpr>>, cs: Seq<BoundExpr>, l: int, r: int) -> bool {
    0 <= l < r < comps.len() && linking(cs, comps[l], comps[r]).len() > 0
}

/// The work of joining inputs `l` and `r`: the guessed rows of the join
/// and of each input.
pub open spec fn pair_work(comps: Seq<LogicalPlan<BoundExpr>>, cs: Seq<BoundExpr>, l: int, r: int) -> int {
    let a = join_cost(comps[l]);
    let b = join_cost(comps[r]);
    joined_cost(a, b, equality_columns(linking(cs, comps[l], comps[r]))).0 + a.0 + b.0
}

/// Whether pair `(l1, r1)` comes before `(l2, r2)` in source order.
pub open spec fn pair_before(l1: int, r1: int, l2: int, r2: int) -> bool {
    l1 < l2 || (l1 == l2 && r1 < r2)
}

/// Whether `(l, r)` is the linked pair to merge: least work, the first in
/// source order among equals.
pub open spec fn best_pair(comps: Seq<LogicalPlan<BoundExpr>>, cs: Seq<BoundExpr>, l: int, r: int) -> bool {
    &&& linked_pair(comps, cs, l, r)
    &&& forall|l2: int, r2: int| #[trigger]
        linked_pair(comps, cs, l2, r2) ==> pair_work(comps, cs, l2, r2) >= pair_work(comps, cs, l, r) && (
        pair_before(l2, r2, l, r) ==> pair_work(comps, cs, l2, r2) > pair_work(comps, cs, l, r))
}

/// The linked pair to merge is the only one.
pub proof fn lemma_best_pair_unique(
    comps: Seq<LogicalPlan<BoundExpr>>,
    cs: Seq<BoundExpr>,
    l1: int,
    r1: int,
    l2: int,
    r2: int,
)
    requires
        best_pair(comps, cs, l1, r1),
        best_pair(comps, cs, l2, r2),
    ensures
        l1 == l2 && r1 == r2,
{
    assert(linked_pair(comps, cs, l2, r2));
    assert(linked_pair(comps, cs, l1, r1));
}

/// The cost hints of a list of inputs.
fn join_costs_of(components: &Vec<LogicalPlan<BoundExpr>>) -> (r: Vec<JoinCost>)
    ensures
        r@.len() == components@.len(),
        forall|i: int| 0 <= i < components@.len() ==> cost_view(#[trigger] r@[i]) == join_cost(components@[i]),
{
    let mut out: Vec<JoinCost> = Vec::new();
    let mut i: usize = 0;
    while i < components.len()
        invariant
            i <= components@.len(),
            out@.len() == i,
            forall|j: int| 0 <= j < i ==> cost_view(#[trigger] out@[j]) == join_cost(components@[j]),
        decreases components@.len() - i,
    {
        let c = join_cost_of(&components[i]);
        out.push(c);
        i = i + 1;
    }
    out
}

/// The columns compared by the conjuncts that link two inputs, and how
/// many conjuncts do.
fn linking_columns(
    conjuncts: &Vec<BoundExpr>,
    left: &LogicalPlan<BoundExpr>,
    right: &LogicalPlan<BoundExpr>,
) -> (r: (usize, Vec<ColumnKey>))
    ensures
        r.0 == linking(conjuncts@, *left, *right).len(),
        r.1@ == equality_columns(linking(conjuncts@, *left, *right)),
{
    let mut count: usize = 0;
    let mut columns: Vec<ColumnKey> = Vec::new();
    let mut k: usize = 0;
    while k < conjuncts.len()
        invariant
            k <= conjuncts@.len(),
            count == linking(conjuncts@.take(k as int), *left, *right).len(),
            count <= k,
            columns@ == equality_columns(linking(conjuncts@.take(k as int), *left, *right)),
        decreases conjuncts@.len() - k,
    {
        let ghost prev = linking(conjuncts@.take(k as int), *left, *right);
        if joins_two_sides(&conjuncts[k], left, right) {
            count = count + 1;
            collect_eq_columns(&conjuncts[k], &mut columns);
            proof {
                assert(prev.push(conjuncts@[k as int]).drop_last() =~= prev);
            }
        }
        k = k + 1;
        assert(conjuncts@.take(k as int).drop_last() =~= conjuncts@.take(k - 1));
    }
    assert(conjuncts@.take(conjuncts@.len() as int) =~= conjuncts@);
    (count, columns)
}

/// The linked pair of inputs to merge next: the one whose join costs the
/// least work, the first in source order among equals.
pub fn find_linked_pair(components: &Vec<LogicalPlan<BoundExpr>>, conjuncts: &Vec<BoundExpr>) -> (r: Option<
    (usize, usize),
>)
    ensures
        match r {
            Some((l, r)) => best_pair(components@, conjuncts@, l as int, r as int),
            None => forall|l: int, r: int| !linked_pair(components@, conjuncts@, l, r),
        },
{
    let ghost comps = components@;
    let ghost cs = conjuncts@;
    let estimates = join_costs_of(components);
    let n = components.len();
    let mut best: Option<(u128, usize, usize)> = None;
    let mut left: usize = 0;
    while left < n
        invariant
            n == comps.len(),
            comps == components@,
            cs == conjuncts@,
            left <= n,
            estimates@.len() == n,
            forall|i: int| 0 <= i < n ==> cost_view(#[trigger] estimates@[i]) == join_cost(comps[i]),
            match best {
                None => forall|l2: int, r2: int|
                    #[trigger] linked_pair(comps, cs, l2, r2) ==> !pair_before(l2, r2, left as int, left + 1),
                Some((w, bl, br)) => {
                    &&& linked_pair(comps, cs, bl as int, br as int)
                    &&& w == pair_work(comps, cs, bl as int, br as int)
                    &&& forall|l2: int, r2: int| #[trigger]
                        linked_pair(comps, cs, l2, r2) && pair_before(l2, r2, left as int, left + 1)
                            ==> pair_work(comps, cs, l2, r2) >= w && (pair_before(l2, r2, bl as int, br as int)
                            ==> pair_work(comps, cs, l2, r2) > w)
                    &&& pair_before(bl as int, br as int, left as int, left + 1)
                },
            },
        decreases n - left,
    {
        let mut right: usize = left + 1;
        while right < n
            invariant
                n == comps.len(),
                comps == components@,
                cs == conjuncts@,
                left < n,
                left < right <= n,
                estimates@.len() == n,
                forall|i: int| 0 <= i < n ==> cost_view(#[trigger] estimates@[i]) == join_cost(comps[i]),
                match best {
                    None => forall|l2: int, r2: int|
                        #[trigger] linked_pair(comps, cs, l2, r2) ==> !pair_before(l2, r2, left as int, right as int),
                    Some((w, bl, br)) => {
                        &&& linked_pair(comps, cs, bl as int, br as int)
                        &&& w == pair_work(comps, cs, bl as int, br as int)
                        &&& forall|l2: int, r2: int| #[trigger]
                            linked_pair(comps, cs, l2, r2) && pair_before(l2, r2, left as int, right as int)
                                ==> pair_work(comps, cs, l2, r2) >= w && (pair_before(
                                l2,
                                r2,
                                bl as int,
                                br as int,
                            ) ==> pair_work(comps, cs, l2, r2) > w)
                        &&& pair_before(bl as int, br as int, left as int, right as int)
                    },
                },
            decreases n - right,
        {
            let (count, columns) = linking_columns(conjuncts, &components[left], &components[right]);
            if count > 0 {
                let j = joined(&estimates[left], &estimates[right], &columns);
                let work: u128 = j.rows as u128 + estimates[left].rows as u128 + estimates[right].rows as u128;
                assert(work == pair_work(comps, cs, left as int, right as int));
                let better = match best {
                    None => true,
                    Some((w, _, _)) => work < w,
                };
                if better {
                    best = Some((work, left, right));
                }
            }
            right = right + 1;
        }
        left = left + 1;
    }
    match best {
        Some((_, l, r)) => {
            proof {
                assert forall|l2: int, r2: int| #[trigger] linked_pair(comps, cs, l2, r2) implies pair_before(
                    l2,
                    r2,
                    n as int,
                    n + 1,
                ) by {}
            }
            Some((l, r))
        },
        None => {
            proof {
                assert forall|l2: int, r2: int| !linked_pair(comps, cs, l2, r2) by {
                    if linked_pair(comps, cs, l2, r2) {
                        assert(pair_before(l2, r2, n as int, n + 1));
                    }
                }
            }
            None
        },
    }
}

/// The state after merging inputs `l` and `r`: the other inputs in
/// order, then their inner join on the conjuncts that link them, the side
/// with the larger guessed rows probing the other; and the conjuncts that
/// did not link them.
pub open spec fn merge_pair(
    comps: Seq<LogicalPlan<BoundExpr>>,
    cs: Seq<BoundExpr>,
    l: int,
    r: int,
) -> (Seq<LogicalPlan<BoundExpr>>, Seq<BoundExpr>) {
    let tree = comps[l];
    let candidate = comps[r];
    let linked = linking(cs, tree, candidate);
    let condition = if linked.len() == 0 {
        None
    } else {
        Some(and_all(linked))
    };
    let join = if join_cost(candidate).0 <= join_cost(tree).0 {
        LogicalPlan::Join {
            left: Box::new(tree),
            right: Box::new(candidate),
            kind: BoundJoinKind::Inner,
            condition,
        }
    } else {
        LogicalPlan::Join {
            left: Box::new(candidate),
            right: Box::new(tree),
            kind: BoundJoinKind::Inner,
            condition,
        }
    };
    (comps.remove(r).remove(l).push(join), not_linking(cs, tree, candidate))
}

/// The inputs and the unused conjuncts once no linked pair is left,
/// merging the best linked pair at each step.
pub open spec fn merged(comps: Seq<LogicalPlan<BoundExpr>>, cs: Seq<BoundExpr>) -> (
    Seq<LogicalPlan<BoundExpr>>,
    Seq<BoundExpr>,
)
    decreases comps.len(),
{
    if exists|l: int, r: int| best_pair(comps, cs, l, r) {
        let (l, r) = choose|l: int, r: int| best_pair(comps, cs, l, r);
        let next = merge_pair(comps, cs, l, r);
        proof {
            assert(best_pair(comps, cs, l, r));
            assert(next.0.len() == comps.len() - 1);
        }
        merged(next.0, next.1)
    } else {
        (comps, cs)
    }
}

/// Whether `p` is the product of `comps`: the one-row relation for none,
/// the input itself for one.
pub open spec fn product_of(comps: Seq<LogicalPlan<BoundExpr>>, p: LogicalPlan<BoundExpr>) -> bool {
    if comps.len() == 0 {
        p == LogicalPlan::<BoundExpr>::OneRow
    } else if comps.len() == 1 {
        p == comps[0]
    } else {
        p matches LogicalPlan::CrossJoin { inputs } && inputs@ == comps
    }
}

/// Whether `a` is what a filter of `predicate` over `input` becomes: over
/// a cross join, the merged inputs crossed, under the conjuncts no join
/// took; anything else stays a filter.
pub open spec fn joins_inferred(input: LogicalPlan<BoundExpr>, predicate: BoundExpr, a: LogicalPlan<BoundExpr>) -> bool {
    match input {
        LogicalPlan::CrossJoin { inputs } => {
            let done = merged(inputs@, conjuncts(predicate));
            exists|p: LogicalPlan<BoundExpr>| #[trigger] product_of(done.0, p) && a == residual_filter(p, done.1)
        },
        _ => a == (LogicalPlan::Filter { input: Box::new(input), predicate }),
    }
}

/// The conjuncts that link two inputs folded into one condition, and the
/// rest in order.
fn split_linking(
    conjuncts: Vec<BoundExpr>,
    tree: &LogicalPlan<BoundExpr>,
    candidate: &LogicalPlan<BoundExpr>,
) -> (r: (Option<BoundExpr>, Vec<BoundExpr>))
    ensures
        r.0 == (if linking(conjuncts@, *tree, *candidate).len() == 0 {
            None
        } else {
            Some(and_all(linking(conjuncts@, *tree, *candidate)))
        }),
        r.1@ == not_linking(conjuncts@, *tree, *candidate),
{
    let ghost cs = conjuncts@;
    let mut rest = conjuncts;
    let total = rest.len();
    let mut condition: Option<BoundExpr> = None;
    let mut kept: Vec<BoundExpr> = Vec::new();
    let mut k: usize = 0;
    while rest.len() > 0
        invariant
            total == cs.len(),
            k + rest@.len() == cs.len(),
            rest@ == cs.subrange(k as int, cs.len() as int),
            condition == (if linking(cs.take(k as int), *tree, *candidate).len() == 0 {
                None
            } else {
                Some(and_all(linking(cs.take(k as int), *tree, *candidate)))
            }),
            kept@ == not_linking(cs.take(k as int), *tree, *candidate),
        decreases rest@.len(),
    {
        let c = rest.remove(0);
        let ghost prev = linking(cs.take(k as int), *tree, *candidate);
        let ghost taken = cs.take(k + 1);
        proof {
            assert(taken.drop_last() =~= cs.take(k as int));
            assert(taken.last() == c);
        }
        if joins_two_sides(&c, tree, candidate) {
            condition = Some(
                match condition {
                    None => c,
                    Some(existing) => and_expr(existing, c),
                },
            );
            proof {
                let now = prev.push(c);
                assert(now.drop_last() =~= prev);
                if prev.len() == 0 {
                    assert(now =~= seq![c]);
                }
            }
        } else {
            kept.push(c);
        }
        k = k + 1;
        proof {
            assert(rest@ =~= cs.subrange(k as int, cs.len() as int));
        }
    }
    assert(cs.take(cs.len() as int) =~= cs);
    (condition, kept)
}

/// The guessed rows of a plan, `u64::MAX` where there is no guess.
fn estimated_or_max(plan: &LogicalPlan<BoundExpr>) -> (r: u64)
    ensures
        r == join_cost(*plan).0,
{
    join_cost_of(plan).rows
}

/// Turns a filter over a cross join into inner joins: while some pair of
/// inputs is linked by an equality, the pair whose join costs least is
/// merged on the conjuncts that link it. Inputs nothing links stay a
/// product, and conjuncts no join takes stay in the filter.
pub fn infer_joins_from_filter(input: LogicalPlan<BoundExpr>, predicate: BoundExpr) -> (r: LogicalPlan<BoundExpr>)
    ensures
        joins_inferred(input, predicate, r),
{
    match input {
        LogicalPlan::CrossJoin { inputs } => {
            let ghost target = merged(inputs@, conjuncts(predicate));
            let mut components = inputs;
            let mut remaining = split_conjunction(predicate);
            let mut done = false;
            while !done
                invariant
                    merged(components@, remaining@) == target,
                    done ==> target == (components@, remaining@),
                decreases components@.len() * 2 + (if done {
                    0int
                } else {
                    1int
                }),
            {
                match find_linked_pair(&components, &remaining) {
                    None => {
                        proof {
                            assert(!exists|l: int, r: int| best_pair(components@, remaining@, l, r));
                        }
                        done = true;
                    },
                    Some((l, r)) => {
                        let ghost before = components@;
                        let ghost cs = remaining@;
                        proof {
                            let (l2, r2) = choose|l2: int, r2: int| best_pair(before, cs, l2, r2);
                            lemma_best_pair_unique(before, cs, l as int, r as int, l2, r2);
                        }
                        let candidate = components.remove(r);
                        let tree = components.remove(l);
                        let (condition, kept) = split_linking(remaining, &tree, &candidate);
                        remaining = kept;
                        let join = if estimated_or_max(&candidate) <= estimated_or_max(&tree) {
                            LogicalPlan::Join {
                                left: Box::new(tree),
                                right: Box::new(candidate),
                                kind: BoundJoinKind::Inner,
                                condition,
                            }
                        } else {
                            LogicalPlan::Join {
                                left: Box::new(candidate),
                                right: Box::new(tree),
                                kind: BoundJoinKind::Inner,
                                condition,
                            }
                        };
                        components.push(join);
                        proof {
                            let next = merge_pair(before, cs, l as int, r as int);
                            assert(components@ =~= next.0);
                            assert(remaining@ == next.1);
                        }
                    },
                }
            }
            let plan = if components.len() == 0 {
                LogicalPlan::OneRow
            } else if components.len() == 1 {
                match components.pop() {
                    Some(only) => only,
                    None => LogicalPlan::OneRow,
                }
            } else {
                LogicalPlan::CrossJoin { inputs: components }
            };
            let ghost p = plan;
            assert(product_of(target.0, p));
            if remaining.len() == 0 {
                plan
            } else {
                let kept = crate::pushdown::and_reduce(remaining);
                LogicalPlan::Filter { input: Box::new(plan), predicate: kept }
            }
        },
        other => LogicalPlan::Filter { input: Box::new(other), predicate },
    }
}

/// Whether `a` is `b` with every cross join's inputs ordered by their
/// estimates and every filter over a cross join turned into joins, bottom
/// up.
pub open spec fn cross_joins_reordered(b: LogicalPlan<BoundExpr>, a: LogicalPlan<BoundExpr>) -> bool
    decreases b,
{
    match b {
        LogicalPlan::Empty | LogicalPlan::OneRow | LogicalPlan::Scan(_) => a == b,
        LogicalPlan::CrossJoin { inputs } => a matches LogicalPlan::CrossJoin { inputs: xs } && exists|
            ys: Seq<LogicalPlan<BoundExpr>>,
        |
            ys.len() == inputs@.len() && (forall|i: int|
                0 <= i < inputs@.len() ==> cross_joins_reordered(#[trigger] inputs@[i], ys[i])) && xs@
                == #[trigger] sorted_by_estimate(ys),
        LogicalPlan::Filter { input, predicate } => exists|m: LogicalPlan<BoundExpr>|
            cross_joins_reordered(*input, m) && #[trigger] joins_inferred(m, predicate, a),
        LogicalPlan::Derived { input, columns } => a matches LogicalPlan::Derived { input: ai, columns: ac }
            && ac == columns && cross_joins_reordered(*input, *ai),
        LogicalPlan::UnionAll { inputs } => a matches LogicalPlan::UnionAll { inputs: ais }
            && ais@.len() == inputs@.len() && forall|i: int|
            0 <= i < inputs@.len() ==> cross_joins_reordered(#[trigger] inputs@[i], ais@[i]),
        LogicalPlan::Join { left, right, kind, condition } => a matches LogicalPlan::Join {
            left: al,
            right: ar,
            kind: ak,
            condition: ac,
        } && ak == kind && ac == condition && cross_joins_reordered(*left, *al) && cross_joins_reordered(
            *right,
            *ar,
        ),
        LogicalPlan::Aggregate { input, group_by, aggregates } => a matches LogicalPlan::Aggregate {
            input: ai,
            group_by: ag,
            aggregates: aa,
        } && ag == group_by && aa == aggregates && cross_joins_reordered(*input, *ai),
        LogicalPlan::Project { input, expressions } => a matches LogicalPlan::Project {
            input: ai,
            expressions: ae,
        } && ae == expressions && cross_joins_reordered(*input, *ai),
        LogicalPlan::Distinct { input } => a matches LogicalPlan::Distinct { input: ai }
            && cross_joins_reordered(*input, *ai),
        LogicalPlan::Sort { input, keys } => a matches LogicalPlan::Sort { input: ai, keys: ak } && ak == keys
            && cross_joins_reordered(*input, *ai),
        LogicalPlan::Limit { input, limit } => a matches LogicalPlan::Limit { input: ai, limit: al } && al
            == limit && cross_joins_reordered(*input, *ai),
    }
}

/// Reorders every input of a list.
fn reorder_each(inputs: Vec<LogicalPlan<BoundExpr>>) -> (r: Vec<LogicalPlan<BoundExpr>>)
    ensures
        r@.len() == inputs@.len(),
        forall|i: int| 0 <= i < inputs@.len() ==> cross_joins_reordered(#[trigger] inputs@[i], r@[i]),
    decreases inputs, 0nat,
{
    let ghost source = inputs@;
    let mut rest = inputs;
    let total = rest.len();
    let mut out: Vec<LogicalPlan<BoundExpr>> = Vec::new();
    let mut k: usize = 0;
    while rest.len() > 0
        invariant
            source == inputs@,
            total == source.len(),
            k + rest@.len() == source.len(),
            rest@ == source.subrange(k as int, source.len() as int),
            out@.len() == k,
            forall|i: int| 0 <= i < k ==> cross_joins_reordered(#[trigger] source[i], out@[i]),
        decreases rest@.len(),
    {
        let item = rest.remove(0);
        proof {
            assert(item == source[k as int]);
            assert(decreases_to!(inputs => inputs@));
            assert(decreases_to!(inputs@ => inputs@[k as int]));
        }
        let done = reorder_cross_joins(item);
        out.push(done);
        proof {
            assert(rest@ =~= source.subrange(k + 1, source.len() as int));
        }
        k = k + 1;
    }
    out
}

/// Orders every cross join's inputs by their row estimates, smallest
/// first, and turns every filter over a cross join into joins on the
/// equalities that link its inputs.
pub fn reorder_cross_joins(plan: LogicalPlan<BoundExpr>) -> (r: LogicalPlan<BoundExpr>)
    ensures
        cross_joins_reordered(plan, r),
    decreases plan, 1nat,
{
    let ghost before = plan;
    match plan {
        LogicalPlan::CrossJoin { inputs } => {
            proof {
                assert(decreases_to!(before => before->CrossJoin_inputs));
            }
            let reordered = reorder_each(inputs);
            let ghost ys = reordered@;
            let ordered = order_cross_join_inputs(reordered);
            let r = LogicalPlan::CrossJoin { inputs: ordered };
            assert(ordered@ == sorted_by_estimate(ys));
            r
        },
        LogicalPlan::Filter { input, predicate } => {
            let m = reorder_cross_joins(*input);
            let ghost gm = m;
            let ghost gp = predicate;
            let r = infer_joins_from_filter(m, predicate);
            assert(joins_inferred(gm, gp, r));
            r
        },
        LogicalPlan::Empty => LogicalPlan::Empty,
        LogicalPlan::OneRow => LogicalPlan::OneRow,
        LogicalPlan::Scan(scan) => LogicalPlan::Scan(scan),
        LogicalPlan::Derived { input, columns } => LogicalPlan::Derived {
            input: Box::new(reorder_cross_joins(*input)),
            columns,
        },
        LogicalPlan::UnionAll { inputs } => {
            proof {
                assert(decreases_to!(before => before->UnionAll_inputs));
            }
            LogicalPlan::UnionAll { inputs: reorder_each(inputs) }
        },
        LogicalPlan::Join { left, right, kind, condition } => LogicalPlan::Join {
            left: Box::new(reorder_cross_joins(*left)),
            right: Box::new(reorder_cross_joins(*right)),
            kind,
            condition,
        },
        LogicalPlan::Aggregate { input, group_by, aggregates } => LogicalPlan::Aggregate {
            input: Box::new(reorder_cross_joins(*input)),
            group_by,
            aggregates,
        },
        LogicalPlan::Project { input, expressions } => LogicalPlan::Project {
            input: Box::new(reorder_cross_joins(*input)),
            expressions,
        },
        LogicalPlan::Distinct { input } => LogicalPlan::Distinct { input: Box::new(reorder_cross_joins(*input)) },
        LogicalPlan::Sort { input, keys } => LogicalPlan::Sort {
            input: Box::new(reorder_cross_joins(*input)),
            keys,
        },
        LogicalPlan::Limit { input, limit } => LogicalPlan::Limit {
            input: Box::new(reorder_cross_joins(*input)),
            limit,
        },
    }
}

} // verus!
