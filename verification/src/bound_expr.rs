//! Bound expressions as the optimizer reads them: a predicate's
//! conjuncts, the relations its columns name, and whether it holds a
//! dependent subquery. A subquery is carried by the columns it reads.
use crate::arithmetic::UnaryOp;
use crate::compare::{BinaryOp, DataType, Value};
use crate::logical::BoundColumn;
use vstd::prelude::*;

verus! {

/// The relation instance a column or a scan belongs to: database, table
/// and the alias it was bound under.
#[derive(Clone, Copy, Debug, PartialEq, Eq, Structural)]
pub struct TableKey {
    pub database_id: u64,
    pub table_id: u64,
    pub relation: u64,
}

/// A column of one relation instance.
#[derive(Clone, Copy, Debug, PartialEq, Eq, Structural)]
pub struct ColumnKey {
    pub database_id: u64,
    pub table_id: u64,
    pub relation: u64,
    pub column_id: u32,
}

/// The relation instance and column a column reference resolves to.
pub open spec fn column_key(c: BoundColumn) -> ColumnKey {
    ColumnKey { database_id: c.database_id, table_id: c.table_id, relation: c.relation, column_id: c.column_id }
}

/// The key of a column, computed.
pub fn key_of_column(c: &BoundColumn) -> (r: ColumnKey)
    ensures
        r == column_key(*c),
{
    ColumnKey { database_id: c.database_id, table_id: c.table_id, relation: c.relation, column_id: c.column_id }
}

/// The relation a column reference resolves to.
pub open spec fn column_table(c: BoundColumn) -> TableKey {
    TableKey { database_id: c.database_id, table_id: c.table_id, relation: c.relation }
}

/// A typed bound expression.
#[derive(Debug, PartialEq, Eq)]
pub struct BoundExpr {
    pub kind: BoundExprKind,
    pub data_type: Option<DataType>,
    pub nullable: bool,
}

/// The function an aggregate computes.
#[derive(Clone, Copy, Debug, PartialEq, Eq, Structural)]
pub enum AggregateFunction {
    Count,
    Sum,
    Avg,
    Min,
    Max,
    GroupConcat,
}

/// The shapes a bound expression takes.
#[derive(Debug, PartialEq, Eq)]
pub enum BoundExprKind {
    Literal(Value),
    Column(BoundColumn),
    /// The value of a grouping key, by position.
    GroupKey(u32),
    /// An aggregate's result, by position.
    Aggregate(u32),
    /// A window function's result, by position.
    Window(u32),
    Unary { op: UnaryOp, expr: Box<BoundExpr> },
    IsNull { expr: Box<BoundExpr>, negated: bool },
    /// `expr IN (..)` over a list prepared ahead of execution.
    PreparedIn { expr: Box<BoundExpr>, values: Vec<Value>, negated: bool },
    Binary { op: BinaryOp, left: Box<BoundExpr>, right: Box<BoundExpr> },
    /// A scalar function call, by function id; `volatile` when the
    /// function may answer differently on each call, as `RAND()` does.
    Scalar { function: u32, volatile: bool, args: Vec<BoundExpr> },
    /// `expr IN (subquery)`; `reads` are the columns the subquery reads.
    InSubquery { expr: Box<BoundExpr>, reads: Vec<BoundColumn>, negated: bool },
    ScalarSubquery { reads: Vec<BoundColumn> },
    ExistsSubquery { reads: Vec<BoundColumn>, negated: bool },
    /// An aggregate computation as a grouping's aggregate list holds it:
    /// its argument is `None` for `COUNT(*)`; `declared` when the query
    /// wrote it rather than the binder adding it.
    AggregateCall { function: AggregateFunction, arg: Option<Box<BoundExpr>>, distinct: bool, declared: bool },
}

/// The conjuncts of a predicate, left to right: an AND is split into the
/// conjuncts of its two sides, anything else is one conjunct.
pub open spec fn conjuncts(e: BoundExpr) -> Seq<BoundExpr>
    decreases e,
{
    match e.kind {
        BoundExprKind::Binary { op, left, right } => if op == BinaryOp::And {
            conjuncts(*left) + conjuncts(*right)
        } else {
            seq![e]
        },
        _ => seq![e],
    }
}

/// Whether an expression is an AND.
pub open spec fn is_and(e: BoundExpr) -> bool {
    e.kind matches BoundExprKind::Binary { op, .. } && op == BinaryOp::And
}

/// `left AND right`, boolean-typed, nullable when either side is.
pub open spec fn and_of(left: BoundExpr, right: BoundExpr) -> BoundExpr {
    BoundExpr {
        kind: BoundExprKind::Binary { op: BinaryOp::And, left: Box::new(left), right: Box::new(right) },
        data_type: Some(DataType::Boolean),
        nullable: left.nullable || right.nullable,
    }
}

/// The relations of a list of columns, in order.
pub open spec fn column_tables(cs: Seq<BoundColumn>) -> Seq<TableKey> {
    cs.map_values(|c: BoundColumn| column_table(c))
}

/// The relations an expression's columns name, in the order the columns
/// occur, a subquery's columns included.
pub open spec fn expr_tables(e: BoundExpr) -> Seq<TableKey>
    decreases e,
{
    match e.kind {
        BoundExprKind::Column(c) => seq![column_table(c)],
        BoundExprKind::Unary { expr, .. } => expr_tables(*expr),
        BoundExprKind::IsNull { expr, .. } => expr_tables(*expr),
        BoundExprKind::PreparedIn { expr, .. } => expr_tables(*expr),
        BoundExprKind::Binary { left, right, .. } => expr_tables(*left) + expr_tables(*right),
        BoundExprKind::Scalar { args, .. } => {
            proof {
                assert(decreases_to!(e => e.kind));
                assert(decreases_to!(e.kind => e.kind->Scalar_args));
                assert(decreases_to!(e.kind->Scalar_args => e.kind->Scalar_args@));
            }
            args_tables(args@)
        },
        BoundExprKind::InSubquery { expr, reads, .. } => expr_tables(*expr) + column_tables(reads@),
        BoundExprKind::ScalarSubquery { reads } => column_tables(reads@),
        BoundExprKind::ExistsSubquery { reads, .. } => column_tables(reads@),
        BoundExprKind::AggregateCall { arg, .. } => match arg {
            Some(inner) => expr_tables(*inner),
            None => seq![],
        },
        _ => seq![],
    }
}

/// The relations a list of arguments names, argument by argument.
pub open spec fn args_tables(args: Seq<BoundExpr>) -> Seq<TableKey>
    decreases args,
{
    if args.len() == 0 {
        seq![]
    } else {
        proof {
            assert(decreases_to!(args => args[args.len() - 1]));
            assert(decreases_to!(args => args.subrange(0, args.len() - 1)));
        }
        args_tables(args.subrange(0, args.len() - 1)) + expr_tables(args[args.len() - 1])
    }
}

/// The one relation an expression's columns name, when they name exactly
/// one.
pub open spec fn single_table(e: BoundExpr) -> Option<TableKey> {
    let ts = expr_tables(e);
    if ts.len() > 0 && (forall|i: int| 0 <= i < ts.len() ==> #[trigger] ts[i] == ts[0]) {
        Some(ts[0])
    } else {
        None
    }
}

/// Whether an expression holds a subquery.
pub open spec fn has_subquery(e: BoundExpr) -> bool
    decreases e,
{
    match e.kind {
        BoundExprKind::InSubquery { .. } | BoundExprKind::ScalarSubquery { .. }
        | BoundExprKind::ExistsSubquery { .. } => true,
        BoundExprKind::Unary { expr, .. } => has_subquery(*expr),
        BoundExprKind::IsNull { expr, .. } => has_subquery(*expr),
        BoundExprKind::PreparedIn { expr, .. } => has_subquery(*expr),
        BoundExprKind::Binary { left, right, .. } => has_subquery(*left) || has_subquery(*right),
        BoundExprKind::Scalar { args, .. } => {
            proof {
                assert(decreases_to!(e => e.kind));
                assert(decreases_to!(e.kind => e.kind->Scalar_args));
                assert(decreases_to!(e.kind->Scalar_args => e.kind->Scalar_args@));
            }
            args_have_subquery(args@)
        },
        BoundExprKind::AggregateCall { arg, .. } => match arg {
            Some(inner) => has_subquery(*inner),
            None => false,
        },
        _ => false,
    }
}

/// Whether some argument holds a subquery.
pub open spec fn args_have_subquery(args: Seq<BoundExpr>) -> bool
    decreases args,
{
    if args.len() == 0 {
        false
    } else {
        proof {
            assert(decreases_to!(args => args[args.len() - 1]));
            assert(decreases_to!(args => args.subrange(0, args.len() - 1)));
        }
        args_have_subquery(args.subrange(0, args.len() - 1)) || has_subquery(args[args.len() - 1])
    }
}

/// A list holds a subquery when one of its prefixes does.
proof fn lemma_args_subquery_prefix(s: Seq<BoundExpr>, n: int)
    requires
        0 <= n <= s.len(),
        args_have_subquery(s.subrange(0, n)),
    ensures
        args_have_subquery(s),
    decreases s.len() - n,
{
    if n < s.len() {
        let t = s.subrange(0, n + 1);
        assert(t.subrange(0, t.len() - 1) =~= s.subrange(0, n));
        lemma_args_subquery_prefix(s, n + 1);
    } else {
        assert(s.subrange(0, n) =~= s);
    }
}

/// Splits a predicate into its conjuncts.
pub fn split_conjunction(expr: BoundExpr) -> (r: Vec<BoundExpr>)
    ensures
        r@ == conjuncts(expr),
    decreases expr,
{
    let ghost e = expr;
    let BoundExpr { kind, data_type, nullable } = expr;
    match kind {
        BoundExprKind::Binary { op, left, right } => {
            if op == BinaryOp::And {
                let mut values = split_conjunction(*left);
                let mut rest = split_conjunction(*right);
                values.append(&mut rest);
                values
            } else {
                let whole = BoundExpr { kind: BoundExprKind::Binary { op, left, right }, data_type, nullable };
                assert(whole == e);
                vec![whole]
            }
        },
        kind => {
            let whole = BoundExpr { kind, data_type, nullable };
            assert(whole == e);
            vec![whole]
        },
    }
}

/// `left AND right`.
pub fn and_expr(left: BoundExpr, right: BoundExpr) -> (r: BoundExpr)
    ensures
        r == and_of(left, right),
{
    let nullable = left.nullable || right.nullable;
    BoundExpr {
        nullable,
        data_type: Some(DataType::Boolean),
        kind: BoundExprKind::Binary { op: BinaryOp::And, left: Box::new(left), right: Box::new(right) },
    }
}

/// Appends the relations of `columns` to `out`.
fn push_column_tables(columns: &Vec<BoundColumn>, out: &mut Vec<TableKey>)
    ensures
        final(out)@ == old(out)@ + column_tables(columns@),
{
    let ghost start = out@;
    let mut i: usize = 0;
    while i < columns.len()
        invariant
            i <= columns@.len(),
            out@ == start + column_tables(columns@.subrange(0, i as int)),
        decreases columns@.len() - i,
    {
        let c = columns[i];
        out.push(TableKey { database_id: c.database_id, table_id: c.table_id, relation: c.relation });
        i = i + 1;
        assert(column_tables(columns@.subrange(0, i as int)) =~= column_tables(
            columns@.subrange(0, i - 1),
        ).push(column_table(c)));
    }
    assert(columns@.subrange(0, columns@.len() as int) =~= columns@);
}

/// Appends the relations an expression's columns name to `out`.
pub(crate) fn collect_expr_tables(expr: &BoundExpr, out: &mut Vec<TableKey>)
    ensures
        final(out)@ == old(out)@ + expr_tables(*expr),
    decreases expr,
{
    let ghost start = out@;
    match &expr.kind {
        BoundExprKind::Column(c) => {
            out.push(TableKey { database_id: c.database_id, table_id: c.table_id, relation: c.relation });
        },
        BoundExprKind::Unary { expr: inner, .. } => collect_expr_tables(inner, out),
        BoundExprKind::IsNull { expr: inner, .. } => collect_expr_tables(inner, out),
        BoundExprKind::PreparedIn { expr: inner, .. } => collect_expr_tables(inner, out),
        BoundExprKind::Binary { left, right, .. } => {
            collect_expr_tables(left, out);
            collect_expr_tables(right, out);
            assert(out@ =~= start + expr_tables(*expr));
        },
        BoundExprKind::Scalar { args, .. } => {
            let mut i: usize = 0;
            while i < args.len()
                invariant
                    i <= args@.len(),
                    expr.kind == (BoundExprKind::Scalar {
                        function: expr.kind->Scalar_function,
                        volatile: expr.kind->Scalar_volatile,
                        args: *args,
                    }),
                    out@ == start + args_tables(args@.subrange(0, i as int)),
                decreases args@.len() - i,
            {
                proof {
                    assert(decreases_to!(*expr => expr.kind));
                    assert(decreases_to!(expr.kind => expr.kind->Scalar_args));
                    assert(decreases_to!(expr.kind->Scalar_args => args@));
                    assert(decreases_to!(args@ => args@[i as int]));
                }
                collect_expr_tables(&args[i], out);
                i = i + 1;
                assert(args@.subrange(0, i as int).subrange(0, i - 1) =~= args@.subrange(0, i - 1));
            }
            assert(args@.subrange(0, args@.len() as int) =~= args@);
        },
        BoundExprKind::InSubquery { expr: inner, reads, .. } => {
            collect_expr_tables(inner, out);
            push_column_tables(reads, out);
            assert(out@ =~= start + expr_tables(*expr));
        },
        BoundExprKind::ScalarSubquery { reads } => push_column_tables(reads, out),
        BoundExprKind::ExistsSubquery { reads, .. } => push_column_tables(reads, out),
        BoundExprKind::AggregateCall { arg: Some(inner), .. } => collect_expr_tables(inner, out),
        _ => {
            assert(out@ =~= start + expr_tables(*expr));
        },
    }
}

/// The one relation a predicate's columns name, or `None` when they name
/// none or several.
pub fn referenced_table(expr: &BoundExpr) -> (r: Option<TableKey>)
    ensures
        r == single_table(*expr),
{
    let mut tables: Vec<TableKey> = Vec::new();
    collect_expr_tables(expr, &mut tables);
    assert(tables@ =~= expr_tables(*expr));
    if tables.len() == 0 {
        return None;
    }
    let first = tables[0];
    let mut i: usize = 1;
    while i < tables.len()
        invariant
            1 <= i <= tables@.len(),
            tables@ == expr_tables(*expr),
            first == tables@[0],
            forall|j: int| 0 <= j < i ==> #[trigger] tables@[j] == tables@[0],
        decreases tables@.len() - i,
    {
        if tables[i] != first {
            assert(tables@[i as int] != tables@[0]);
            return None;
        }
        i = i + 1;
    }
    Some(first)
}

/// Whether an expression holds a subquery.
pub fn expression_contains_subquery(expr: &BoundExpr) -> (r: bool)
    ensures
        r == has_subquery(*expr),
    decreases expr,
{
    match &expr.kind {
        BoundExprKind::InSubquery { .. } | BoundExprKind::ScalarSubquery { .. }
        | BoundExprKind::ExistsSubquery { .. } => true,
        BoundExprKind::Unary { expr: inner, .. } => expression_contains_subquery(inner),
        BoundExprKind::IsNull { expr: inner, .. } => expression_contains_subquery(inner),
        BoundExprKind::PreparedIn { expr: inner, .. } => expression_contains_subquery(inner),
        BoundExprKind::Binary { left, right, .. } => expression_contains_subquery(left)
            || expression_contains_subquery(right),
        BoundExprKind::Scalar { args, .. } => {
            let mut i: usize = 0;
            while i < args.len()
                invariant
                    i <= args@.len(),
                    expr.kind == (BoundExprKind::Scalar {
                        function: expr.kind->Scalar_function,
                        volatile: expr.kind->Scalar_volatile,
                        args: *args,
                    }),
                    !args_have_subquery(args@.subrange(0, i as int)),
                decreases args@.len() - i,
            {
                proof {
                    assert(decreases_to!(*expr => expr.kind));
                    assert(decreases_to!(expr.kind => expr.kind->Scalar_args));
                    assert(decreases_to!(expr.kind->Scalar_args => args@));
                    assert(decreases_to!(args@ => args@[i as int]));
                    assert(args@.subrange(0, i + 1).subrange(0, i as int) =~= args@.subrange(0, i as int));
                }
                if expression_contains_subquery(&args[i]) {
                    proof {
                        let prefix = args@.subrange(0, i + 1);
                        assert(prefix.subrange(0, prefix.len() - 1) =~= args@.subrange(0, i as int));
                        assert(prefix[prefix.len() - 1] == args@[i as int]);
                        lemma_args_subquery_prefix(args@, i + 1);
                    }
                    return true;
                }
                i = i + 1;
            }
            assert(args@.subrange(0, args@.len() as int) =~= args@);
            false
        },
        BoundExprKind::AggregateCall { arg: Some(inner), .. } => expression_contains_subquery(inner),
        _ => false,
    }
}

} // verus!
