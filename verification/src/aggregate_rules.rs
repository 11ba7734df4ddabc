//! Rewrites under a grouping: a predicate-free `COUNT(*)` of one stored
//! table answered from its catalog row count, and the one-row relations a
//! cross join beneath a grouping multiplies by nothing dropped when no key
//! or aggregate reads them.
use crate::bound_expr::{
    args_tables, collect_expr_tables, AggregateFunction, BoundExpr, BoundExprKind, TableKey,
};
use crate::compare::{DataType, Value};
use crate::logical::{plan_rows, product_rows, LogicalPlan, Projection};
use crate::pushdown::table_key;
use vstd::prelude::*;

verus! {

/// Whether a plan is a relation of exactly one row that nothing in `refs`
/// names: the one-row relation, or a predicate-free, unlimited scan of a
/// table whose catalog holds one row.
pub open spec fn unreferenced_identity(p: LogicalPlan<BoundExpr>, refs: Seq<TableKey>) -> bool {
    match p {
        LogicalPlan::OneRow => true,
        LogicalPlan::Scan(scan) => scan.predicates@.len() == 0 && scan.limit is None && scan.table.row_count
            == Some(1u64) && !refs.contains(table_key(scan.table)),
        _ => false,
    }
}

/// The inputs of a list that are not unreferenced identities, in order.
pub open spec fn kept_inputs(s: Seq<LogicalPlan<BoundExpr>>, refs: Seq<TableKey>) -> Seq<LogicalPlan<BoundExpr>>
    decreases s.len(),
{
    if s.len() == 0 {
        seq![]
    } else {
        let kept = kept_inputs(s.drop_last(), refs);
        if unreferenced_identity(s.last(), refs) {
            kept
        } else {
            kept.push(s.last())
        }
    }
}

/// Whether `x` is what a grouping reads from `m` once the identities of a
/// cross join are dropped: the one-row relation when none is left, the
/// last one alone, the rest still crossed; anything but a cross join stays.
pub open spec fn identity_trimmed(m: LogicalPlan<BoundExpr>, refs: Seq<TableKey>, x: LogicalPlan<BoundExpr>) -> bool {
    match m {
        LogicalPlan::CrossJoin { inputs } => {
            let kept = kept_inputs(inputs@, refs);
            if kept.len() == 0 {
                x == LogicalPlan::<BoundExpr>::OneRow
            } else if kept.len() == 1 {
                x == kept[0]
            } else {
                x matches LogicalPlan::CrossJoin { inputs: xs } && xs@ == kept
            }
        },
        _ => x == m,
    }
}

/// The relations a grouping's keys and aggregates name.
pub open spec fn grouping_tables(group_by: Seq<BoundExpr>, aggregates: Seq<BoundExpr>) -> Seq<TableKey> {
    args_tables(group_by) + args_tables(aggregates)
}

/// Whether `a` is `b` with the unreferenced identities of the cross join
/// beneath every grouping dropped, bottom up.
pub open spec fn aggregates_pushed(b: LogicalPlan<BoundExpr>, a: LogicalPlan<BoundExpr>) -> bool
    decreases b,
{
    match b {
        LogicalPlan::Empty | LogicalPlan::OneRow | LogicalPlan::Scan(_) => a == b,
        LogicalPlan::Aggregate { input, group_by, aggregates } => a matches LogicalPlan::Aggregate {
            input: ai,
            group_by: ag,
            aggregates: aa,
        } && ag == group_by && aa == aggregates && exists|m: LogicalPlan<BoundExpr>|
            aggregates_pushed(*input, m) && #[trigger] identity_trimmed(
                m,
                grouping_tables(group_by@, aggregates@),
                *ai,
            ),
        LogicalPlan::Derived { input, columns } => a matches LogicalPlan::Derived { input: ai, columns: ac }
            && ac == columns && aggregates_pushed(*input, *ai),
        LogicalPlan::CrossJoin { inputs } => a matches LogicalPlan::CrossJoin { inputs: ais }
            && ais@.len() == inputs@.len() && forall|i: int|
            0 <= i < inputs@.len() ==> aggregates_pushed(#[trigger] inputs@[i], ais@[i]),
        LogicalPlan::UnionAll { inputs } => a matches LogicalPlan::UnionAll { inputs: ais }
            && ais@.len() == inputs@.len() && forall|i: int|
            0 <= i < inputs@.len() ==> aggregates_pushed(#[trigger] inputs@[i], ais@[i]),
        LogicalPlan::Join { left, right, kind, condition } => a matches LogicalPlan::Join {
            left: al,
            right: ar,
            kind: ak,
            condition: ac,
        } && ak == kind && ac == condition && aggregates_pushed(*left, *al) && aggregates_pushed(*right, *ar),
        LogicalPlan::Filter { input, predicate } => a matches LogicalPlan::Filter { input: ai, predicate: ap }
            && ap == predicate && aggregates_pushed(*input, *ai),
        LogicalPlan::Project { input, expressions } => a matches LogicalPlan::Project {
            input: ai,
            expressions: ae,
        } && ae == expressions && aggregates_pushed(*input, *ai),
        LogicalPlan::Distinct { input } => a matches LogicalPlan::Distinct { input: ai } && aggregates_pushed(
            *input,
            *ai,
        ),
        LogicalPlan::Sort { input, keys } => a matches LogicalPlan::Sort { input: ai, keys: ak } && ak == keys
            && aggregates_pushed(*input, *ai),
        LogicalPlan::Limit { input, limit } => a matches LogicalPlan::Limit { input: ai, limit: al } && al
            == limit && aggregates_pushed(*input, *ai),
    }
}

/// Appends the relations a list of expressions names to `out`.
fn collect_list_tables(list: &Vec<BoundExpr>, out: &mut Vec<TableKey>)
    ensures
        final(out)@ == old(out)@ + args_tables(list@),
{
    let ghost start = out@;
    let mut i: usize = 0;
    while i < list.len()
        invariant
            i <= list@.len(),
            out@ == start + args_tables(list@.subrange(0, i as int)),
        decreases list@.len() - i,
    {
        collect_expr_tables(&list[i], out);
        i = i + 1;
        assert(list@.subrange(0, i as int).subrange(0, i - 1) =~= list@.subrange(0, i - 1));
    }
    assert(list@.subrange(0, list@.len() as int) =~= list@);
}

/// Whether `t` is among `refs`.
fn names(refs: &Vec<TableKey>, t: &TableKey) -> (r: bool)
    ensures
        r == refs@.contains(*t),
{
    let mut i: usize = 0;
    while i < refs.len()
        invariant
            i <= refs@.len(),
            forall|j: int| 0 <= j < i ==> #[trigger] refs@[j] != *t,
        decreases refs@.len() - i,
    {
        if refs[i] == *t {
            return true;
        }
        i = i + 1;
    }
    false
}

/// Whether a plan is a one-row relation that nothing in `refs` names.
fn is_unreferenced_identity(plan: &LogicalPlan<BoundExpr>, refs: &Vec<TableKey>) -> (r: bool)
    ensures
        r == unreferenced_identity(*plan, refs@),
{
    match plan {
        LogicalPlan::OneRow => true,
        LogicalPlan::Scan(scan) => {
            let key = TableKey {
                database_id: scan.table.database_id,
                table_id: scan.table.table_id,
                relation: scan.table.relation,
            };
            scan.predicates.len() == 0 && scan.limit.is_none() && scan.table.row_count == Some(1u64)
                && !names(refs, &key)
        },
        _ => false,
    }
}

/// The inputs that are not unreferenced identities, in order.
fn drop_identities(inputs: Vec<LogicalPlan<BoundExpr>>, refs: &Vec<TableKey>) -> (r: Vec<LogicalPlan<BoundExpr>>)
    ensures
        r@ == kept_inputs(inputs@, refs@),
{
    let ghost source = inputs@;
    let mut rest = inputs;
    let total = rest.len();
    let mut out: Vec<LogicalPlan<BoundExpr>> = Vec::new();
    let mut k: usize = 0;
    while rest.len() > 0
        invariant
            total == source.len(),
            k + rest@.len() == source.len(),
            rest@ == source.subrange(k as int, source.len() as int),
            out@ == kept_inputs(source.take(k as int), refs@),
        decreases rest@.len(),
    {
        let item = rest.remove(0);
        let ghost seen = source.take(k as int);
        if !is_unreferenced_identity(&item, refs) {
            out.push(item);
        }
        k = k + 1;
        proof {
            assert(source.take(k as int).drop_last() =~= seen);
            assert(source.take(k as int).last() == item);
            assert(rest@ =~= source.subrange(k as int, source.len() as int));
        }
    }
    assert(source.take(source.len() as int) =~= source);
    out
}

/// What a grouping reads from `m` once the identities of a cross join are
/// dropped.
fn trim_identities(m: LogicalPlan<BoundExpr>, refs: &Vec<TableKey>) -> (r: LogicalPlan<BoundExpr>)
    ensures
        identity_trimmed(m, refs@, r),
{
    match m {
        LogicalPlan::CrossJoin { inputs } => {
            let mut kept = drop_identities(inputs, refs);
            if kept.len() == 0 {
                LogicalPlan::OneRow
            } else if kept.len() == 1 {
                match kept.pop() {
                    Some(only) => only,
                    None => LogicalPlan::OneRow,
                }
            } else {
                LogicalPlan::CrossJoin { inputs: kept }
            }
        },
        other => other,
    }
}

/// Drops the identities of every input of a list.
fn push_each_aggregates(inputs: Vec<LogicalPlan<BoundExpr>>) -> (r: Vec<LogicalPlan<BoundExpr>>)
    ensures
        r@.len() == inputs@.len(),
        forall|i: int| 0 <= i < inputs@.len() ==> aggregates_pushed(#[trigger] inputs@[i], r@[i]),
    decreases inputs, 0nat,
{
    let ghost source = inputs@;
    let mut rest = inputs;
    let total = rest.len();
    let mut out: Vec<LogicalPlan<BoundExpr>> = Vec::new();
    let mut k: usize = 0;
    while rest.len() > 0
        invariant
            source == inputs@,
            total == source.len(),
            k + rest@.len() == source.len(),
            rest@ == source.subrange(k as int, source.len() as int),
            out@.len() == k,
            forall|i: int| 0 <= i < k ==> aggregates_pushed(#[trigger] source[i], out@[i]),
        decreases rest@.len(),
    {
        let item = rest.remove(0);
        proof {
            assert(item == source[k as int]);
            assert(decreases_to!(inputs => inputs@));
            assert(decreases_to!(inputs@ => inputs@[k as int]));
        }
        let done = push_aggregates_through_identity_joins(item);
        out.push(done);
        proof {
            assert(rest@ =~= source.subrange(k + 1, source.len() as int));
        }
        k = k + 1;
    }
    out
}

/// Drops, beneath every grouping, the inputs of a cross join that are
/// one-row relations no grouping key or aggregate reads: crossing with
/// one row changes no group and no aggregate.
pub fn push_aggregates_through_identity_joins(plan: LogicalPlan<BoundExpr>) -> (r: LogicalPlan<BoundExpr>)
    ensures
        aggregates_pushed(plan, r),
    decreases plan, 1nat,
{
    let ghost before = plan;
    match plan {
        LogicalPlan::Aggregate { input, group_by, aggregates } => {
            let pushed_input = push_aggregates_through_identity_joins(*input);
            let ghost m = pushed_input;
            let mut referenced: Vec<TableKey> = Vec::new();
            collect_list_tables(&group_by, &mut referenced);
            collect_list_tables(&aggregates, &mut referenced);
            let trimmed = trim_identities(pushed_input, &referenced);
            proof {
                assert(referenced@ =~= grouping_tables(group_by@, aggregates@));
                assert(identity_trimmed(m, grouping_tables(group_by@, aggregates@), trimmed));
            }
            LogicalPlan::Aggregate { input: Box::new(trimmed), group_by, aggregates }
        },
        LogicalPlan::Empty => LogicalPlan::Empty,
        LogicalPlan::OneRow => LogicalPlan::OneRow,
        LogicalPlan::Scan(scan) => LogicalPlan::Scan(scan),
        LogicalPlan::Derived { input, columns } => LogicalPlan::Derived {
            input: Box::new(push_aggregates_through_identity_joins(*input)),
            columns,
        },
        LogicalPlan::CrossJoin { inputs } => {
            proof {
                assert(decreases_to!(before => before->CrossJoin_inputs));
            }
            LogicalPlan::CrossJoin { inputs: push_each_aggregates(inputs) }
        },
        LogicalPlan::UnionAll { inputs } => {
            proof {
                assert(decreases_to!(before => before->UnionAll_inputs));
            }
            LogicalPlan::UnionAll { inputs: push_each_aggregates(inputs) }
        },
        LogicalPlan::Join { left, right, kind, condition } => LogicalPlan::Join {
            left: Box::new(push_aggregates_through_identity_joins(*left)),
            right: Box::new(push_aggregates_through_identity_joins(*right)),
            kind,
            condition,
        },
        LogicalPlan::Filter { input, predicate } => LogicalPlan::Filter {
            input: Box::new(push_aggregates_through_identity_joins(*input)),
            predicate,
        },
        LogicalPlan::Project { input, expressions } => LogicalPlan::Project {
            input: Box::new(push_aggregates_through_identity_joins(*input)),
            expressions,
        },
        LogicalPlan::Distinct { input } => LogicalPlan::Distinct {
            input: Box::new(push_aggregates_through_identity_joins(*input)),
        },
        LogicalPlan::Sort { input, keys } => LogicalPlan::Sort {
            input: Box::new(push_aggregates_through_identity_joins(*input)),
            keys,
        },
        LogicalPlan::Limit { input, limit } => LogicalPlan::Limit {
            input: Box::new(push_aggregates_through_identity_joins(*input)),
            limit,
        },
    }
}

/// `COUNT(*)` as a grouping's aggregate list holds it.
pub open spec fn count_star() -> BoundExpr {
    BoundExpr {
        kind: BoundExprKind::AggregateCall {
            function: AggregateFunction::Count,
            arg: None,
            distinct: false,
            declared: true,
        },
        data_type: Some(DataType::UInt64),
        nullable: false,
    }
}

/// The literal an unsigned count becomes.
pub open spec fn count_literal(n: u64) -> BoundExpr {
    BoundExpr { kind: BoundExprKind::Literal(Value::UInt64(n)), data_type: Some(DataType::UInt64), nullable: false }
}

/// Whether `a` is `b` with every ungrouped `COUNT(*)` over a
/// predicate-free scan whose catalog knows its row count answered by
/// projecting that count, named `COUNT(*)`, over one row.
pub open spec fn counts_replaced(b: LogicalPlan<BoundExpr>, a: LogicalPlan<BoundExpr>) -> bool
    decreases b,
{
    match b {
        LogicalPlan::Empty | LogicalPlan::OneRow | LogicalPlan::Scan(_) => a == b,
        LogicalPlan::Aggregate { input, group_by, aggregates } => {
            let answered = group_by@.len() == 0 && aggregates@ == seq![count_star()] && match *input {
                LogicalPlan::Scan(scan) => scan.predicates@.len() == 0,
                _ => false,
            };
            if answered {
                match input->Scan_0.table.row_count {
                    Some(n) => a matches LogicalPlan::Project { input: ai, expressions: es } && *ai
                        == LogicalPlan::<BoundExpr>::OneRow && es@.len() == 1 && es@[0].name@ == "COUNT(*)"@
                        && es@[0].expr == count_literal(n),
                    None => a == b,
                }
            } else {
                a matches LogicalPlan::Aggregate { input: ai, group_by: ag, aggregates: aa } && ag == group_by
                    && aa == aggregates && counts_replaced(*input, *ai)
            }
        },
        LogicalPlan::Derived { input, columns } => a matches LogicalPlan::Derived { input: ai, columns: ac }
            && ac == columns && counts_replaced(*input, *ai),
        LogicalPlan::CrossJoin { inputs } => a matches LogicalPlan::CrossJoin { inputs: ais }
            && ais@.len() == inputs@.len() && forall|i: int|
            0 <= i < inputs@.len() ==> counts_replaced(#[trigger] inputs@[i], ais@[i]),
        LogicalPlan::UnionAll { inputs } => a matches LogicalPlan::UnionAll { inputs: ais }
            && ais@.len() == inputs@.len() && forall|i: int|
            0 <= i < inputs@.len() ==> counts_replaced(#[trigger] inputs@[i], ais@[i]),
        LogicalPlan::Join { left, right, kind, condition } => a matches LogicalPlan::Join {
            left: al,
            right: ar,
            kind: ak,
            condition: ac,
        } && ak == kind && ac == condition && counts_replaced(*left, *al) && counts_replaced(*right, *ar),
        LogicalPlan::Filter { input, predicate } => a matches LogicalPlan::Filter { input: ai, predicate: ap }
            && ap == predicate && counts_replaced(*input, *ai),
        LogicalPlan::Project { input, expressions } => a matches LogicalPlan::Project {
            input: ai,
            expressions: ae,
        } && ae == expressions && counts_replaced(*input, *ai),
        LogicalPlan::Distinct { input } => a matches LogicalPlan::Distinct { input: ai } && counts_replaced(
            *input,
            *ai,
        ),
        LogicalPlan::Sort { input, keys } => a matches LogicalPlan::Sort { input: ai, keys: ak } && ak == keys
            && counts_replaced(*input, *ai),
        LogicalPlan::Limit { input, limit } => a matches LogicalPlan::Limit { input: ai, limit: al } && al
            == limit && counts_replaced(*input, *ai),
    }
}

/// Whether an aggregate is `COUNT(*)`.
fn is_count_star(e: &BoundExpr) -> (r: bool)
    ensures
        r == (*e == count_star()),
{
    match &e.kind {
        BoundExprKind::AggregateCall { function, arg, distinct, declared } => {
            let plain = match function {
                AggregateFunction::Count => true,
                _ => false,
            };
            let typed = match e.data_type {
                Some(DataType::UInt64) => true,
                _ => false,
            };
            plain && arg.is_none() && !*distinct && *declared && typed && !e.nullable
        },
        _ => false,
    }
}

/// Answers metadata counts in every input of a list.
fn replace_each_count(inputs: Vec<LogicalPlan<BoundExpr>>) -> (r: Vec<LogicalPlan<BoundExpr>>)
    ensures
        r@.len() == inputs@.len(),
        forall|i: int| 0 <= i < inputs@.len() ==> counts_replaced(#[trigger] inputs@[i], r@[i]),
    decreases inputs, 0nat,
{
    let ghost source = inputs@;
    let mut rest = inputs;
    let total = rest.len();
    let mut out: Vec<LogicalPlan<BoundExpr>> = Vec::new();
    let mut k: usize = 0;
    while rest.len() > 0
        invariant
            source == inputs@,
            total == source.len(),
            k + rest@.len() == source.len(),
            rest@ == source.subrange(k as int, source.len() as int),
            out@.len() == k,
            forall|i: int| 0 <= i < k ==> counts_replaced(#[trigger] source[i], out@[i]),
        decreases rest@.len(),
    {
        let item = rest.remove(0);
        proof {
            assert(item == source[k as int]);
            assert(decreases_to!(inputs => inputs@));
            assert(decreases_to!(inputs@ => inputs@[k as int]));
        }
        let done = replace_metadata_counts(item);
        out.push(done);
        proof {
            assert(rest@ =~= source.subrange(k + 1, source.len() as int));
        }
        k = k + 1;
    }
    out
}

/// Answers an ungrouped `COUNT(*)` over a predicate-free scan from the
/// table's catalog row count, where the catalog knows it, by projecting
/// that count over one row; every other plan keeps its shape.
pub fn replace_metadata_counts(plan: LogicalPlan<BoundExpr>) -> (r: LogicalPlan<BoundExpr>)
    ensures
        counts_replaced(plan, r),
    decreases plan, 1nat,
{
    let ghost before = plan;
    match plan {
        LogicalPlan::Aggregate { input, group_by, aggregates } => {
            let counting = group_by.len() == 0 && aggregates.len() == 1 && is_count_star(&aggregates[0]);
            proof {
                if counting {
                    assert(aggregates@ =~= seq![count_star()]);
                } else if group_by@.len() == 0 && aggregates@ == seq![count_star()] {
                    assert(aggregates@[0] == count_star());
                }
            }
            match *input {
                LogicalPlan::Scan(scan) => {
                    if counting && scan.predicates.len() == 0 {
                        match scan.table.row_count {
                            Some(row_count) => {
                                let count = BoundExpr {
                                    kind: BoundExprKind::Literal(Value::UInt64(row_count)),
                                    data_type: Some(DataType::UInt64),
                                    nullable: false,
                                };
                                let expressions = vec![Projection { name: "COUNT(*)".to_owned(), expr: count }];
                                assert(before->Aggregate_input->Scan_0.table.row_count == Some(row_count));
                                LogicalPlan::Project { input: Box::new(LogicalPlan::OneRow), expressions }
                            },
                            None => LogicalPlan::Aggregate {
                                input: Box::new(LogicalPlan::Scan(scan)),
                                group_by,
                                aggregates,
                            },
                        }
                    } else {
                        assert(!(before->Aggregate_group_by@.len() == 0 && before->Aggregate_aggregates@ == seq![count_star()] && scan.predicates@.len() == 0));
                        let kept = LogicalPlan::Scan(scan);
                        assert(*before->Aggregate_input == kept);
                        assert(counts_replaced(kept, kept));
                        LogicalPlan::Aggregate { input: Box::new(kept), group_by, aggregates }
                    }
                },
                other => LogicalPlan::Aggregate {
                    input: Box::new(replace_metadata_counts(other)),
                    group_by,
                    aggregates,
                },
            }
        },
        LogicalPlan::Empty => LogicalPlan::Empty,
        LogicalPlan::OneRow => LogicalPlan::OneRow,
        LogicalPlan::Scan(scan) => LogicalPlan::Scan(scan),
        LogicalPlan::Derived { input, columns } => LogicalPlan::Derived {
            input: Box::new(replace_metadata_counts(*input)),
            columns,
        },
        LogicalPlan::CrossJoin { inputs } => {
            proof {
                assert(decreases_to!(before => before->CrossJoin_inputs));
            }
            LogicalPlan::CrossJoin { inputs: replace_each_count(inputs) }
        },
        LogicalPlan::UnionAll { inputs } => {
            proof {
                assert(decreases_to!(before => before->UnionAll_inputs));
            }
            LogicalPlan::UnionAll { inputs: replace_each_count(inputs) }
        },
        LogicalPlan::Join { left, right, kind, condition } => LogicalPlan::Join {
            left: Box::new(replace_metadata_counts(*left)),
            right: Box::new(replace_metadata_counts(*right)),
            kind,
            condition,
        },
        LogicalPlan::Filter { input, predicate } => LogicalPlan::Filter {
            input: Box::new(replace_metadata_counts(*input)),
            predicate,
        },
        LogicalPlan::Project { input, expressions } => LogicalPlan::Project {
            input: Box::new(replace_metadata_counts(*input)),
            expressions,
        },
        LogicalPlan::Distinct { input } => LogicalPlan::Distinct {
            input: Box::new(replace_metadata_counts(*input)),
        },
        LogicalPlan::Sort { input, keys } => LogicalPlan::Sort {
            input: Box::new(replace_metadata_counts(*input)),
            keys,
        },
        LogicalPlan::Limit { input, limit } => LogicalPlan::Limit {
            input: Box::new(replace_metadata_counts(*input)),
            limit,
        },
    }
}

/// A product of estimates reads only the inputs it multiplies.
proof fn lemma_product_prefix(s: Seq<LogicalPlan<BoundExpr>>, t: Seq<LogicalPlan<BoundExpr>>, k: nat)
    requires
        k <= s.len(),
        k <= t.len(),
        forall|i: int| 0 <= i < k ==> #[trigger] s[i] == t[i],
    ensures
        product_rows(s, k) == product_rows(t, k),
    decreases k,
{
    if k > 0 {
        lemma_product_prefix(s, t, (k - 1) as nat);
        assert(s[k - 1] == t[k - 1]);
    }
}

/// The estimate of a one-row relation is one row.
proof fn lemma_identity_rows(p: LogicalPlan<BoundExpr>, refs: Seq<TableKey>)
    requires
        unreferenced_identity(p, refs),
    ensures
        plan_rows(p) == Some(1u64),
{
}

/// Dropping identities keeps the product of the inputs' estimates.
proof fn lemma_kept_product(s: Seq<LogicalPlan<BoundExpr>>, refs: Seq<TableKey>)
    ensures
        product_rows(kept_inputs(s, refs), kept_inputs(s, refs).len()) == product_rows(s, s.len()),
    decreases s.len(),
{
    if s.len() > 0 {
        let init = s.drop_last();
        let kept = kept_inputs(init, refs);
        lemma_kept_product(init, refs);
        lemma_product_prefix(s, init, init.len());
        if unreferenced_identity(s.last(), refs) {
            lemma_identity_rows(s.last(), refs);
            match product_rows(s, init.len()) {
                Some(rows) => assert((rows * 1) as u64 == rows),
                None => {},
            }
        } else {
            lemma_product_prefix(kept.push(s.last()), kept, kept.len());
        }
    }
}

/// Dropping the one-row inputs of a cross join that a grouping does not
/// read leaves the relation's row estimate as it was: crossing with one
/// row multiplies by one.
pub proof fn law_identities_keep_row_estimate(
    m: LogicalPlan<BoundExpr>,
    refs: Seq<TableKey>,
    x: LogicalPlan<BoundExpr>,
)
    requires
        identity_trimmed(m, refs, x),
    ensures
        plan_rows(x) == plan_rows(m),
{
    match m {
        LogicalPlan::CrossJoin { inputs } => {
            let kept = kept_inputs(inputs@, refs);
            lemma_kept_product(inputs@, refs);
            if kept.len() == 1 {
                assert(product_rows(kept, 0) == Some(1u64));
                match plan_rows(kept[0]) {
                    Some(rows) => assert((1 * rows) as u64 == rows),
                    None => {},
                }
            }
        },
        _ => {},
    }
}

} // verus!
