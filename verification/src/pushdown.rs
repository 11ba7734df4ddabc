//! Predicate pushdown: a filter's conjuncts that name exactly one relation
//! and hold no subquery move into the scan of that relation, through cross
//! joins where one input alone reads it and through the preserved side of
//! a join; the rest stay in the filter.
use crate::bound_expr::{
    and_expr, and_of, column_table, conjuncts, expression_contains_subquery, has_subquery,
    referenced_table, single_table, split_conjunction, BoundExpr, TableKey,
};
use crate::logical::{BoundJoinKind, BoundTable, LogicalPlan, Scan};
use vstd::prelude::*;

verus! {

/// The relation a scan reads.
pub open spec fn table_key<E>(t: BoundTable<E>) -> TableKey {
    TableKey { database_id: t.database_id, table_id: t.table_id, relation: t.relation }
}

/// A recursive query's working table: virtual, replayed from memory, so
/// storage predicates never reach it.
pub open spec fn is_working_table<E>(t: BoundTable<E>) -> bool {
    t.database_id == u64::MAX && t.input is None
}

/// Whether a plan reads relation `t`: a scan of it, or a derived table
/// exposing one of its columns.
pub open spec fn plan_contains<E>(p: LogicalPlan<E>, t: TableKey) -> bool
    decreases p,
{
    match p {
        LogicalPlan::Scan(scan) => table_key(scan.table) == t,
        LogicalPlan::Derived { input, columns } => (exists|i: int|
            0 <= i < columns@.len() && column_table(#[trigger] columns@[i]) == t) || plan_contains(*input, t),
        LogicalPlan::CrossJoin { inputs } => exists|i: int|
            0 <= i < inputs@.len() && plan_contains(#[trigger] inputs@[i], t),
        LogicalPlan::UnionAll { inputs } => exists|i: int|
            0 <= i < inputs@.len() && plan_contains(#[trigger] inputs@[i], t),
        LogicalPlan::Join { left, right, .. } => plan_contains(*left, t) || plan_contains(*right, t),
        LogicalPlan::Filter { input, .. } => plan_contains(*input, t),
        LogicalPlan::Aggregate { input, .. } => plan_contains(*input, t),
        LogicalPlan::Project { input, .. } => plan_contains(*input, t),
        LogicalPlan::Distinct { input } => plan_contains(*input, t),
        LogicalPlan::Sort { input, .. } => plan_contains(*input, t),
        LogicalPlan::Limit { input, .. } => plan_contains(*input, t),
        LogicalPlan::Empty | LogicalPlan::OneRow => false,
    }
}

/// Whether input `j` is the only one of `inputs` that reads `t`.
pub open spec fn sole_holder<E>(inputs: Seq<LogicalPlan<E>>, t: TableKey, j: int) -> bool {
    &&& 0 <= j < inputs.len()
    &&& plan_contains(inputs[j], t)
    &&& forall|i: int| 0 <= i < inputs.len() && i != j ==> !plan_contains(#[trigger] inputs[i], t)
}

/// Whether a join's side may take a predicate on `t`: the left side when
/// it alone reads `t`, the right side when it alone does and the join
/// keeps no unmatched row.
pub open spec fn takes_left<E>(left: LogicalPlan<E>, right: LogicalPlan<E>, t: TableKey) -> bool {
    plan_contains(left, t) && !plan_contains(right, t)
}

pub open spec fn takes_right<E>(left: LogicalPlan<E>, right: LogicalPlan<E>, kind: BoundJoinKind, t: TableKey) -> bool {
    (kind == BoundJoinKind::Inner || kind == BoundJoinKind::Cross) && !plan_contains(left, t)
        && plan_contains(right, t)
}

/// Whether a conjunct naming relation `t` can be pushed into `p`: it
/// reaches a stored scan of `t`.
pub open spec fn accepts<E>(p: LogicalPlan<E>, t: TableKey) -> bool
    decreases p,
{
    match p {
        LogicalPlan::Scan(scan) => table_key(scan.table) == t && !is_working_table(scan.table),
        LogicalPlan::CrossJoin { inputs } => exists|j: int|
            sole_holder(inputs@, t, j) && accepts(#[trigger] inputs@[j], t),
        LogicalPlan::Join { left, right, kind, .. } => if takes_left(*left, *right, t) {
            accepts(*left, t)
        } else if takes_right(*left, *right, kind, t) {
            accepts(*right, t)
        } else {
            false
        },
        _ => false,
    }
}

/// Whether `a` is `b` with `pred` added to the predicates of the scan a
/// conjunct naming `t` is pushed into, and nothing else changed.
pub open spec fn pushed<E>(b: LogicalPlan<E>, a: LogicalPlan<E>, pred: E, t: TableKey) -> bool
    decreases b,
{
    match b {
        LogicalPlan::Scan(scan) => table_key(scan.table) == t && (a matches LogicalPlan::Scan(s)
            && s.table == scan.table && s.projected_column_ids == scan.projected_column_ids && s.limit
            == scan.limit && s.predicates@ == scan.predicates@.push(pred)),
        LogicalPlan::CrossJoin { inputs } => a matches LogicalPlan::CrossJoin { inputs: ais }
            && ais@.len() == inputs@.len() && exists|j: int|
            sole_holder(inputs@, t, j) && pushed(#[trigger] inputs@[j], ais@[j], pred, t) && (forall|i: int|
                0 <= i < inputs@.len() && i != j ==> #[trigger] ais@[i] == inputs@[i]),
        LogicalPlan::Join { left, right, kind, condition } => a matches LogicalPlan::Join {
            left: al,
            right: ar,
            kind: ak,
            condition: ac,
        } && ak == kind && ac == condition && if takes_left(*left, *right, t) {
            pushed(*left, *al, pred, t) && *ar == *right
        } else {
            pushed(*right, *ar, pred, t) && *al == *left
        },
        _ => false,
    }
}

/// Whether a plan reads relation `t`.
pub fn contains_table<E>(plan: &LogicalPlan<E>, t: &TableKey) -> (r: bool)
    ensures
        r == plan_contains(*plan, *t),
    decreases plan,
{
    match plan {
        LogicalPlan::Scan(scan) => scan.table.database_id == t.database_id && scan.table.table_id
            == t.table_id && scan.table.relation == t.relation,
        LogicalPlan::Derived { input, columns } => {
            let mut i: usize = 0;
            while i < columns.len()
                invariant
                    i <= columns@.len(),
                    *plan == (LogicalPlan::Derived { input: *input, columns: *columns }),
                    forall|j: int| 0 <= j < i ==> column_table(#[trigger] columns@[j]) != *t,
                decreases columns@.len() - i,
            {
                let c = columns[i];
                if c.database_id == t.database_id && c.table_id == t.table_id && c.relation == t.relation {
                    assert(column_table(columns@[i as int]) == *t);
                    assert(plan->Derived_columns@ == columns@);
                    return true;
                }
                i = i + 1;
            }
            contains_table(input, t)
        },
        LogicalPlan::CrossJoin { inputs } => {
            let mut i: usize = 0;
            while i < inputs.len()
                invariant
                    i <= inputs@.len(),
                    *plan == (LogicalPlan::CrossJoin { inputs: *inputs }),
                    forall|j: int| 0 <= j < i ==> !plan_contains(#[trigger] inputs@[j], *t),
                decreases inputs@.len() - i,
            {
                proof {
                    assert(decreases_to!(*plan => plan->CrossJoin_inputs));
                    assert(decreases_to!(plan->CrossJoin_inputs => inputs@));
                    assert(decreases_to!(inputs@ => inputs@[i as int]));
                }
                if contains_table(&inputs[i], t) {
                    return true;
                }
                i = i + 1;
            }
            false
        },
        LogicalPlan::UnionAll { inputs } => {
            let mut i: usize = 0;
            while i < inputs.len()
                invariant
                    i <= inputs@.len(),
                    *plan == (LogicalPlan::UnionAll { inputs: *inputs }),
                    forall|j: int| 0 <= j < i ==> !plan_contains(#[trigger] inputs@[j], *t),
                decreases inputs@.len() - i,
            {
                proof {
                    assert(decreases_to!(*plan => plan->UnionAll_inputs));
                    assert(decreases_to!(plan->UnionAll_inputs => inputs@));
                    assert(decreases_to!(inputs@ => inputs@[i as int]));
                }
                if contains_table(&inputs[i], t) {
                    return true;
                }
                i = i + 1;
            }
            false
        },
        LogicalPlan::Join { left, right, .. } => contains_table(left, t) || contains_table(right, t),
        LogicalPlan::Filter { input, .. } => contains_table(input, t),
        LogicalPlan::Aggregate { input, .. } => contains_table(input, t),
        LogicalPlan::Project { input, .. } => contains_table(input, t),
        LogicalPlan::Distinct { input } => contains_table(input, t),
        LogicalPlan::Sort { input, .. } => contains_table(input, t),
        LogicalPlan::Limit { input, .. } => contains_table(input, t),
        LogicalPlan::Empty | LogicalPlan::OneRow => false,
    }
}

/// The only input of a cross join that reads `t`, if exactly one does.
fn sole_holder_index<E>(inputs: &Vec<LogicalPlan<E>>, t: &TableKey) -> (r: Option<usize>)
    ensures
        match r {
            Some(j) => sole_holder(inputs@, *t, j as int),
            None => forall|j: int| !sole_holder(inputs@, *t, j),
        },
{
    let mut found: Option<usize> = None;
    let mut i: usize = 0;
    while i < inputs.len()
        invariant
            i <= inputs@.len(),
            match found {
                Some(j) => j < i && plan_contains(inputs@[j as int], *t) && forall|k: int|
                    0 <= k < i && k != j ==> !plan_contains(#[trigger] inputs@[k], *t),
                None => forall|k: int| 0 <= k < i ==> !plan_contains(#[trigger] inputs@[k], *t),
            },
        decreases inputs@.len() - i,
    {
        if contains_table(&inputs[i], t) {
            match found {
                Some(j) => {
                    assert forall|x: int| !sole_holder(inputs@, *t, x) by {
                        if sole_holder(inputs@, *t, x) {
                            if x == j {
                                assert(!plan_contains(inputs@[i as int], *t));
                            } else {
                                assert(!plan_contains(inputs@[j as int], *t));
                            }
                        }
                    }
                    return None;
                },
                None => {
                    found = Some(i);
                },
            }
        }
        i = i + 1;
    }
    match found {
        Some(j) => Some(j),
        None => {
            assert forall|x: int| !sole_holder(inputs@, *t, x) by {
                if sole_holder(inputs@, *t, x) {
                    assert(plan_contains(inputs@[x], *t));
                }
            }
            None
        },
    }
}

/// Whether a conjunct naming `t` can be pushed into `plan`.
pub fn can_push<E>(plan: &LogicalPlan<E>, t: &TableKey) -> (r: bool)
    ensures
        r == accepts(*plan, *t),
    decreases plan,
{
    match plan {
        LogicalPlan::Scan(scan) => scan.table.database_id == t.database_id && scan.table.table_id
            == t.table_id && scan.table.relation == t.relation && !(scan.table.database_id == u64::MAX
            && scan.table.input.is_none()),
        LogicalPlan::CrossJoin { inputs } => match sole_holder_index(inputs, t) {
            Some(j) => {
                proof {
                    assert(decreases_to!(*plan => plan->CrossJoin_inputs));
                    assert(decreases_to!(plan->CrossJoin_inputs => inputs@));
                    assert(decreases_to!(inputs@ => inputs@[j as int]));
                }
                let r = can_push(&inputs[j], t);
                proof {
                    if !r {
                        assert forall|x: int| !(sole_holder(inputs@, *t, x) && accepts(#[trigger] inputs@[x], *t)) by {
                            if sole_holder(inputs@, *t, x) && x != j {
                                assert(!plan_contains(inputs@[j as int], *t));
                            }
                        }
                    }
                }
                r
            },
            None => false,
        },
        LogicalPlan::Join { left, right, kind, .. } => {
            let left_contains = contains_table(left, t);
            let right_contains = contains_table(right, t);
            if left_contains && !right_contains {
                can_push(left, t)
            } else if (*kind == BoundJoinKind::Inner || *kind == BoundJoinKind::Cross) && !left_contains
                && right_contains {
                can_push(right, t)
            } else {
                false
            }
        },
        _ => false,
    }
}

/// Adds `pred` to the predicates of the scan a conjunct naming `t` reaches.
pub fn push_into<E>(plan: LogicalPlan<E>, pred: E, t: &TableKey) -> (r: LogicalPlan<E>)
    requires
        accepts(plan, *t),
    ensures
        pushed(plan, r, pred, *t),
    decreases plan,
{
    let ghost before = plan;
    match plan {
        LogicalPlan::Scan(scan) => {
            let Scan { table, projected_column_ids, predicates, limit } = scan;
            let mut predicates = predicates;
            predicates.push(pred);
            LogicalPlan::Scan(Scan { table, projected_column_ids, predicates, limit })
        },
        LogicalPlan::CrossJoin { inputs } => {
            let ghost source = inputs@;
            let j = match sole_holder_index(&inputs, t) {
                Some(j) => j,
                None => {
                    proof {
                        let x = choose|x: int| sole_holder(source, *t, x) && accepts(#[trigger] source[x], *t);
                        assert(sole_holder(source, *t, x));
                    }
                    return LogicalPlan::CrossJoin { inputs };
                },
            };
            proof {
                let x = choose|x: int| sole_holder(source, *t, x) && accepts(#[trigger] source[x], *t);
                if x != j as int {
                    assert(!plan_contains(source[j as int], *t));
                }
                assert(decreases_to!(before => before->CrossJoin_inputs));
                assert(decreases_to!(before->CrossJoin_inputs => source));
                assert(decreases_to!(source => source[j as int]));
            }
            let mut inputs = inputs;
            let item = inputs.remove(j);
            let moved = push_into(item, pred, t);
            inputs.insert(j, moved);
            proof {
                assert(inputs@ =~= source.update(j as int, moved));
                assert(pushed(source[j as int], inputs@[j as int], pred, *t));
            }
            LogicalPlan::CrossJoin { inputs }
        },
        LogicalPlan::Join { left, right, kind, condition } => {
            let left_contains = contains_table(&left, t);
            let right_contains = contains_table(&right, t);
            if left_contains && !right_contains {
                LogicalPlan::Join { left: Box::new(push_into(*left, pred, t)), right, kind, condition }
            } else {
                LogicalPlan::Join { left, right: Box::new(push_into(*right, pred, t)), kind, condition }
            }
        },
        other => other,
    }
}

/// The relation a conjunct is pushed toward: the one its columns name,
/// when it names exactly one and holds no subquery. A dependent subquery
/// is resolved only at the filter.
pub open spec fn push_target(pred: BoundExpr) -> Option<TableKey> {
    if has_subquery(pred) {
        None
    } else {
        single_table(pred)
    }
}

/// Whether pushing `pred` into `b` gives `a` and hands back `back`: into
/// the scan of its relation where the plan accepts it; otherwise nothing
/// changes and the conjunct comes back.
pub open spec fn conjunct_step(
    b: LogicalPlan<BoundExpr>,
    pred: BoundExpr,
    a: LogicalPlan<BoundExpr>,
    back: Option<BoundExpr>,
) -> bool {
    match push_target(pred) {
        Some(t) => if accepts(b, t) {
            pushed(b, a, pred, t) && back is None
        } else {
            a == b && back == Some(pred)
        },
        None => a == b && back == Some(pred),
    }
}

/// Pushes one conjunct into the plan beneath a filter; the conjunct comes
/// back when it stays in the filter.
pub fn push_conjunct(plan: LogicalPlan<BoundExpr>, predicate: BoundExpr) -> (r: (
    LogicalPlan<BoundExpr>,
    Option<BoundExpr>,
))
    ensures
        conjunct_step(plan, predicate, r.0, r.1),
{
    if expression_contains_subquery(&predicate) {
        return (plan, Some(predicate));
    }
    match referenced_table(&predicate) {
        None => (plan, Some(predicate)),
        Some(t) => if can_push(&plan, &t) {
            (push_into(plan, predicate, &t), None)
        } else {
            (plan, Some(predicate))
        },
    }
}

/// Whether `a` and `residual` follow from `m` and `r` by one more conjunct:
/// pushed into the scan of its relation, or kept at the end of the
/// residual.
pub open spec fn conjunct_moved(
    m: LogicalPlan<BoundExpr>,
    pred: BoundExpr,
    a: LogicalPlan<BoundExpr>,
    r: Seq<BoundExpr>,
    residual: Seq<BoundExpr>,
) -> bool {
    match push_target(pred) {
        Some(t) => if accepts(m, t) {
            pushed(m, a, pred, t) && residual == r
        } else {
            a == m && residual == r.push(pred)
        },
        None => a == m && residual == r.push(pred),
    }
}

/// Whether pushing the conjuncts `cs` into `b`, first to last, gives `a`,
/// with `residual` the ones that stay, in their order.
pub open spec fn conjuncts_pushed(
    b: LogicalPlan<BoundExpr>,
    cs: Seq<BoundExpr>,
    a: LogicalPlan<BoundExpr>,
    residual: Seq<BoundExpr>,
) -> bool
    decreases cs.len(),
{
    if cs.len() == 0 {
        a == b && residual.len() == 0
    } else {
        exists|m: LogicalPlan<BoundExpr>, r: Seq<BoundExpr>|
            conjuncts_pushed(b, cs.drop_last(), m, r) && #[trigger] conjunct_moved(m, cs.last(), a, r, residual)
    }
}

/// The conjunction of a non-empty list, folded from the left.
pub open spec fn and_all(r: Seq<BoundExpr>) -> BoundExpr
    decreases r.len(),
{
    if r.len() <= 1 {
        r[0]
    } else {
        and_of(and_all(r.drop_last()), r.last())
    }
}

/// What a filter over `input` becomes when `residual` stays in it: the
/// input alone when nothing does.
pub open spec fn residual_filter(input: LogicalPlan<BoundExpr>, residual: Seq<BoundExpr>) -> LogicalPlan<BoundExpr> {
    if residual.len() == 0 {
        input
    } else {
        LogicalPlan::Filter { input: Box::new(input), predicate: and_all(residual) }
    }
}

/// Whether `a` is `b` with every filter's conjuncts pushed, beneath it
/// first, then conjunct by conjunct into the filter's input.
pub open spec fn predicates_pushed(b: LogicalPlan<BoundExpr>, a: LogicalPlan<BoundExpr>) -> bool
    decreases b,
{
    match b {
        LogicalPlan::Empty | LogicalPlan::OneRow | LogicalPlan::Scan(_) => a == b,
        LogicalPlan::Derived { input, columns } => a matches LogicalPlan::Derived { input: ai, columns: ac }
            && ac == columns && predicates_pushed(*input, *ai),
        LogicalPlan::CrossJoin { inputs } => a matches LogicalPlan::CrossJoin { inputs: ais }
            && ais@.len() == inputs@.len() && forall|i: int|
            0 <= i < inputs@.len() ==> predicates_pushed(#[trigger] inputs@[i], ais@[i]),
        LogicalPlan::UnionAll { inputs } => a matches LogicalPlan::UnionAll { inputs: ais }
            && ais@.len() == inputs@.len() && forall|i: int|
            0 <= i < inputs@.len() ==> predicates_pushed(#[trigger] inputs@[i], ais@[i]),
        LogicalPlan::Join { left, right, kind, condition } => a matches LogicalPlan::Join {
            left: al,
            right: ar,
            kind: ak,
            condition: ac,
        } && ak == kind && ac == condition && predicates_pushed(*left, *al) && predicates_pushed(*right, *ar),
        LogicalPlan::Filter { input, predicate } => exists|
            m: LogicalPlan<BoundExpr>,
            mid: LogicalPlan<BoundExpr>,
            r: Seq<BoundExpr>,
        |
            predicates_pushed(*input, m) && #[trigger] conjuncts_pushed(m, conjuncts(predicate), mid, r) && a
                == residual_filter(mid, r),
        LogicalPlan::Aggregate { input, group_by, aggregates } => a matches LogicalPlan::Aggregate {
            input: ai,
            group_by: ag,
            aggregates: aa,
        } && ag == group_by && aa == aggregates && predicates_pushed(*input, *ai),
        LogicalPlan::Project { input, expressions } => a matches LogicalPlan::Project {
            input: ai,
            expressions: ae,
        } && ae == expressions && predicates_pushed(*input, *ai),
        LogicalPlan::Distinct { input } => a matches LogicalPlan::Distinct { input: ai } && predicates_pushed(
            *input,
            *ai,
        ),
        LogicalPlan::Sort { input, keys } => a matches LogicalPlan::Sort { input: ai, keys: ak } && ak == keys
            && predicates_pushed(*input, *ai),
        LogicalPlan::Limit { input, limit } => a matches LogicalPlan::Limit { input: ai, limit: al } && al
            == limit && predicates_pushed(*input, *ai),
    }
}

/// The conjunction of a non-empty list of conjuncts, folded from the left.
pub(crate) fn and_reduce(items: Vec<BoundExpr>) -> (r: BoundExpr)
    requires
        items@.len() > 0,
    ensures
        r == and_all(items@),
{
    let ghost s = items@;
    let mut rest = items;
    let total = rest.len();
    let mut acc = rest.remove(0);
    let mut k: usize = 1;
    assert(s.take(1).len() == 1 && s.take(1)[0] == s[0]);
    while rest.len() > 0
        invariant
            1 <= k <= s.len(),
            total == s.len(),
            k + rest@.len() == s.len(),
            rest@ == s.subrange(k as int, s.len() as int),
            acc == and_all(s.take(k as int)),
        decreases rest@.len(),
    {
        let next = rest.remove(0);
        acc = and_expr(acc, next);
        k = k + 1;
        proof {
            assert(s.take(k as int).drop_last() =~= s.take(k - 1));
            assert(rest@ =~= s.subrange(k as int, s.len() as int));
        }
    }
    assert(s.take(s.len() as int) =~= s);
    acc
}

/// Pushes the conjuncts of a filter over `input`, first to last.
fn push_filter(input: LogicalPlan<BoundExpr>, predicate: BoundExpr) -> (r: LogicalPlan<BoundExpr>)
    ensures
        exists|mid: LogicalPlan<BoundExpr>, res: Seq<BoundExpr>|
            #[trigger] conjuncts_pushed(input, conjuncts(predicate), mid, res) && r == residual_filter(mid, res),
{
    let parts = split_conjunction(predicate);
    let ghost cs = parts@;
    let mut current = input;
    let mut residual: Vec<BoundExpr> = Vec::new();
    let mut rest = parts;
    let total = rest.len();
    let mut k: usize = 0;
    assert(conjuncts_pushed(input, cs.take(0), current, residual@));
    while rest.len() > 0
        invariant
            k <= cs.len(),
            total == cs.len(),
            k + rest@.len() == cs.len(),
            rest@ == cs.subrange(k as int, cs.len() as int),
            conjuncts_pushed(input, cs.take(k as int), current, residual@),
        decreases rest@.len(),
    {
        let c = rest.remove(0);
        let ghost before = current;
        let ghost kept = residual@;
        let (next, back) = push_conjunct(current, c);
        current = next;
        match back {
            Some(kept_conjunct) => residual.push(kept_conjunct),
            None => {},
        }
        k = k + 1;
        proof {
            let taken = cs.take(k as int);
            assert(taken.drop_last() =~= cs.take(k - 1));
            assert(taken.last() == c);
            assert(conjunct_moved(before, taken.last(), current, kept, residual@));
            assert(conjuncts_pushed(input, taken.drop_last(), before, kept));
            assert(conjuncts_pushed(input, taken, current, residual@));
            assert(rest@ =~= cs.subrange(k as int, cs.len() as int));
        }
    }
    assert(cs.take(cs.len() as int) =~= cs);
    if residual.len() == 0 {
        current
    } else {
        let kept = and_reduce(residual);
        LogicalPlan::Filter { input: Box::new(current), predicate: kept }
    }
}

/// Pushes the predicates of every input of a list.
fn push_each_predicates(inputs: Vec<LogicalPlan<BoundExpr>>) -> (r: Vec<LogicalPlan<BoundExpr>>)
    ensures
        r@.len() == inputs@.len(),
        forall|i: int| 0 <= i < inputs@.len() ==> predicates_pushed(#[trigger] inputs@[i], r@[i]),
    decreases inputs, 0nat,
{
    let ghost source = inputs@;
    let mut rest = inputs;
    let total = rest.len();
    let mut out: Vec<LogicalPlan<BoundExpr>> = Vec::new();
    let mut k: usize = 0;
    while rest.len() > 0
        invariant
            source == inputs@,
            total == source.len(),
            k + rest@.len() == source.len(),
            rest@ == source.subrange(k as int, source.len() as int),
            out@.len() == k,
            forall|i: int| 0 <= i < k ==> predicates_pushed(#[trigger] source[i], out@[i]),
        decreases rest@.len(),
    {
        let item = rest.remove(0);
        proof {
            assert(item == source[k as int]);
            assert(decreases_to!(inputs => inputs@));
            assert(decreases_to!(inputs@ => inputs@[k as int]));
        }
        let pushed_item = push_predicates(item);
        out.push(pushed_item);
        proof {
            assert(rest@ =~= source.subrange(k + 1, source.len() as int));
        }
        k = k + 1;
    }
    out
}

/// Pushes every filter's single-relation conjuncts into the scans beneath
/// it, bottom up; what cannot move stays in the filter, and a filter left
/// with nothing disappears.
pub fn push_predicates(plan: LogicalPlan<BoundExpr>) -> (r: LogicalPlan<BoundExpr>)
    ensures
        predicates_pushed(plan, r),
    decreases plan, 1nat,
{
    let ghost before = plan;
    match plan {
        LogicalPlan::Empty => LogicalPlan::Empty,
        LogicalPlan::OneRow => LogicalPlan::OneRow,
        LogicalPlan::Scan(scan) => LogicalPlan::Scan(scan),
        LogicalPlan::Derived { input, columns } => LogicalPlan::Derived {
            input: Box::new(push_predicates(*input)),
            columns,
        },
        LogicalPlan::CrossJoin { inputs } => {
            proof {
                assert(decreases_to!(before => before->CrossJoin_inputs));
            }
            LogicalPlan::CrossJoin { inputs: push_each_predicates(inputs) }
        },
        LogicalPlan::UnionAll { inputs } => {
            proof {
                assert(decreases_to!(before => before->UnionAll_inputs));
            }
            LogicalPlan::UnionAll { inputs: push_each_predicates(inputs) }
        },
        LogicalPlan::Join { left, right, kind, condition } => LogicalPlan::Join {
            left: Box::new(push_predicates(*left)),
            right: Box::new(push_predicates(*right)),
            kind,
            condition,
        },
        LogicalPlan::Filter { input, predicate } => {
            let ghost p = predicate;
            let pushed_input = push_predicates(*input);
            let ghost m = pushed_input;
            let r = push_filter(pushed_input, predicate);
            proof {
                let (mid, res) = choose|mid: LogicalPlan<BoundExpr>, res: Seq<BoundExpr>|
                    #[trigger] conjuncts_pushed(m, conjuncts(p), mid, res) && r == residual_filter(mid, res);
                assert(predicates_pushed(*before->Filter_input, m));
                assert(conjuncts_pushed(m, conjuncts(p), mid, res));
            }
            r
        },
        LogicalPlan::Aggregate { input, group_by, aggregates } => LogicalPlan::Aggregate {
            input: Box::new(push_predicates(*input)),
            group_by,
            aggregates,
        },
        LogicalPlan::Project { input, expressions } => LogicalPlan::Project {
            input: Box::new(push_predicates(*input)),
            expressions,
        },
        LogicalPlan::Distinct { input } => LogicalPlan::Distinct {
            input: Box::new(push_predicates(*input)),
        },
        LogicalPlan::Sort { input, keys } => LogicalPlan::Sort {
            input: Box::new(push_predicates(*input)),
            keys,
        },
        LogicalPlan::Limit { input, limit } => LogicalPlan::Limit {
            input: Box::new(push_predicates(*input)),
            limit,
        },
    }
}

} // verus!
