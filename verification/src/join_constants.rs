//! Constants carried across join equalities: a column known equal to a
//! literal on one side of a join, and equal by the join's condition to a
//! column of the other side, lets the scan of that other column prune on
//! the same literal, in the directions the join's kind allows.
use crate::bound_expr::{
    column_key, column_table, key_of_column, BoundExpr, BoundExprKind, ColumnKey, TableKey,
};
use crate::compare::{BinaryOp, DataType, Value};
use crate::logical::{BoundColumn, BoundJoinKind, LogicalPlan, Scan};
use crate::pushdown::table_key;
use vstd::prelude::*;

verus! {

/// A literal's value with its bytes as a sequence.
pub enum ValueView {
    Null,
    Boolean(bool),
    Int64(i64),
    UInt64(u64),
    Utf8(Seq<u8>),
    Binary(Seq<u8>),
}

/// A value as a `ValueView`.
pub open spec fn value_view(v: Value) -> ValueView {
    match v {
        Value::Null => ValueView::Null,
        Value::Boolean(b) => ValueView::Boolean(b),
        Value::Int64(i) => ValueView::Int64(i),
        Value::UInt64(u) => ValueView::UInt64(u),
        Value::Utf8(bytes) => ValueView::Utf8(bytes@),
        Value::Binary(bytes) => ValueView::Binary(bytes@),
    }
}

/// The type of a literal of a value; a NULL literal has none.
pub open spec fn view_type(v: ValueView) -> Option<DataType> {
    match v {
        ValueView::Null => None,
        ValueView::Boolean(_) => Some(DataType::Boolean),
        ValueView::Int64(_) => Some(DataType::Int64),
        ValueView::UInt64(_) => Some(DataType::UInt64),
        ValueView::Utf8(_) => Some(DataType::Utf8),
        ValueView::Binary(_) => Some(DataType::Binary),
    }
}

/// A copy of a byte string.
fn copy_bytes(bytes: &Vec<u8>) -> (r: Vec<u8>)
    ensures
        r@ == bytes@,
{
    let mut out: Vec<u8> = Vec::new();
    let mut i: usize = 0;
    while i < bytes.len()
        invariant
            i <= bytes@.len(),
            out@ == bytes@.subrange(0, i as int),
        decreases bytes@.len() - i,
    {
        out.push(bytes[i]);
        i = i + 1;
        assert(out@ =~= bytes@.subrange(0, i as int));
    }
    assert(bytes@.subrange(0, bytes@.len() as int) =~= bytes@);
    out
}

/// A copy of a value.
fn copy_value(v: &Value) -> (r: Value)
    ensures
        value_view(r) == value_view(*v),
{
    match v {
        Value::Null => Value::Null,
        Value::Boolean(b) => Value::Boolean(*b),
        Value::Int64(i) => Value::Int64(*i),
        Value::UInt64(u) => Value::UInt64(*u),
        Value::Utf8(bytes) => Value::Utf8(copy_bytes(bytes)),
        Value::Binary(bytes) => Value::Binary(copy_bytes(bytes)),
    }
}

/// Which sides of a join may take a constant derived from the other, as
/// (left, right): an inner join constrains both; a left join only its
/// null-supplying right side, since filtering the left would drop rows it
/// keeps; semi, anti and cross joins take none.
pub open spec fn propagation(kind: BoundJoinKind) -> (bool, bool) {
    match kind {
        BoundJoinKind::Inner => (true, true),
        BoundJoinKind::Left => (false, true),
        _ => (false, false),
    }
}

/// The conjuncts of a predicate in the order a right-first walk finds
/// them.
pub open spec fn conjuncts_rev(e: BoundExpr) -> Seq<BoundExpr>
    decreases e,
{
    match e.kind {
        BoundExprKind::Binary { op, left, right } => if op == BinaryOp::And {
            conjuncts_rev(*right) + conjuncts_rev(*left)
        } else {
            seq![e]
        },
        _ => seq![e],
    }
}

/// The fact a conjunct states: a column equal to a literal that is not
/// NULL, in either order.
pub open spec fn conjunct_fact(c: BoundExpr) -> Option<(ColumnKey, ValueView)> {
    match c.kind {
        BoundExprKind::Binary { op, left, right } => if op == BinaryOp::Equal {
            match (left.kind, right.kind) {
                (BoundExprKind::Column(col), BoundExprKind::Literal(v)) => if v is Null {
                    None
                } else {
                    Some((column_key(col), value_view(v)))
                },
                (BoundExprKind::Literal(v), BoundExprKind::Column(col)) => if v is Null {
                    None
                } else {
                    Some((column_key(col), value_view(v)))
                },
                _ => None,
            }
        } else {
            None
        },
        _ => None,
    }
}

/// The facts of a list of conjuncts, in order.
pub open spec fn facts_of(cs: Seq<BoundExpr>) -> Seq<(ColumnKey, ValueView)>
    decreases cs.len(),
{
    if cs.len() == 0 {
        seq![]
    } else {
        facts_of(cs.drop_last()) + match conjunct_fact(cs.last()) {
            Some(f) => seq![f],
            None => seq![],
        }
    }
}

/// The facts a list of predicates states, predicate by predicate.
pub open spec fn predicate_facts(ps: Seq<BoundExpr>) -> Seq<(ColumnKey, ValueView)>
    decreases ps.len(),
{
    if ps.len() == 0 {
        seq![]
    } else {
        predicate_facts(ps.drop_last()) + facts_of(conjuncts_rev(ps.last()))
    }
}

/// The column-equals-literal facts every row of a plan satisfies, in the
/// order they are recorded: a scan's predicates, a filter's before its
/// input's, a join's left side and, for an inner join, its right; the
/// null-supplying side of an outer join contributes NULLs, not facts.
pub open spec fn plan_facts(p: LogicalPlan<BoundExpr>) -> Seq<(ColumnKey, ValueView)>
    decreases p,
{
    match p {
        LogicalPlan::Scan(scan) => predicate_facts(scan.predicates@),
        LogicalPlan::Filter { input, predicate } => facts_of(conjuncts_rev(predicate)) + plan_facts(*input),
        LogicalPlan::Join { left, right, kind, .. } => plan_facts(*left) + (if kind == BoundJoinKind::Inner {
            plan_facts(*right)
        } else {
            seq![]
        }),
        LogicalPlan::Project { input, .. } => plan_facts(*input),
        LogicalPlan::Aggregate { input, .. } => plan_facts(*input),
        LogicalPlan::Distinct { input } => plan_facts(*input),
        LogicalPlan::Sort { input, .. } => plan_facts(*input),
        LogicalPlan::Limit { input, .. } => plan_facts(*input),
        LogicalPlan::Derived { input, .. } => plan_facts(*input),
        _ => seq![],
    }
}

/// The index of the last fact about column `k`: the one that holds.
pub open spec fn last_index(facts: Seq<(ColumnKey, ValueView)>, k: ColumnKey) -> Option<int>
    decreases facts.len(),
{
    if facts.len() == 0 {
        None
    } else if facts.last().0 == k {
        Some(facts.len() - 1)
    } else {
        last_index(facts.drop_last(), k)
    }
}

/// Facts held in a list, as views.
pub open spec fn facts_view(facts: Seq<(ColumnKey, Value)>) -> Seq<(ColumnKey, ValueView)> {
    facts.map_values(|f: (ColumnKey, Value)| (f.0, value_view(f.1)))
}

/// Whether `e` is the predicate `target = value` a join equality derives:
/// boolean, typed and nullable as the column, the literal typed as its
/// value.
pub open spec fn is_derived_equality(e: BoundExpr, target: BoundColumn, value: ValueView) -> bool {
    &&& e.data_type == Some(DataType::Boolean)
    &&& e.nullable == target.nullable
    &&& match e.kind {
        BoundExprKind::Binary { op, left, right } => {
            &&& op == BinaryOp::Equal
            &&& left.kind == BoundExprKind::Column(target)
            &&& left.data_type == Some(target.data_type)
            &&& left.nullable == target.nullable
            &&& match right.kind {
                BoundExprKind::Literal(v) => value_view(v) == value,
                _ => false,
            }
            &&& right.data_type == view_type(value)
            &&& right.nullable == (value is Null)
        },
        _ => false,
    }
}

/// The scans of relation `t` a constant could reach in a plan: through
/// joins, filters and cross joins only.
pub open spec fn scan_count(p: LogicalPlan<BoundExpr>, t: TableKey) -> nat
    decreases p,
{
    match p {
        LogicalPlan::Scan(scan) => if table_key(scan.table) == t {
            1
        } else {
            0
        },
        LogicalPlan::Join { left, right, .. } => scan_count(*left, t) + scan_count(*right, t),
        LogicalPlan::Filter { input, .. } => scan_count(*input, t),
        LogicalPlan::CrossJoin { inputs } => {
            proof {
                assert(decreases_to!(p => p->CrossJoin_inputs));
                assert(decreases_to!(p->CrossJoin_inputs => p->CrossJoin_inputs@));
            }
            scan_counts(inputs@, t)
        },
        _ => 0,
    }
}

/// The reachable scans of relation `t` in a list of plans.
pub open spec fn scan_counts(s: Seq<LogicalPlan<BoundExpr>>, t: TableKey) -> nat
    decreases s,
{
    if s.len() == 0 {
        0
    } else {
        proof {
            assert(decreases_to!(s => s[s.len() - 1]));
            assert(decreases_to!(s => s.subrange(0, s.len() - 1)));
        }
        scan_counts(s.subrange(0, s.len() - 1), t) + scan_count(s[s.len() - 1], t)
    }
}

/// Whether `a` is `b` with `target = value` added to every reachable scan
/// of relation `t` that does not hold it yet: through joins (into the
/// right side of an inner or left join only), filters and cross joins.
pub open spec fn constant_added(
    b: LogicalPlan<BoundExpr>,
    a: LogicalPlan<BoundExpr>,
    t: TableKey,
    target: BoundColumn,
    value: ValueView,
) -> bool
    decreases b,
{
    match b {
        LogicalPlan::Scan(scan) => if table_key(scan.table) == t && !(exists|i: int|
            0 <= i < scan.predicates@.len() && is_derived_equality(#[trigger] scan.predicates@[i], target, value)) {
            a matches LogicalPlan::Scan(s) && s.table == scan.table && s.projected_column_ids
                == scan.projected_column_ids && s.limit == scan.limit && s.predicates@.len()
                == scan.predicates@.len() + 1 && s.predicates@.drop_last() == scan.predicates@
                && is_derived_equality(s.predicates@.last(), target, value)
        } else {
            a == b
        },
        LogicalPlan::Join { left, right, kind, condition } => a matches LogicalPlan::Join {
            left: al,
            right: ar,
            kind: ak,
            condition: ac,
        } && ak == kind && ac == condition && constant_added(*left, *al, t, target, value) && (if kind
            == BoundJoinKind::Inner || kind == BoundJoinKind::Left {
            constant_added(*right, *ar, t, target, value)
        } else {
            *ar == *right
        }),
        LogicalPlan::Filter { input, predicate } => a matches LogicalPlan::Filter { input: ai, predicate: ap }
            && ap == predicate && constant_added(*input, *ai, t, target, value),
        LogicalPlan::CrossJoin { inputs } => a matches LogicalPlan::CrossJoin { inputs: ais }
            && ais@.len() == inputs@.len() && forall|i: int|
            0 <= i < inputs@.len() ==> constant_added(#[trigger] inputs@[i], ais@[i], t, target, value),
        _ => a == b,
    }
}

/// Whether `a` is `b` with `target = value` derived from `source = value`:
/// only when the two columns compare by the same rules, neither is an
/// ENUM, and exactly one scan of the target's relation is reachable.
pub open spec fn derived_into(
    b: LogicalPlan<BoundExpr>,
    a: LogicalPlan<BoundExpr>,
    target: BoundColumn,
    source: BoundColumn,
    value: ValueView,
) -> bool {
    if target.data_type != source.data_type || target.collation != source.collation || target.is_enum
        || source.is_enum {
        a == b
    } else if scan_count(b, column_table(target)) != 1 {
        a == b
    } else {
        constant_added(b, a, column_table(target), target, value)
    }
}

/// Whether `result` is `side` with the constant `facts` give column
/// `from` carried to column `to`, where carrying is allowed and there is
/// such a fact.
pub open spec fn carried(
    side: LogicalPlan<BoundExpr>,
    facts: Seq<(ColumnKey, ValueView)>,
    allowed: bool,
    from: BoundColumn,
    to: BoundColumn,
    result: LogicalPlan<BoundExpr>,
) -> bool {
    if allowed {
        match last_index(facts, column_key(from)) {
            Some(i) => derived_into(side, result, to, from, facts[i].1),
            None => result == side,
        }
    } else {
        result == side
    }
}

/// One join equality `first = second` applied: constants of the left side
/// carried right both ways, then constants of the right side carried left.
pub open spec fn pair_step(
    lm: LogicalPlan<BoundExpr>,
    rm: LogicalPlan<BoundExpr>,
    pair: (BoundColumn, BoundColumn),
    left_facts: Seq<(ColumnKey, ValueView)>,
    right_facts: Seq<(ColumnKey, ValueView)>,
    into: (bool, bool),
    l: LogicalPlan<BoundExpr>,
    r: LogicalPlan<BoundExpr>,
) -> bool {
    exists|r1: LogicalPlan<BoundExpr>, l1: LogicalPlan<BoundExpr>|
        #[trigger] carried(rm, left_facts, into.1, pair.0, pair.1, r1) && carried(
            r1,
            left_facts,
            into.1,
            pair.1,
            pair.0,
            r,
        ) && #[trigger] carried(lm, right_facts, into.0, pair.0, pair.1, l1) && carried(
            l1,
            right_facts,
            into.0,
            pair.1,
            pair.0,
            l,
        )
}

/// The join inputs after applying the equalities `pairs` in order.
pub open spec fn pairs_applied(
    l0: LogicalPlan<BoundExpr>,
    r0: LogicalPlan<BoundExpr>,
    pairs: Seq<(BoundColumn, BoundColumn)>,
    left_facts: Seq<(ColumnKey, ValueView)>,
    right_facts: Seq<(ColumnKey, ValueView)>,
    into: (bool, bool),
    l: LogicalPlan<BoundExpr>,
    r: LogicalPlan<BoundExpr>,
) -> bool
    decreases pairs.len(),
{
    if pairs.len() == 0 {
        l == l0 && r == r0
    } else {
        exists|lm: LogicalPlan<BoundExpr>, rm: LogicalPlan<BoundExpr>|
            pairs_applied(l0, r0, pairs.drop_last(), left_facts, right_facts, into, lm, rm) && #[trigger] pair_step(
                lm,
                rm,
                pairs.last(),
                left_facts,
                right_facts,
                into,
                l,
                r,
            )
    }
}

/// The column-to-column equalities of a conjunction, in the order a
/// right-first walk finds them.
pub open spec fn equality_pairs(e: BoundExpr) -> Seq<(BoundColumn, BoundColumn)>
    decreases e,
{
    match e.kind {
        BoundExprKind::Binary { op, left, right } => if op == BinaryOp::And {
            equality_pairs(*right) + equality_pairs(*left)
        } else if op == BinaryOp::Equal && left.kind is Column && right.kind is Column {
            seq![(left.kind->Column_0, right.kind->Column_0)]
        } else {
            seq![]
        },
        _ => seq![],
    }
}

/// Whether `a` is `b` with join constants carried across every join,
/// bottom up.
pub open spec fn constants_propagated(b: LogicalPlan<BoundExpr>, a: LogicalPlan<BoundExpr>) -> bool
    decreases b,
{
    match b {
        LogicalPlan::Empty | LogicalPlan::OneRow | LogicalPlan::Scan(_) => a == b,
        LogicalPlan::Join { left, right, kind, condition } => a matches LogicalPlan::Join {
            left: al,
            right: ar,
            kind: ak,
            condition: ac,
        } && ak == kind && ac == condition && exists|lp: LogicalPlan<BoundExpr>, rp: LogicalPlan<BoundExpr>|
            constants_propagated(*left, lp) && constants_propagated(*right, rp) && #[trigger] joined_constants(
                lp,
                rp,
                kind,
                condition,
                *al,
                *ar,
            ),
        LogicalPlan::Derived { input, columns } => a matches LogicalPlan::Derived { input: ai, columns: ac }
            && ac == columns && constants_propagated(*input, *ai),
        LogicalPlan::CrossJoin { inputs } => a matches LogicalPlan::CrossJoin { inputs: ais }
            && ais@.len() == inputs@.len() && forall|i: int|
            0 <= i < inputs@.len() ==> constants_propagated(#[trigger] inputs@[i], ais@[i]),
        LogicalPlan::UnionAll { inputs } => a matches LogicalPlan::UnionAll { inputs: ais }
            && ais@.len() == inputs@.len() && forall|i: int|
            0 <= i < inputs@.len() ==> constants_propagated(#[trigger] inputs@[i], ais@[i]),
        LogicalPlan::Filter { input, predicate } => a matches LogicalPlan::Filter { input: ai, predicate: ap }
            && ap == predicate && constants_propagated(*input, *ai),
        LogicalPlan::Aggregate { input, group_by, aggregates } => a matches LogicalPlan::Aggregate {
            input: ai,
            group_by: ag,
            aggregates: aa,
        } && ag == group_by && aa == aggregates && constants_propagated(*input, *ai),
        LogicalPlan::Project { input, expressions } => a matches LogicalPlan::Project {
            input: ai,
            expressions: ae,
        } && ae == expressions && constants_propagated(*input, *ai),
        LogicalPlan::Distinct { input } => a matches LogicalPlan::Distinct { input: ai }
            && constants_propagated(*input, *ai),
        LogicalPlan::Sort { input, keys } => a matches LogicalPlan::Sort { input: ai, keys: ak } && ak == keys
            && constants_propagated(*input, *ai),
        LogicalPlan::Limit { input, limit } => a matches LogicalPlan::Limit { input: ai, limit: al } && al
            == limit && constants_propagated(*input, *ai),
    }
}

/// Whether a join's inputs become `l` and `r` from `lp` and `rp` by the
/// constants its condition's equalities carry.
pub open spec fn joined_constants(
    lp: LogicalPlan<BoundExpr>,
    rp: LogicalPlan<BoundExpr>,
    kind: BoundJoinKind,
    condition: Option<BoundExpr>,
    l: LogicalPlan<BoundExpr>,
    r: LogicalPlan<BoundExpr>,
) -> bool {
    match condition {
        None => l == lp && r == rp,
        Some(predicate) => pairs_applied(
            lp,
            rp,
            equality_pairs(predicate),
            plan_facts(lp),
            plan_facts(rp),
            propagation(kind),
            l,
            r,
        ),
    }
}

/// The facts of two lists of conjuncts are those of each, in order.
proof fn lemma_facts_concat(a: Seq<BoundExpr>, b: Seq<BoundExpr>)
    ensures
        facts_of(a + b) == facts_of(a) + facts_of(b),
    decreases b.len(),
{
    if b.len() == 0 {
        assert(a + b =~= a);
        assert(facts_of(a) + facts_of(b) =~= facts_of(a));
    } else {
        lemma_facts_concat(a, b.drop_last());
        assert((a + b).drop_last() =~= a + b.drop_last());
        assert((a + b).last() == b.last());
        assert(facts_of(a + b) =~= facts_of(a) + facts_of(b));
    }
}

/// The views of a fact list with one more fact.
proof fn lemma_facts_view_push(facts: Seq<(ColumnKey, Value)>, f: (ColumnKey, Value))
    ensures
        facts_view(facts.push(f)) == facts_view(facts).push((f.0, value_view(f.1))),
{
    assert(facts_view(facts.push(f)) =~= facts_view(facts).push((f.0, value_view(f.1))));
}

/// Whether two values are alike: the same variant and payload.
fn values_alike(a: &Value, b: &Value) -> (r: bool)
    ensures
        r == (value_view(*a) == value_view(*b)),
{
    match (a, b) {
        (Value::Null, Value::Null) => true,
        (Value::Boolean(x), Value::Boolean(y)) => *x == *y,
        (Value::Int64(x), Value::Int64(y)) => *x == *y,
        (Value::UInt64(x), Value::UInt64(y)) => *x == *y,
        (Value::Utf8(x), Value::Utf8(y)) => bytes_alike(x, y),
        (Value::Binary(x), Value::Binary(y)) => bytes_alike(x, y),
        _ => false,
    }
}

/// Whether two byte strings hold the same bytes.
fn bytes_alike(x: &Vec<u8>, y: &Vec<u8>) -> (r: bool)
    ensures
        r == (x@ == y@),
{
    if x.len() != y.len() {
        return false;
    }
    let mut i: usize = 0;
    while i < x.len()
        invariant
            x@.len() == y@.len(),
            i <= x@.len(),
            forall|j: int| 0 <= j < i ==> x@[j] == y@[j],
        decreases x@.len() - i,
    {
        if x[i] != y[i] {
            return false;
        }
        i = i + 1;
    }
    assert(x@ =~= y@);
    true
}

/// The type of a literal of a value.
fn literal_type(v: &Value) -> (r: Option<DataType>)
    ensures
        r == view_type(value_view(*v)),
{
    match v {
        Value::Null => None,
        Value::Boolean(_) => Some(DataType::Boolean),
        Value::Int64(_) => Some(DataType::Int64),
        Value::UInt64(_) => Some(DataType::UInt64),
        Value::Utf8(_) => Some(DataType::Utf8),
        Value::Binary(_) => Some(DataType::Binary),
    }
}

/// Appends the fact one conjunct states.
fn record_fact(c: &BoundExpr, out: &mut Vec<(ColumnKey, Value)>)
    ensures
        facts_view(final(out)@) == facts_view(old(out)@) + match conjunct_fact(*c) {
            Some(f) => seq![f],
            None => seq![],
        },
{
    let ghost start = out@;
    let mut fact: Option<(ColumnKey, Value)> = None;
    match &c.kind {
        BoundExprKind::Binary { op, left, right } => {
            if *op == BinaryOp::Equal {
                match (&left.kind, &right.kind) {
                    (BoundExprKind::Column(col), BoundExprKind::Literal(v)) => {
                        if !matches!(v, Value::Null) {
                            fact = Some((key_of_column(col), copy_value(v)));
                        }
                    },
                    (BoundExprKind::Literal(v), BoundExprKind::Column(col)) => {
                        if !matches!(v, Value::Null) {
                            fact = Some((key_of_column(col), copy_value(v)));
                        }
                    },
                    _ => {},
                }
            }
        },
        _ => {},
    }
    match fact {
        Some(f) => {
            out.push(f);
            proof {
                lemma_facts_view_push(start, f);
            }
        },
        None => {
            assert(facts_view(out@) =~= facts_view(start) + seq![]);
        },
    }
}

/// Appends the facts a predicate's conjuncts state, right first.
fn record_facts(e: &BoundExpr, out: &mut Vec<(ColumnKey, Value)>)
    ensures
        facts_view(final(out)@) == facts_view(old(out)@) + facts_of(conjuncts_rev(*e)),
    decreases e,
{
    let ghost start = facts_view(out@);
    match &e.kind {
        BoundExprKind::Binary { op, left, right } => {
            if *op == BinaryOp::And {
                record_facts(right, out);
                record_facts(left, out);
                proof {
                    lemma_facts_concat(conjuncts_rev(**right), conjuncts_rev(**left));
                    assert(facts_view(out@) =~= start + facts_of(conjuncts_rev(*e)));
                }
                return;
            }
        },
        _ => {},
    }
    record_fact(e, out);
    proof {
        assert(conjuncts_rev(*e) == seq![*e]);
        assert(seq![*e].drop_last() =~= Seq::<BoundExpr>::empty());
        assert(facts_of(seq![*e]) =~= facts_of(Seq::<BoundExpr>::empty()) + match conjunct_fact(*e) {
            Some(f) => seq![f],
            None => seq![],
        });
    }
}

/// Appends the column-equals-literal facts every row of a plan satisfies.
fn collect_constants(plan: &LogicalPlan<BoundExpr>, out: &mut Vec<(ColumnKey, Value)>)
    ensures
        facts_view(final(out)@) == facts_view(old(out)@) + plan_facts(*plan),
    decreases plan,
{
    let ghost start = facts_view(out@);
    match plan {
        LogicalPlan::Scan(scan) => {
            let mut i: usize = 0;
            while i < scan.predicates.len()
                invariant
                    i <= scan.predicates@.len(),
                    facts_view(out@) == start + predicate_facts(scan.predicates@.take(i as int)),
                decreases scan.predicates@.len() - i,
            {
                record_facts(&scan.predicates[i], out);
                i = i + 1;
                proof {
                    let taken = scan.predicates@.take(i as int);
                    assert(taken.drop_last() =~= scan.predicates@.take(i - 1));
                    assert(facts_view(out@) =~= start + predicate_facts(taken));
                }
            }
            assert(scan.predicates@.take(scan.predicates@.len() as int) =~= scan.predicates@);
        },
        LogicalPlan::Filter { input, predicate } => {
            record_facts(predicate, out);
            collect_constants(input, out);
            assert(facts_view(out@) =~= start + plan_facts(*plan));
        },
        LogicalPlan::Join { left, right, kind, .. } => {
            collect_constants(left, out);
            if *kind == BoundJoinKind::Inner {
                collect_constants(right, out);
            }
            assert(facts_view(out@) =~= start + plan_facts(*plan));
        },
        LogicalPlan::Project { input, .. } => collect_constants(input, out),
        LogicalPlan::Aggregate { input, .. } => collect_constants(input, out),
        LogicalPlan::Distinct { input } => collect_constants(input, out),
        LogicalPlan::Sort { input, .. } => collect_constants(input, out),
        LogicalPlan::Limit { input, .. } => collect_constants(input, out),
        LogicalPlan::Derived { input, .. } => collect_constants(input, out),
        _ => {
            assert(facts_view(out@) =~= start + plan_facts(*plan));
        },
    }
}

/// The last fact about a column is found by looking past the facts after
/// it that are about other columns.
proof fn lemma_last_index_suffix(s: Seq<(ColumnKey, ValueView)>, k: ColumnKey, i: int)
    requires
        0 <= i <= s.len(),
        forall|j: int| i <= j < s.len() ==> (#[trigger] s[j]).0 != k,
    ensures
        last_index(s, k) == last_index(s.take(i), k),
    decreases s.len() - i,
{
    if i < s.len() {
        lemma_last_index_suffix(s.drop_last(), k, i);
        assert(s.drop_last().take(i) =~= s.take(i));
    } else {
        assert(s.take(i) =~= s);
    }
}

/// The index of the last fact about column `k`.
fn last_fact(facts: &Vec<(ColumnKey, Value)>, k: ColumnKey) -> (r: Option<usize>)
    ensures
        match r {
            Some(i) => last_index(facts_view(facts@), k) == Some(i as int) && i < facts@.len(),
            None => last_index(facts_view(facts@), k) is None,
        },
{
    let ghost view = facts_view(facts@);
    let mut i: usize = facts.len();
    while i > 0
        invariant
            i <= facts@.len(),
            view == facts_view(facts@),
            forall|j: int| i <= j < view.len() ==> (#[trigger] view[j]).0 != k,
        decreases i,
    {
        if facts[i - 1].0 == k {
            proof {
                lemma_last_index_suffix(view, k, i as int);
                assert(view.take(i as int).last() == view[i - 1]);
            }
            return Some(i - 1);
        }
        i = i - 1;
    }
    proof {
        lemma_last_index_suffix(view, k, 0);
    }
    None
}

/// `a + b`, saturating at `usize::MAX`.
pub open spec fn capped(n: nat) -> usize {
    if n > usize::MAX {
        usize::MAX
    } else {
        n as usize
    }
}

/// The reachable scans of relation `t` in a plan, capped.
fn count_scans(plan: &LogicalPlan<BoundExpr>, t: &TableKey) -> (r: usize)
    ensures
        r == capped(scan_count(*plan, *t)),
    decreases plan,
{
    match plan {
        LogicalPlan::Scan(scan) => if scan.table.database_id == t.database_id && scan.table.table_id
            == t.table_id && scan.table.relation == t.relation {
            1
        } else {
            0
        },
        LogicalPlan::Join { left, right, .. } => count_scans(left, t).saturating_add(count_scans(right, t)),
        LogicalPlan::Filter { input, .. } => count_scans(input, t),
        LogicalPlan::CrossJoin { inputs } => {
            let mut total: usize = 0;
            let mut i: usize = 0;
            while i < inputs.len()
                invariant
                    i <= inputs@.len(),
                    *plan == (LogicalPlan::CrossJoin { inputs: *inputs }),
                    total == capped(scan_counts(inputs@.subrange(0, i as int), *t)),
                decreases inputs@.len() - i,
            {
                proof {
                    assert(decreases_to!(*plan => plan->CrossJoin_inputs));
                    assert(decreases_to!(plan->CrossJoin_inputs => inputs@));
                    assert(decreases_to!(inputs@ => inputs@[i as int]));
                }
                let c = count_scans(&inputs[i], t);
                total = total.saturating_add(c);
                i = i + 1;
                assert(inputs@.subrange(0, i as int).subrange(0, i - 1) =~= inputs@.subrange(0, i - 1));
            }
            assert(inputs@.subrange(0, inputs@.len() as int) =~= inputs@);
            assert(plan->CrossJoin_inputs@ == inputs@);
            total
        },
        _ => 0,
    }
}

/// Whether `e` is the predicate `target = value` a join equality derives.
fn is_derived(e: &BoundExpr, target: &BoundColumn, value: &Value) -> (r: bool)
    ensures
        r == is_derived_equality(*e, *target, value_view(*value)),
{
    let typed = match e.data_type {
        Some(DataType::Boolean) => true,
        _ => false,
    };
    if !typed || e.nullable != target.nullable {
        return false;
    }
    match &e.kind {
        BoundExprKind::Binary { op, left, right } => {
            if *op != BinaryOp::Equal {
                return false;
            }
            let column_matches = match &left.kind {
                BoundExprKind::Column(c) => *c == *target,
                _ => false,
            };
            let literal_matches = match &right.kind {
                BoundExprKind::Literal(v) => values_alike(v, value),
                _ => false,
            };
            column_matches && left.data_type == Some(target.data_type) && left.nullable == target.nullable
                && literal_matches && right.data_type == literal_type(value) && right.nullable == matches!(value, Value::Null)
        },
        _ => false,
    }
}

/// Whether a scan already holds the predicate `target = value`.
fn holds_derived(predicates: &Vec<BoundExpr>, target: &BoundColumn, value: &Value) -> (r: bool)
    ensures
        r == exists|i: int|
            0 <= i < predicates@.len() && is_derived_equality(#[trigger] predicates@[i], *target, value_view(*value)),
{
    let mut i: usize = 0;
    while i < predicates.len()
        invariant
            i <= predicates@.len(),
            forall|j: int| 0 <= j < i ==> !is_derived_equality(#[trigger] predicates@[j], *target, value_view(*value)),
        decreases predicates@.len() - i,
    {
        if is_derived(&predicates[i], target, value) {
            return true;
        }
        i = i + 1;
    }
    false
}

/// The predicate `target = value`.
fn derived_predicate(target: &BoundColumn, value: &Value) -> (r: BoundExpr)
    ensures
        is_derived_equality(r, *target, value_view(*value)),
{
    let literal = BoundExpr {
        data_type: literal_type(value),
        nullable: matches!(value, Value::Null),
        kind: BoundExprKind::Literal(copy_value(value)),
    };
    let column = BoundExpr {
        data_type: Some(target.data_type),
        nullable: target.nullable,
        kind: BoundExprKind::Column(*target),
    };
    BoundExpr {
        data_type: Some(DataType::Boolean),
        nullable: target.nullable,
        kind: BoundExprKind::Binary { op: BinaryOp::Equal, left: Box::new(column), right: Box::new(literal) },
    }
}

/// Adds `target = value` to every input of a list.
fn add_to_each(
    inputs: Vec<LogicalPlan<BoundExpr>>,
    t: &TableKey,
    target: &BoundColumn,
    value: &Value,
) -> (r: Vec<LogicalPlan<BoundExpr>>)
    ensures
        r@.len() == inputs@.len(),
        forall|i: int|
            0 <= i < inputs@.len() ==> constant_added(#[trigger] inputs@[i], r@[i], *t, *target, value_view(*value)),
    decreases inputs, 0nat,
{
    let ghost source = inputs@;
    let mut rest = inputs;
    let total = rest.len();
    let mut out: Vec<LogicalPlan<BoundExpr>> = Vec::new();
    let mut k: usize = 0;
    while rest.len() > 0
        invariant
            source == inputs@,
            total == source.len(),
            k + rest@.len() == source.len(),
            rest@ == source.subrange(k as int, source.len() as int),
            out@.len() == k,
            forall|i: int|
                0 <= i < k ==> constant_added(#[trigger] source[i], out@[i], *t, *target, value_view(*value)),
        decreases rest@.len(),
    {
        let item = rest.remove(0);
        proof {
            assert(item == source[k as int]);
            assert(decreases_to!(inputs => inputs@));
            assert(decreases_to!(inputs@ => inputs@[k as int]));
        }
        let done = add_scan_predicate(item, t, target, value);
        out.push(done);
        proof {
            assert(rest@ =~= source.subrange(k + 1, source.len() as int));
        }
        k = k + 1;
    }
    out
}

/// Adds `target = value` to every reachable scan of relation `t` that
/// does not hold it yet.
fn add_scan_predicate(
    plan: LogicalPlan<BoundExpr>,
    t: &TableKey,
    target: &BoundColumn,
    value: &Value,
) -> (r: LogicalPlan<BoundExpr>)
    ensures
        constant_added(plan, r, *t, *target, value_view(*value)),
    decreases plan, 1nat,
{
    let ghost before = plan;
    match plan {
        LogicalPlan::Scan(scan) => {
            let same = scan.table.database_id == t.database_id && scan.table.table_id == t.table_id
                && scan.table.relation == t.relation;
            if same && !holds_derived(&scan.predicates, target, value) {
                let Scan { table, projected_column_ids, predicates, limit } = scan;
                let ghost old_predicates = predicates@;
                let mut predicates = predicates;
                predicates.push(derived_predicate(target, value));
                assert(predicates@.drop_last() =~= old_predicates);
                LogicalPlan::Scan(Scan { table, projected_column_ids, predicates, limit })
            } else {
                LogicalPlan::Scan(scan)
            }
        },
        LogicalPlan::Join { left, right, kind, condition } => {
            let left = add_scan_predicate(*left, t, target, value);
            let right = if kind == BoundJoinKind::Inner || kind == BoundJoinKind::Left {
                add_scan_predicate(*right, t, target, value)
            } else {
                *right
            };
            LogicalPlan::Join { left: Box::new(left), right: Box::new(right), kind, condition }
        },
        LogicalPlan::Filter { input, predicate } => LogicalPlan::Filter {
            input: Box::new(add_scan_predicate(*input, t, target, value)),
            predicate,
        },
        LogicalPlan::CrossJoin { inputs } => {
            proof {
                assert(decreases_to!(before => before->CrossJoin_inputs));
            }
            LogicalPlan::CrossJoin { inputs: add_to_each(inputs, t, target, value) }
        },
        other => other,
    }
}

/// Adds `target = value`, derived from `source = value`, to the scan of
/// the target's relation when the columns compare alike and exactly one
/// such scan is reachable.
fn derive_into(
    plan: LogicalPlan<BoundExpr>,
    target: &BoundColumn,
    source: &BoundColumn,
    value: &Value,
) -> (r: LogicalPlan<BoundExpr>)
    ensures
        derived_into(plan, r, *target, *source, value_view(*value)),
{
    if target.data_type != source.data_type || target.collation != source.collation || target.is_enum
        || source.is_enum {
        return plan;
    }
    let table = TableKey { database_id: target.database_id, table_id: target.table_id, relation: target.relation };
    if count_scans(&plan, &table) != 1 {
        return plan;
    }
    add_scan_predicate(plan, &table, target, value)
}

/// Carries the constant `facts` give column `from` to column `to` of a
/// join's side, where allowed.
fn carry(
    side: LogicalPlan<BoundExpr>,
    facts: &Vec<(ColumnKey, Value)>,
    allowed: bool,
    from: &BoundColumn,
    to: &BoundColumn,
) -> (r: LogicalPlan<BoundExpr>)
    ensures
        carried(side, facts_view(facts@), allowed, *from, *to, r),
{
    if !allowed {
        return side;
    }
    match last_fact(facts, key_of_column(from)) {
        Some(i) => {
            assert(facts_view(facts@)[i as int].1 == value_view(facts@[i as int].1));
            derive_into(side, to, from, &facts[i].1)
        },
        None => side,
    }
}

/// Appends the column-to-column equalities of a conjunction, right first.
fn join_equalities(e: &BoundExpr, out: &mut Vec<(BoundColumn, BoundColumn)>)
    ensures
        final(out)@ == old(out)@ + equality_pairs(*e),
    decreases e,
{
    let ghost start = out@;
    match &e.kind {
        BoundExprKind::Binary { op, left, right } => {
            if *op == BinaryOp::And {
                join_equalities(right, out);
                join_equalities(left, out);
                assert(out@ =~= start + equality_pairs(*e));
            } else if *op == BinaryOp::Equal {
                match (&left.kind, &right.kind) {
                    (BoundExprKind::Column(a), BoundExprKind::Column(b)) => {
                        out.push((*a, *b));
                        assert(out@ =~= start + equality_pairs(*e));
                    },
                    _ => {
                        assert(out@ =~= start + equality_pairs(*e));
                    },
                }
            } else {
                assert(out@ =~= start + equality_pairs(*e));
            }
        },
        _ => {
            assert(out@ =~= start + equality_pairs(*e));
        },
    }
}

/// Carries the constants of each side of a join across the equalities of
/// its condition, into the sides its kind allows.
fn carry_constants(
    lp: LogicalPlan<BoundExpr>,
    rp: LogicalPlan<BoundExpr>,
    kind: BoundJoinKind,
    predicate: &BoundExpr,
) -> (r: (LogicalPlan<BoundExpr>, LogicalPlan<BoundExpr>))
    ensures
        pairs_applied(
            lp,
            rp,
            equality_pairs(*predicate),
            plan_facts(lp),
            plan_facts(rp),
            propagation(kind),
            r.0,
            r.1,
        ),
{
    let (into_left, into_right) = match kind {
        BoundJoinKind::Inner => (true, true),
        BoundJoinKind::Left => (false, true),
        _ => (false, false),
    };
    let ghost into = propagation(kind);
    assert(into == (into_left, into_right));
    let mut left_facts: Vec<(ColumnKey, Value)> = Vec::new();
    collect_constants(&lp, &mut left_facts);
    let mut right_facts: Vec<(ColumnKey, Value)> = Vec::new();
    collect_constants(&rp, &mut right_facts);
    let ghost lf = facts_view(left_facts@);
    let ghost rf = facts_view(right_facts@);
    assert(lf =~= plan_facts(lp));
    assert(rf =~= plan_facts(rp));
    let mut pairs: Vec<(BoundColumn, BoundColumn)> = Vec::new();
    join_equalities(predicate, &mut pairs);
    assert(pairs@ =~= equality_pairs(*predicate));
    let ghost l0 = lp;
    let ghost r0 = rp;
    let mut left = lp;
    let mut right = rp;
    let mut k: usize = 0;
    assert(pairs@.take(0) =~= Seq::<(BoundColumn, BoundColumn)>::empty());
    while k < pairs.len()
        invariant
            k <= pairs@.len(),
            lf == facts_view(left_facts@),
            rf == facts_view(right_facts@),
            into == (into_left, into_right),
            pairs_applied(l0, r0, pairs@.take(k as int), lf, rf, into, left, right),
        decreases pairs@.len() - k,
    {
        let (first, second) = pairs[k];
        let ghost lm = left;
        let ghost rm = right;
        let r1 = carry(right, &left_facts, into_right, &first, &second);
        let ghost gr1 = r1;
        right = carry(r1, &left_facts, into_right, &second, &first);
        let l1 = carry(left, &right_facts, into_left, &first, &second);
        let ghost gl1 = l1;
        left = carry(l1, &right_facts, into_left, &second, &first);
        k = k + 1;
        proof {
            let taken = pairs@.take(k as int);
            assert(taken.drop_last() =~= pairs@.take(k - 1));
            assert(taken.last() == (first, second));
            assert(carried(rm, lf, into.1, first, second, gr1));
            assert(carried(lm, rf, into.0, first, second, gl1));
            assert(pair_step(lm, rm, taken.last(), lf, rf, into, left, right));
            assert(pairs_applied(l0, r0, taken, lf, rf, into, left, right));
        }
    }
    assert(pairs@.take(pairs@.len() as int) =~= pairs@);
    (left, right)
}

/// Propagates join constants through every input of a list.
fn propagate_each(inputs: Vec<LogicalPlan<BoundExpr>>) -> (r: Vec<LogicalPlan<BoundExpr>>)
    ensures
        r@.len() == inputs@.len(),
        forall|i: int| 0 <= i < inputs@.len() ==> constants_propagated(#[trigger] inputs@[i], r@[i]),
    decreases inputs, 0nat,
{
    let ghost source = inputs@;
    let mut rest = inputs;
    let total = rest.len();
    let mut out: Vec<LogicalPlan<BoundExpr>> = Vec::new();
    let mut k: usize = 0;
    while rest.len() > 0
        invariant
            source == inputs@,
            total == source.len(),
            k + rest@.len() == source.len(),
            rest@ == source.subrange(k as int, source.len() as int),
            out@.len() == k,
            forall|i: int| 0 <= i < k ==> constants_propagated(#[trigger] source[i], out@[i]),
        decreases rest@.len(),
    {
        let item = rest.remove(0);
        proof {
            assert(item == source[k as int]);
            assert(decreases_to!(inputs => inputs@));
            assert(decreases_to!(inputs@ => inputs@[k as int]));
        }
        let done = propagate_join_constants(item);
        out.push(done);
        proof {
            assert(rest@ =~= source.subrange(k + 1, source.len() as int));
        }
        k = k + 1;
    }
    out
}

/// Carries column-equals-literal constants across the equalities of every
/// join, bottom up, into the scans on the other side that the join's kind
/// lets take them.
pub fn propagate_join_constants(plan: LogicalPlan<BoundExpr>) -> (r: LogicalPlan<BoundExpr>)
    ensures
        constants_propagated(plan, r),
    decreases plan, 1nat,
{
    let ghost before = plan;
    match plan {
        LogicalPlan::Join { left, right, kind, condition } => {
            let lp = propagate_join_constants(*left);
            let rp = propagate_join_constants(*right);
            let ghost glp = lp;
            let ghost grp = rp;
            let (l, r) = match &condition {
                None => (lp, rp),
                Some(predicate) => carry_constants(lp, rp, kind, predicate),
            };
            assert(joined_constants(glp, grp, kind, condition, l, r));
            LogicalPlan::Join { left: Box::new(l), right: Box::new(r), kind, condition }
        },
        LogicalPlan::Empty => LogicalPlan::Empty,
        LogicalPlan::OneRow => LogicalPlan::OneRow,
        LogicalPlan::Scan(scan) => LogicalPlan::Scan(scan),
        LogicalPlan::Derived { input, columns } => LogicalPlan::Derived {
            input: Box::new(propagate_join_constants(*input)),
            columns,
        },
        LogicalPlan::CrossJoin { inputs } => {
            proof {
                assert(decreases_to!(before => before->CrossJoin_inputs));
            }
            LogicalPlan::CrossJoin { inputs: propagate_each(inputs) }
        },
        LogicalPlan::UnionAll { inputs } => {
            proof {
                assert(decreases_to!(before => before->UnionAll_inputs));
            }
            LogicalPlan::UnionAll { inputs: propagate_each(inputs) }
        },
        LogicalPlan::Filter { input, predicate } => LogicalPlan::Filter {
            input: Box::new(propagate_join_constants(*input)),
            predicate,
        },
        LogicalPlan::Aggregate { input, group_by, aggregates } => LogicalPlan::Aggregate {
            input: Box::new(propagate_join_constants(*input)),
            group_by,
            aggregates,
        },
        LogicalPlan::Project { input, expressions } => LogicalPlan::Project {
            input: Box::new(propagate_join_constants(*input)),
            expressions,
        },
        LogicalPlan::Distinct { input } => LogicalPlan::Distinct {
            input: Box::new(propagate_join_constants(*input)),
        },
        LogicalPlan::Sort { input, keys } => LogicalPlan::Sort {
            input: Box::new(propagate_join_constants(*input)),
            keys,
        },
        LogicalPlan::Limit { input, limit } => LogicalPlan::Limit {
            input: Box::new(propagate_join_constants(*input)),
            limit,
        },
    }
}

/// A side that may not take constants is left as it was by every pair.
proof fn lemma_pairs_keep_closed_sides(
    l0: LogicalPlan<BoundExpr>,
    r0: LogicalPlan<BoundExpr>,
    pairs: Seq<(BoundColumn, BoundColumn)>,
    lf: Seq<(ColumnKey, ValueView)>,
    rf: Seq<(ColumnKey, ValueView)>,
    into: (bool, bool),
    l: LogicalPlan<BoundExpr>,
    r: LogicalPlan<BoundExpr>,
)
    requires
        pairs_applied(l0, r0, pairs, lf, rf, into, l, r),
    ensures
        !into.0 ==> l == l0,
        !into.1 ==> r == r0,
    decreases pairs.len(),
{
    if pairs.len() > 0 {
        let (lm, rm) = choose|lm: LogicalPlan<BoundExpr>, rm: LogicalPlan<BoundExpr>|
            pairs_applied(l0, r0, pairs.drop_last(), lf, rf, into, lm, rm) && #[trigger] pair_step(
                lm,
                rm,
                pairs.last(),
                lf,
                rf,
                into,
                l,
                r,
            );
        lemma_pairs_keep_closed_sides(l0, r0, pairs.drop_last(), lf, rf, into, lm, rm);
    }
}

/// A join carries constants only into the sides its kind allows: a LEFT
/// join never filters its preserved left side, and a semi, anti or cross
/// join filters neither side.
pub proof fn law_constants_respect_join_kind(
    lp: LogicalPlan<BoundExpr>,
    rp: LogicalPlan<BoundExpr>,
    kind: BoundJoinKind,
    condition: Option<BoundExpr>,
    l: LogicalPlan<BoundExpr>,
    r: LogicalPlan<BoundExpr>,
)
    requires
        joined_constants(lp, rp, kind, condition, l, r),
    ensures
        kind == BoundJoinKind::Left ==> l == lp,
        kind == BoundJoinKind::Semi || kind == BoundJoinKind::Anti || kind == BoundJoinKind::Cross ==> l == lp
            && r == rp,
{
    match condition {
        Some(predicate) => lemma_pairs_keep_closed_sides(
            lp,
            rp,
            equality_pairs(predicate),
            plan_facts(lp),
            plan_facts(rp),
            propagation(kind),
            l,
            r,
        ),
        None => {},
    }
}

/// Whether every scan of relation `t` that adding a constant reaches
/// already holds `target = value`.
pub open spec fn holds_constant(p: LogicalPlan<BoundExpr>, t: TableKey, target: BoundColumn, value: ValueView) -> bool
    decreases p,
{
    match p {
        LogicalPlan::Scan(scan) => table_key(scan.table) == t ==> exists|i: int|
            0 <= i < scan.predicates@.len() && is_derived_equality(#[trigger] scan.predicates@[i], target, value),
        LogicalPlan::Join { left, right, kind, .. } => holds_constant(*left, t, target, value) && (kind
            == BoundJoinKind::Inner || kind == BoundJoinKind::Left ==> holds_constant(*right, t, target, value)),
        LogicalPlan::Filter { input, .. } => holds_constant(*input, t, target, value),
        LogicalPlan::CrossJoin { inputs } => forall|i: int|
            0 <= i < inputs@.len() ==> holds_constant(#[trigger] inputs@[i], t, target, value),
        _ => true,
    }
}

/// How many predicates the scans beneath joins, filters and cross joins
/// hold.
pub open spec fn scan_predicate_total(p: LogicalPlan<BoundExpr>) -> nat
    decreases p,
{
    match p {
        LogicalPlan::Scan(scan) => scan.predicates@.len(),
        LogicalPlan::Join { left, right, .. } => scan_predicate_total(*left) + scan_predicate_total(*right),
        LogicalPlan::Filter { input, .. } => scan_predicate_total(*input),
        LogicalPlan::CrossJoin { inputs } => {
            proof {
                assert(decreases_to!(p => p->CrossJoin_inputs));
                assert(decreases_to!(p->CrossJoin_inputs => p->CrossJoin_inputs@));
            }
            scan_predicate_totals(inputs@)
        },
        _ => 0,
    }
}

/// How many predicates the scans of a list of plans hold.
pub open spec fn scan_predicate_totals(s: Seq<LogicalPlan<BoundExpr>>) -> nat
    decreases s,
{
    if s.len() == 0 {
        0
    } else {
        proof {
            assert(decreases_to!(s => s[s.len() - 1]));
            assert(decreases_to!(s => s.subrange(0, s.len() - 1)));
        }
        scan_predicate_totals(s.subrange(0, s.len() - 1)) + scan_predicate_total(s[s.len() - 1])
    }
}

/// Lists whose plans pairwise hold as many predicates hold as many.
proof fn lemma_totals_pointwise(s: Seq<LogicalPlan<BoundExpr>>, u: Seq<LogicalPlan<BoundExpr>>)
    requires
        s.len() == u.len(),
        forall|i: int| 0 <= i < s.len() ==> scan_predicate_total(#[trigger] u[i]) == scan_predicate_total(s[i]),
    ensures
        scan_predicate_totals(u) == scan_predicate_totals(s),
    decreases s.len(),
{
    if s.len() > 0 {
        let n = s.len() - 1;
        lemma_totals_pointwise(s.subrange(0, n), u.subrange(0, n));
        assert(scan_predicate_total(u[n]) == scan_predicate_total(s[n]));
    }
}

/// After a constant is added, every scan it reaches holds it.
proof fn lemma_added_constant_held(
    b: LogicalPlan<BoundExpr>,
    a: LogicalPlan<BoundExpr>,
    t: TableKey,
    target: BoundColumn,
    value: ValueView,
)
    requires
        constant_added(b, a, t, target, value),
    ensures
        holds_constant(a, t, target, value),
    decreases b,
{
    match b {
        LogicalPlan::Scan(scan) => {
            if table_key(scan.table) == t && !(exists|i: int|
                0 <= i < scan.predicates@.len() && is_derived_equality(
                    #[trigger] scan.predicates@[i],
                    target,
                    value,
                )) {
                let s = a->Scan_0;
                let last = s.predicates@.len() - 1;
                assert(s.predicates@[last] == s.predicates@.last());
                assert(is_derived_equality(s.predicates@[last], target, value));
            }
        },
        LogicalPlan::Join { left, right, kind, .. } => {
            lemma_added_constant_held(*left, *a->Join_left, t, target, value);
            if kind == BoundJoinKind::Inner || kind == BoundJoinKind::Left {
                lemma_added_constant_held(*right, *a->Join_right, t, target, value);
            }
        },
        LogicalPlan::Filter { input, .. } => lemma_added_constant_held(*input, *a->Filter_input, t, target, value),
        LogicalPlan::CrossJoin { inputs } => {
            let ais = a->CrossJoin_inputs;
            assert forall|i: int| 0 <= i < ais@.len() implies holds_constant(#[trigger] ais@[i], t, target, value) by {
                assert(decreases_to!(b => b->CrossJoin_inputs));
                assert(decreases_to!(b->CrossJoin_inputs => inputs@));
                assert(decreases_to!(inputs@ => inputs@[i]));
                assert(constant_added(inputs@[i], ais@[i], t, target, value));
                lemma_added_constant_held(inputs@[i], ais@[i], t, target, value);
            }
        },
        _ => {},
    }
}

/// Adding a constant every reachable scan already holds adds no predicate.
proof fn lemma_held_constant_adds_nothing(
    a: LogicalPlan<BoundExpr>,
    a2: LogicalPlan<BoundExpr>,
    t: TableKey,
    target: BoundColumn,
    value: ValueView,
)
    requires
        holds_constant(a, t, target, value),
        constant_added(a, a2, t, target, value),
    ensures
        scan_predicate_total(a2) == scan_predicate_total(a),
    decreases a,
{
    match a {
        LogicalPlan::Join { left, right, kind, .. } => {
            lemma_held_constant_adds_nothing(*left, *a2->Join_left, t, target, value);
            if kind == BoundJoinKind::Inner || kind == BoundJoinKind::Left {
                lemma_held_constant_adds_nothing(*right, *a2->Join_right, t, target, value);
            }
        },
        LogicalPlan::Filter { input, .. } => lemma_held_constant_adds_nothing(*input, *a2->Filter_input, t, target, value),
        LogicalPlan::CrossJoin { inputs } => {
            let bis = a2->CrossJoin_inputs;
            assert forall|i: int| 0 <= i < inputs@.len() implies scan_predicate_total(#[trigger] bis@[i])
                == scan_predicate_total(inputs@[i]) by {
                assert(decreases_to!(a => a->CrossJoin_inputs));
                assert(decreases_to!(a->CrossJoin_inputs => inputs@));
                assert(decreases_to!(inputs@ => inputs@[i]));
                assert(constant_added(inputs@[i], bis@[i], t, target, value));
                assert(holds_constant(inputs@[i], t, target, value));
                lemma_held_constant_adds_nothing(inputs@[i], bis@[i], t, target, value);
            }
            lemma_totals_pointwise(inputs@, bis@);
        },
        _ => {},
    }
}

/// A derived constant is added once: afterwards every scan it reaches
/// holds it, so adding it again adds no predicate, however often the
/// propagation runs.
pub proof fn law_derived_constant_added_once(
    b: LogicalPlan<BoundExpr>,
    a: LogicalPlan<BoundExpr>,
    a2: LogicalPlan<BoundExpr>,
    t: TableKey,
    target: BoundColumn,
    value: ValueView,
)
    requires
        constant_added(b, a, t, target, value),
        constant_added(a, a2, t, target, value),
    ensures
        holds_constant(a, t, target, value),
        scan_predicate_total(a2) == scan_predicate_total(a),
{
    lemma_added_constant_held(b, a, t, target, value);
    lemma_held_constant_adds_nothing(a, a2, t, target, value);
}

} // verus!
