//! What predicate pushdown keeps: every conjunct a plan filters on is
//! still there afterwards, exactly once, and a pushed conjunct lands on
//! a scan of the relation it names.
use crate::bound_expr::{and_of, conjuncts, is_and, BoundExpr, BoundExprKind, TableKey};
use crate::compare::BinaryOp;
use crate::logical::LogicalPlan;
use crate::pushdown::{
    and_all, conjunct_moved, conjunct_step, conjuncts_pushed, predicates_pushed, push_target, pushed,
    residual_filter, sole_holder, table_key, takes_left,
};
use vstd::multiset::Multiset;
use vstd::prelude::*;

verus! {

broadcast use {
    vstd::multiset::group_multiset_axioms,
    vstd::seq_lib::group_to_multiset_ensures,
    vstd::seq_lib::lemma_multiset_commutative,
};

/// Every conjunct a plan filters on: the predicates of its scans and the
/// conjuncts of its filters. Join conditions are not counted.
pub open spec fn predicate_bag(p: LogicalPlan<BoundExpr>) -> Multiset<BoundExpr>
    decreases p,
{
    match p {
        LogicalPlan::Scan(scan) => scan.predicates@.to_multiset(),
        LogicalPlan::Filter { input, predicate } => predicate_bag(*input).add(conjuncts(predicate).to_multiset()),
        LogicalPlan::Join { left, right, .. } => predicate_bag(*left).add(predicate_bag(*right)),
        LogicalPlan::CrossJoin { inputs } => {
            proof {
                assert(decreases_to!(p => p->CrossJoin_inputs));
                assert(decreases_to!(p->CrossJoin_inputs => p->CrossJoin_inputs@));
            }
            bags_of(inputs@)
        },
        LogicalPlan::UnionAll { inputs } => {
            proof {
                assert(decreases_to!(p => p->UnionAll_inputs));
                assert(decreases_to!(p->UnionAll_inputs => p->UnionAll_inputs@));
            }
            bags_of(inputs@)
        },
        LogicalPlan::Derived { input, .. } => predicate_bag(*input),
        LogicalPlan::Aggregate { input, .. } => predicate_bag(*input),
        LogicalPlan::Project { input, .. } => predicate_bag(*input),
        LogicalPlan::Distinct { input } => predicate_bag(*input),
        LogicalPlan::Sort { input, .. } => predicate_bag(*input),
        LogicalPlan::Limit { input, .. } => predicate_bag(*input),
        LogicalPlan::Empty | LogicalPlan::OneRow => Multiset::empty(),
    }
}

/// The conjuncts a list of plans filters on, together.
pub open spec fn bags_of(s: Seq<LogicalPlan<BoundExpr>>) -> Multiset<BoundExpr>
    decreases s,
{
    if s.len() == 0 {
        Multiset::empty()
    } else {
        proof {
            assert(decreases_to!(s => s[s.len() - 1]));
            assert(decreases_to!(s => s.subrange(0, s.len() - 1)));
        }
        bags_of(s.subrange(0, s.len() - 1)).add(predicate_bag(s[s.len() - 1]))
    }
}

/// The predicates of the scans of relation `t` in a plan.
pub open spec fn relation_bag(p: LogicalPlan<BoundExpr>, t: TableKey) -> Multiset<BoundExpr>
    decreases p,
{
    match p {
        LogicalPlan::Scan(scan) => if table_key(scan.table) == t {
            scan.predicates@.to_multiset()
        } else {
            Multiset::empty()
        },
        LogicalPlan::Filter { input, .. } => relation_bag(*input, t),
        LogicalPlan::Join { left, right, .. } => relation_bag(*left, t).add(relation_bag(*right, t)),
        LogicalPlan::CrossJoin { inputs } => {
            proof {
                assert(decreases_to!(p => p->CrossJoin_inputs));
                assert(decreases_to!(p->CrossJoin_inputs => p->CrossJoin_inputs@));
            }
            relation_bags(inputs@, t)
        },
        LogicalPlan::UnionAll { inputs } => {
            proof {
                assert(decreases_to!(p => p->UnionAll_inputs));
                assert(decreases_to!(p->UnionAll_inputs => p->UnionAll_inputs@));
            }
            relation_bags(inputs@, t)
        },
        LogicalPlan::Derived { input, .. } => relation_bag(*input, t),
        LogicalPlan::Aggregate { input, .. } => relation_bag(*input, t),
        LogicalPlan::Project { input, .. } => relation_bag(*input, t),
        LogicalPlan::Distinct { input } => relation_bag(*input, t),
        LogicalPlan::Sort { input, .. } => relation_bag(*input, t),
        LogicalPlan::Limit { input, .. } => relation_bag(*input, t),
        LogicalPlan::Empty | LogicalPlan::OneRow => Multiset::empty(),
    }
}

/// The predicates of the scans of relation `t` in a list of plans.
pub open spec fn relation_bags(s: Seq<LogicalPlan<BoundExpr>>, t: TableKey) -> Multiset<BoundExpr>
    decreases s,
{
    if s.len() == 0 {
        Multiset::empty()
    } else {
        proof {
            assert(decreases_to!(s => s[s.len() - 1]));
            assert(decreases_to!(s => s.subrange(0, s.len() - 1)));
        }
        relation_bags(s.subrange(0, s.len() - 1), t).add(relation_bag(s[s.len() - 1], t))
    }
}

/// Replacing one plan of a list by one whose bag has one more conjunct
/// adds that conjunct to the list's bag.
proof fn lemma_bags_update(
    s: Seq<LogicalPlan<BoundExpr>>,
    u: Seq<LogicalPlan<BoundExpr>>,
    j: int,
    pred: BoundExpr,
)
    requires
        s.len() == u.len(),
        0 <= j < s.len(),
        forall|i: int| 0 <= i < s.len() && i != j ==> #[trigger] u[i] == s[i],
        predicate_bag(u[j]) == predicate_bag(s[j]).insert(pred),
    ensures
        bags_of(u) == bags_of(s).insert(pred),
    decreases s.len(),
{
    let n = s.len() - 1;
    if j == n {
        assert(u.subrange(0, n) =~= s.subrange(0, n));
    } else {
        lemma_bags_update(s.subrange(0, n), u.subrange(0, n), j, pred);
        assert(u[n] == s[n]);
    }
    assert(bags_of(u) =~= bags_of(s).insert(pred));
}

/// Lists whose plans pairwise filter on the same conjuncts filter on the
/// same conjuncts.
proof fn lemma_bags_equal(s: Seq<LogicalPlan<BoundExpr>>, u: Seq<LogicalPlan<BoundExpr>>)
    requires
        s.len() == u.len(),
        forall|i: int| 0 <= i < s.len() ==> predicate_bag(#[trigger] u[i]) == predicate_bag(s[i]),
    ensures
        bags_of(u) == bags_of(s),
    decreases s.len(),
{
    if s.len() > 0 {
        let n = s.len() - 1;
        lemma_bags_equal(s.subrange(0, n), u.subrange(0, n));
        assert(predicate_bag(u[n]) == predicate_bag(s[n]));
    }
}

/// A pushed conjunct is added to the plan's bag, once.
proof fn lemma_pushed_bag(b: LogicalPlan<BoundExpr>, a: LogicalPlan<BoundExpr>, pred: BoundExpr, t: TableKey)
    requires
        pushed(b, a, pred, t),
    ensures
        predicate_bag(a) == predicate_bag(b).insert(pred),
    decreases b,
{
    match b {
        LogicalPlan::Scan(scan) => {
            let s = a->Scan_0;
            assert(s.predicates@ == scan.predicates@.push(pred));
        },
        LogicalPlan::CrossJoin { inputs } => {
            let ais = a->CrossJoin_inputs;
            let j = choose|j: int|
                sole_holder(inputs@, t, j) && pushed(#[trigger] inputs@[j], ais@[j], pred, t) && (forall|i: int|
                    0 <= i < inputs@.len() && i != j ==> #[trigger] ais@[i] == inputs@[i]);
            assert(decreases_to!(b => b->CrossJoin_inputs));
            assert(decreases_to!(b->CrossJoin_inputs => inputs@));
            assert(decreases_to!(inputs@ => inputs@[j]));
            lemma_pushed_bag(inputs@[j], ais@[j], pred, t);
            lemma_bags_update(inputs@, ais@, j, pred);
        },
        LogicalPlan::Join { left, right, .. } => {
            if takes_left(*left, *right, t) {
                lemma_pushed_bag(*left, *a->Join_left, pred, t);
            } else {
                lemma_pushed_bag(*right, *a->Join_right, pred, t);
            }
            assert(predicate_bag(a) =~= predicate_bag(b).insert(pred));
        },
        _ => {},
    }
}

/// Pushing a list of conjuncts moves each either into the plan or into
/// the residual: the plan's bag and the residual together hold the
/// plan's former bag and every conjunct, and the residual holds only
/// conjuncts of the list.
proof fn lemma_conjuncts_pushed_bag(
    b: LogicalPlan<BoundExpr>,
    cs: Seq<BoundExpr>,
    a: LogicalPlan<BoundExpr>,
    residual: Seq<BoundExpr>,
)
    requires
        conjuncts_pushed(b, cs, a, residual),
    ensures
        predicate_bag(a).add(residual.to_multiset()) == predicate_bag(b).add(cs.to_multiset()),
        forall|i: int| 0 <= i < residual.len() ==> cs.contains(#[trigger] residual[i]),
    decreases cs.len(),
{
    if cs.len() == 0 {
        assert(residual.to_multiset() =~= Multiset::empty());
        assert(cs.to_multiset() =~= Multiset::empty());
        assert(predicate_bag(a).add(residual.to_multiset()) =~= predicate_bag(b).add(cs.to_multiset()));
    } else {
        let (m, r) = choose|m: LogicalPlan<BoundExpr>, r: Seq<BoundExpr>|
            conjuncts_pushed(b, cs.drop_last(), m, r) && #[trigger] conjunct_moved(m, cs.last(), a, r, residual);
        lemma_conjuncts_pushed_bag(b, cs.drop_last(), m, r);
        let last = cs.last();
        assert(cs =~= cs.drop_last().push(last));
        assert(cs.to_multiset() =~= cs.drop_last().to_multiset().insert(last));
        let moved = match push_target(last) {
            Some(t) => crate::pushdown::accepts(m, t),
            None => false,
        };
        let before = predicate_bag(m).add(r.to_multiset());
        assert(before == predicate_bag(b).add(cs.drop_last().to_multiset()));
        if moved {
            let t = push_target(last)->0;
            lemma_pushed_bag(m, a, last, t);
            assert(residual == r);
            assert(predicate_bag(a).add(residual.to_multiset()) =~= before.insert(last));
        } else {
            assert(residual == r.push(last));
            assert(residual.to_multiset() =~= r.to_multiset().insert(last));
            assert(predicate_bag(a).add(residual.to_multiset()) =~= before.insert(last));
        }
        assert(predicate_bag(b).add(cs.to_multiset()) =~= before.insert(last));
        assert forall|i: int| 0 <= i < residual.len() implies cs.contains(#[trigger] residual[i]) by {
            if i < r.len() {
                assert(residual[i] == r[i]);
                assert(cs.drop_last().contains(r[i]));
                let k = choose|k: int| 0 <= k < cs.drop_last().len() && cs.drop_last()[k] == r[i];
                assert(cs[k] == r[i]);
            } else {
                assert(residual[i] == last);
                assert(cs[cs.len() - 1] == last);
            }
        }
    }
}

/// No conjunct of a predicate is itself an AND.
pub(crate) proof fn lemma_conjuncts_not_and(e: BoundExpr)
    ensures
        forall|i: int| 0 <= i < conjuncts(e).len() ==> !is_and(#[trigger] conjuncts(e)[i]),
    decreases e,
{
    match e.kind {
        BoundExprKind::Binary { op, left, right } => {
            if op == BinaryOp::And {
                lemma_conjuncts_not_and(*left);
                lemma_conjuncts_not_and(*right);
                let l = conjuncts(*left);
                let r = conjuncts(*right);
                assert forall|i: int| 0 <= i < conjuncts(e).len() implies !is_and(#[trigger] conjuncts(e)[i]) by {
                    if i < l.len() {
                        assert(conjuncts(e)[i] == l[i]);
                    } else {
                        assert(conjuncts(e)[i] == r[i - l.len()]);
                    }
                }
            }
        },
        _ => {},
    }
}

/// Folding conjuncts back together and splitting the result gives the
/// same conjuncts.
pub(crate) proof fn lemma_and_all_conjuncts(r: Seq<BoundExpr>)
    requires
        r.len() > 0,
        forall|i: int| 0 <= i < r.len() ==> !is_and(#[trigger] r[i]),
    ensures
        conjuncts(and_all(r)) == r,
    decreases r.len(),
{
    if r.len() == 1 {
        assert(!is_and(r[0]));
        assert(conjuncts(r[0]) =~= seq![r[0]]);
        assert(r =~= seq![r[0]]);
    } else {
        let init = r.drop_last();
        assert forall|i: int| 0 <= i < init.len() implies !is_and(#[trigger] init[i]) by {
            assert(init[i] == r[i]);
        }
        lemma_and_all_conjuncts(init);
        assert(!is_and(r.last()));
        assert(conjuncts(r.last()) =~= seq![r.last()]);
        assert(conjuncts(and_of(and_all(init), r.last())) == conjuncts(and_all(init)) + conjuncts(r.last()));
        assert(r =~= init + seq![r.last()]);
    }
}

/// Pushing predicates moves conjuncts from filters into scans and never
/// drops or duplicates one: the conjuncts a plan filters on, its scans'
/// predicates and its filters' conjuncts together, are the same before
/// and after.
pub proof fn law_pushdown_keeps_every_conjunct(b: LogicalPlan<BoundExpr>, a: LogicalPlan<BoundExpr>)
    requires
        predicates_pushed(b, a),
    ensures
        predicate_bag(a) == predicate_bag(b),
    decreases b,
{
    match b {
        LogicalPlan::Empty | LogicalPlan::OneRow | LogicalPlan::Scan(_) => {},
        LogicalPlan::Derived { input, .. } => law_pushdown_keeps_every_conjunct(*input, *a->Derived_input),
        LogicalPlan::CrossJoin { inputs } => {
            let ais = a->CrossJoin_inputs;
            assert forall|i: int| 0 <= i < inputs@.len() implies predicate_bag(#[trigger] ais@[i]) == predicate_bag(
                inputs@[i],
            ) by {
                assert(decreases_to!(b => b->CrossJoin_inputs));
                assert(decreases_to!(b->CrossJoin_inputs => inputs@));
                assert(decreases_to!(inputs@ => inputs@[i]));
                law_pushdown_keeps_every_conjunct(inputs@[i], ais@[i]);
            }
            lemma_bags_equal(inputs@, ais@);
        },
        LogicalPlan::UnionAll { inputs } => {
            let ais = a->UnionAll_inputs;
            assert forall|i: int| 0 <= i < inputs@.len() implies predicate_bag(#[trigger] ais@[i]) == predicate_bag(
                inputs@[i],
            ) by {
                assert(decreases_to!(b => b->UnionAll_inputs));
                assert(decreases_to!(b->UnionAll_inputs => inputs@));
                assert(decreases_to!(inputs@ => inputs@[i]));
                law_pushdown_keeps_every_conjunct(inputs@[i], ais@[i]);
            }
            lemma_bags_equal(inputs@, ais@);
        },
        LogicalPlan::Join { left, right, .. } => {
            law_pushdown_keeps_every_conjunct(*left, *a->Join_left);
            law_pushdown_keeps_every_conjunct(*right, *a->Join_right);
        },
        LogicalPlan::Filter { input, predicate } => {
            let (m, mid, r) = choose|m: LogicalPlan<BoundExpr>, mid: LogicalPlan<BoundExpr>, r: Seq<BoundExpr>|
                predicates_pushed(*input, m) && #[trigger] conjuncts_pushed(m, conjuncts(predicate), mid, r) && a
                    == residual_filter(mid, r);
            law_pushdown_keeps_every_conjunct(*input, m);
            let cs = conjuncts(predicate);
            lemma_conjuncts_pushed_bag(m, cs, mid, r);
            if r.len() == 0 {
                assert(r.to_multiset() =~= Multiset::empty());
                assert(predicate_bag(a) =~= predicate_bag(b));
            } else {
                lemma_conjuncts_not_and(predicate);
                assert forall|i: int| 0 <= i < r.len() implies !is_and(#[trigger] r[i]) by {
                    assert(cs.contains(r[i]));
                    let k = choose|k: int| 0 <= k < cs.len() && cs[k] == r[i];
                    assert(!is_and(cs[k]));
                }
                lemma_and_all_conjuncts(r);
                assert(predicate_bag(a) =~= predicate_bag(b));
            }
        },
        LogicalPlan::Aggregate { input, .. } => law_pushdown_keeps_every_conjunct(*input, *a->Aggregate_input),
        LogicalPlan::Project { input, .. } => law_pushdown_keeps_every_conjunct(*input, *a->Project_input),
        LogicalPlan::Distinct { input } => law_pushdown_keeps_every_conjunct(*input, *a->Distinct_input),
        LogicalPlan::Sort { input, .. } => law_pushdown_keeps_every_conjunct(*input, *a->Sort_input),
        LogicalPlan::Limit { input, .. } => law_pushdown_keeps_every_conjunct(*input, *a->Limit_input),
    }
}

/// Replacing one plan of a list changes the list's predicates on `u` by
/// what that plan's changed.
proof fn lemma_relation_bags_update(
    s: Seq<LogicalPlan<BoundExpr>>,
    w: Seq<LogicalPlan<BoundExpr>>,
    j: int,
    u: TableKey,
    extra: Multiset<BoundExpr>,
)
    requires
        s.len() == w.len(),
        0 <= j < s.len(),
        forall|i: int| 0 <= i < s.len() && i != j ==> #[trigger] w[i] == s[i],
        relation_bag(w[j], u) == relation_bag(s[j], u).add(extra),
    ensures
        relation_bags(w, u) == relation_bags(s, u).add(extra),
    decreases s.len(),
{
    let n = s.len() - 1;
    if j == n {
        assert(w.subrange(0, n) =~= s.subrange(0, n));
    } else {
        lemma_relation_bags_update(s.subrange(0, n), w.subrange(0, n), j, u, extra);
        assert(w[n] == s[n]);
    }
    assert(relation_bags(w, u) =~= relation_bags(s, u).add(extra));
}

/// What a push does to the predicates of the scans of relation `u`: they
/// gain the conjunct when `u` is the relation pushed toward, and stay as
/// they were otherwise.
proof fn lemma_pushed_relation_bag(
    b: LogicalPlan<BoundExpr>,
    a: LogicalPlan<BoundExpr>,
    pred: BoundExpr,
    t: TableKey,
    u: TableKey,
)
    requires
        pushed(b, a, pred, t),
    ensures
        relation_bag(a, u) == (if u == t {
            relation_bag(b, u).insert(pred)
        } else {
            relation_bag(b, u)
        }),
    decreases b,
{
    let extra = if u == t {
        Multiset::singleton(pred)
    } else {
        Multiset::empty()
    };
    match b {
        LogicalPlan::Scan(scan) => {
            let s = a->Scan_0;
            assert(s.predicates@ == scan.predicates@.push(pred));
            assert(relation_bag(a, u) =~= relation_bag(b, u).add(extra));
        },
        LogicalPlan::CrossJoin { inputs } => {
            let ais = a->CrossJoin_inputs;
            let j = choose|j: int|
                sole_holder(inputs@, t, j) && pushed(#[trigger] inputs@[j], ais@[j], pred, t) && (forall|i: int|
                    0 <= i < inputs@.len() && i != j ==> #[trigger] ais@[i] == inputs@[i]);
            assert(decreases_to!(b => b->CrossJoin_inputs));
            assert(decreases_to!(b->CrossJoin_inputs => inputs@));
            assert(decreases_to!(inputs@ => inputs@[j]));
            lemma_pushed_relation_bag(inputs@[j], ais@[j], pred, t, u);
            assert(relation_bag(ais@[j], u) =~= relation_bag(inputs@[j], u).add(extra));
            lemma_relation_bags_update(inputs@, ais@, j, u, extra);
        },
        LogicalPlan::Join { left, right, .. } => {
            if takes_left(*left, *right, t) {
                lemma_pushed_relation_bag(*left, *a->Join_left, pred, t, u);
            } else {
                lemma_pushed_relation_bag(*right, *a->Join_right, pred, t, u);
            }
        },
        _ => {},
    }
    assert(relation_bag(a, u) =~= relation_bag(b, u).add(extra));
}

/// A conjunct that leaves a filter lands on a scan of the one relation its
/// columns name and on no other, so each alias of a self-join keeps its
/// own predicates: the scans of that relation gain the conjunct, once, and
/// the scans of every other relation keep what they had.
pub proof fn law_pushed_conjunct_lands_on_its_relation(
    b: LogicalPlan<BoundExpr>,
    pred: BoundExpr,
    a: LogicalPlan<BoundExpr>,
    back: Option<BoundExpr>,
    u: TableKey,
)
    requires
        conjunct_step(b, pred, a, back),
        back is None,
    ensures
        push_target(pred) is Some,
        relation_bag(a, u) == (if push_target(pred) == Some(u) {
            relation_bag(b, u).insert(pred)
        } else {
            relation_bag(b, u)
        }),
{
    let t = push_target(pred)->0;
    lemma_pushed_relation_bag(b, a, pred, t, u);
}

} // verus!
