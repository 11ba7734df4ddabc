//! What join inference and cross-join ordering keep: every conjunct a plan
//! filters or joins on is still there afterwards, exactly once, whether it
//! stayed in the filter or became a join's condition.
use crate::bound_expr::{conjuncts, is_and, BoundExpr, TableKey};
use crate::join_order::{
    best_pair, cross_joins_reordered, joins_inferred, linking, links, merge_pair, merged, not_linking,
    product_of,
};
use crate::logical::LogicalPlan;
use crate::optimizer::{insert_by_estimate, sorted_by_estimate};
use crate::pushdown::{and_all, residual_filter};
use crate::pushdown_laws::{lemma_and_all_conjuncts, lemma_conjuncts_not_and};
use vstd::multiset::Multiset;
use vstd::prelude::*;

verus! {

broadcast use {
    vstd::multiset::group_multiset_axioms,
    vstd::seq_lib::group_to_multiset_ensures,
    vstd::seq_lib::lemma_multiset_commutative,
};

/// Every conjunct a plan filters or joins on: its scans' predicates, its
/// filters' conjuncts and its joins' condition conjuncts.
pub open spec fn condition_bag(p: LogicalPlan<BoundExpr>) -> Multiset<BoundExpr>
    decreases p,
{
    match p {
        LogicalPlan::Scan(scan) => scan.predicates@.to_multiset(),
        LogicalPlan::Filter { input, predicate } => condition_bag(*input).add(conjuncts(predicate).to_multiset()),
        LogicalPlan::Join { left, right, condition, .. } => condition_bag(*left).add(condition_bag(*right)).add(
            match condition {
                Some(c) => conjuncts(c).to_multiset(),
                None => Multiset::empty(),
            },
        ),
        LogicalPlan::CrossJoin { inputs } => {
            proof {
                assert(decreases_to!(p => p->CrossJoin_inputs));
                assert(decreases_to!(p->CrossJoin_inputs => p->CrossJoin_inputs@));
            }
            condition_bags(inputs@)
        },
        LogicalPlan::UnionAll { inputs } => {
            proof {
                assert(decreases_to!(p => p->UnionAll_inputs));
                assert(decreases_to!(p->UnionAll_inputs => p->UnionAll_inputs@));
            }
            condition_bags(inputs@)
        },
        LogicalPlan::Derived { input, .. } => condition_bag(*input),
        LogicalPlan::Aggregate { input, .. } => condition_bag(*input),
        LogicalPlan::Project { input, .. } => condition_bag(*input),
        LogicalPlan::Distinct { input } => condition_bag(*input),
        LogicalPlan::Sort { input, .. } => condition_bag(*input),
        LogicalPlan::Limit { input, .. } => condition_bag(*input),
        LogicalPlan::Empty | LogicalPlan::OneRow => Multiset::empty(),
    }
}

/// The conjuncts a list of plans filters or joins on, together.
pub open spec fn condition_bags(s: Seq<LogicalPlan<BoundExpr>>) -> Multiset<BoundExpr>
    decreases s,
{
    if s.len() == 0 {
        Multiset::empty()
    } else {
        proof {
            assert(decreases_to!(s => s[s.len() - 1]));
            assert(decreases_to!(s => s.subrange(0, s.len() - 1)));
        }
        condition_bags(s.subrange(0, s.len() - 1)).add(condition_bag(s[s.len() - 1]))
    }
}

/// Appending a plan adds its conjuncts.
proof fn lemma_bags_push(s: Seq<LogicalPlan<BoundExpr>>, x: LogicalPlan<BoundExpr>)
    ensures
        condition_bags(s.push(x)) == condition_bags(s).add(condition_bag(x)),
{
    assert(s.push(x).subrange(0, s.len() as int) =~= s);
}

/// Removing a plan removes its conjuncts.
proof fn lemma_bags_remove(s: Seq<LogicalPlan<BoundExpr>>, i: int)
    requires
        0 <= i < s.len(),
    ensures
        condition_bags(s) == condition_bags(s.remove(i)).add(condition_bag(s[i])),
    decreases s.len(),
{
    let n = s.len() - 1;
    if i == n {
        assert(s.remove(i) =~= s.subrange(0, n));
    } else {
        let init = s.subrange(0, n);
        lemma_bags_remove(init, i);
        assert(s.remove(i) =~= init.remove(i).push(s[n]));
        lemma_bags_push(init.remove(i), s[n]);
        assert(init[i] == s[i]);
        assert(condition_bags(s) =~= condition_bags(s.remove(i)).add(condition_bag(s[i])));
    }
}

/// The conjuncts split into those that link two inputs and the rest,
/// each of the rest one of the conjuncts and each linking one no AND.
proof fn lemma_linking_split(cs: Seq<BoundExpr>, a: LogicalPlan<BoundExpr>, b: LogicalPlan<BoundExpr>)
    ensures
        cs.to_multiset() == linking(cs, a, b).to_multiset().add(not_linking(cs, a, b).to_multiset()),
        forall|i: int| 0 <= i < not_linking(cs, a, b).len() ==> cs.contains(#[trigger] not_linking(cs, a, b)[i]),
        forall|i: int| 0 <= i < linking(cs, a, b).len() ==> links(#[trigger] linking(cs, a, b)[i], a, b),
    decreases cs.len(),
{
    if cs.len() == 0 {
        assert(cs.to_multiset() =~= Multiset::empty());
        assert(linking(cs, a, b).to_multiset() =~= Multiset::empty());
        assert(not_linking(cs, a, b).to_multiset() =~= Multiset::empty());
    } else {
        let init = cs.drop_last();
        let last = cs.last();
        lemma_linking_split(init, a, b);
        assert(cs =~= init.push(last));
        let ln = linking(cs, a, b);
        let nl = not_linking(cs, a, b);
        assert(cs.to_multiset() =~= ln.to_multiset().add(nl.to_multiset()));
        assert forall|i: int| 0 <= i < nl.len() implies cs.contains(#[trigger] nl[i]) by {
            if i < not_linking(init, a, b).len() {
                assert(nl[i] == not_linking(init, a, b)[i]);
                let k = choose|k: int| 0 <= k < init.len() && init[k] == nl[i];
                assert(cs[k] == nl[i]);
            } else {
                assert(cs[cs.len() - 1] == nl[i]);
            }
        }
        assert forall|i: int| 0 <= i < ln.len() implies links(#[trigger] ln[i], a, b) by {
            if i < linking(init, a, b).len() {
                assert(ln[i] == linking(init, a, b)[i]);
            }
        }
    }
}

/// A linking conjunct is an equality, not an AND.
proof fn lemma_links_not_and(c: BoundExpr, a: LogicalPlan<BoundExpr>, b: LogicalPlan<BoundExpr>)
    requires
        links(c, a, b),
    ensures
        !is_and(c),
{
}

/// The conjuncts of a folded non-empty list of equalities are the list.
proof fn lemma_condition_conjuncts(linked: Seq<BoundExpr>, a: LogicalPlan<BoundExpr>, b: LogicalPlan<BoundExpr>)
    requires
        linked.len() > 0,
        forall|i: int| 0 <= i < linked.len() ==> links(#[trigger] linked[i], a, b),
    ensures
        conjuncts(and_all(linked)) == linked,
{
    assert forall|i: int| 0 <= i < linked.len() implies !is_and(#[trigger] linked[i]) by {
        lemma_links_not_and(linked[i], a, b);
    }
    lemma_and_all_conjuncts(linked);
}

/// Merging a pair keeps the inputs' and the conjuncts' bags together, and
/// leaves only conjuncts it was given.
proof fn lemma_merge_pair_bag(comps: Seq<LogicalPlan<BoundExpr>>, cs: Seq<BoundExpr>, l: int, r: int)
    requires
        0 <= l < r < comps.len(),
    ensures
        condition_bags(merge_pair(comps, cs, l, r).0).add(merge_pair(comps, cs, l, r).1.to_multiset())
            == condition_bags(comps).add(cs.to_multiset()),
        forall|i: int|
            0 <= i < merge_pair(comps, cs, l, r).1.len() ==> cs.contains(#[trigger] merge_pair(comps, cs, l, r).1[i]),
{
    let tree = comps[l];
    let candidate = comps[r];
    let linked = linking(cs, tree, candidate);
    let next = merge_pair(comps, cs, l, r);
    let rest = comps.remove(r).remove(l);
    lemma_linking_split(cs, tree, candidate);
    lemma_bags_remove(comps, r);
    assert(comps.remove(r)[l] == tree);
    lemma_bags_remove(comps.remove(r), l);
    let join = next.0.last();
    assert(next.0 == rest.push(join));
    lemma_bags_push(rest, join);
    let condition_part = if linked.len() == 0 {
        Multiset::<BoundExpr>::empty()
    } else {
        lemma_condition_conjuncts(linked, tree, candidate);
        linked.to_multiset()
    };
    if linked.len() == 0 {
        assert(linked.to_multiset() =~= Multiset::empty());
    }
    assert(condition_bag(join) =~= condition_bag(tree).add(condition_bag(candidate)).add(condition_part)
        || condition_bag(join) =~= condition_bag(candidate).add(condition_bag(tree)).add(condition_part));
    assert(condition_bags(next.0).add(next.1.to_multiset()) =~= condition_bags(comps).add(cs.to_multiset()));
}

/// Merging every best pair keeps the inputs' and the conjuncts' bags
/// together, and leaves only conjuncts it was given.
proof fn lemma_merged_bag(comps: Seq<LogicalPlan<BoundExpr>>, cs: Seq<BoundExpr>)
    ensures
        condition_bags(merged(comps, cs).0).add(merged(comps, cs).1.to_multiset()) == condition_bags(comps).add(
            cs.to_multiset(),
        ),
        forall|i: int| 0 <= i < merged(comps, cs).1.len() ==> cs.contains(#[trigger] merged(comps, cs).1[i]),
    decreases comps.len(),
{
    if exists|l: int, r: int| best_pair(comps, cs, l, r) {
        let (l, r) = choose|l: int, r: int| best_pair(comps, cs, l, r);
        let next = merge_pair(comps, cs, l, r);
        lemma_merge_pair_bag(comps, cs, l, r);
        lemma_merged_bag(next.0, next.1);
        assert(merged(comps, cs) == merged(next.0, next.1));
        let done = merged(comps, cs);
        assert forall|i: int| 0 <= i < done.1.len() implies cs.contains(#[trigger] done.1[i]) by {
            assert(next.1.contains(done.1[i]));
            let k = choose|k: int| 0 <= k < next.1.len() && next.1[k] == done.1[i];
            assert(cs.contains(next.1[k]));
        }
    }
}

/// Turning a filter into joins neither drops nor duplicates a conjunct:
/// each conjunct of the filter either stays in it or becomes part of the
/// condition of a join, so the conjuncts the result filters or joins on
/// are those of the input together with those of the filter.
pub proof fn law_join_inference_keeps_every_conjunct(
    input: LogicalPlan<BoundExpr>,
    predicate: BoundExpr,
    a: LogicalPlan<BoundExpr>,
)
    requires
        joins_inferred(input, predicate, a),
    ensures
        condition_bag(a) == condition_bag(input).add(conjuncts(predicate).to_multiset()),
{
    match input {
        LogicalPlan::CrossJoin { inputs } => {
            let cs = conjuncts(predicate);
            let done = merged(inputs@, cs);
            let p = choose|p: LogicalPlan<BoundExpr>| #[trigger] product_of(done.0, p) && a == residual_filter(p, done.1);
            lemma_merged_bag(inputs@, cs);
            if done.0.len() == 0 {
                assert(condition_bags(done.0) =~= Multiset::empty());
            } else if done.0.len() == 1 {
                assert(done.0.subrange(0, 0) =~= Seq::<LogicalPlan<BoundExpr>>::empty());
                assert(condition_bags(done.0.subrange(0, 0)) =~= Multiset::empty());
                assert(condition_bags(done.0) =~= condition_bag(done.0[0]));
            }
            assert(condition_bag(p) == condition_bags(done.0));
            if done.1.len() == 0 {
                assert(done.1.to_multiset() =~= Multiset::empty());
            } else {
                lemma_conjuncts_not_and(predicate);
                assert forall|i: int| 0 <= i < done.1.len() implies !is_and(#[trigger] done.1[i]) by {
                    assert(cs.contains(done.1[i]));
                    let k = choose|k: int| 0 <= k < cs.len() && cs[k] == done.1[i];
                    assert(!is_and(cs[k]));
                }
                lemma_and_all_conjuncts(done.1);
            }
            assert(condition_bag(a) =~= condition_bag(input).add(conjuncts(predicate).to_multiset()));
        },
        _ => {},
    }
}

/// Inserting a plan into a sorted list adds its conjuncts.
proof fn lemma_insert_bag(sorted: Seq<LogicalPlan<BoundExpr>>, p: LogicalPlan<BoundExpr>)
    ensures
        condition_bags(insert_by_estimate(sorted, p)) == condition_bags(sorted).add(condition_bag(p)),
    decreases sorted.len(),
{
    if sorted.len() == 0 {
        lemma_bags_push(sorted, p);
        assert(seq![p] =~= sorted.push(p));
    } else if crate::optimizer::estimate_key(sorted.last()) <= crate::optimizer::estimate_key(p) {
        lemma_bags_push(sorted, p);
    } else {
        let init = sorted.drop_last();
        lemma_insert_bag(init, p);
        lemma_bags_push(insert_by_estimate(init, p), sorted.last());
        lemma_bags_push(init, sorted.last());
        assert(init.push(sorted.last()) =~= sorted);
        assert(condition_bags(insert_by_estimate(sorted, p)) =~= condition_bags(sorted).add(condition_bag(p)));
    }
}

/// Sorting a list by estimates keeps its conjuncts.
proof fn lemma_sorted_bag(s: Seq<LogicalPlan<BoundExpr>>)
    ensures
        condition_bags(sorted_by_estimate(s)) == condition_bags(s),
    decreases s.len(),
{
    if s.len() > 0 {
        lemma_sorted_bag(s.drop_last());
        lemma_insert_bag(sorted_by_estimate(s.drop_last()), s.last());
        lemma_bags_push(s.drop_last(), s.last());
        assert(s.drop_last().push(s.last()) =~= s);
    }
}

/// Lists whose plans pairwise keep their conjuncts keep them together.
proof fn lemma_bags_pointwise(s: Seq<LogicalPlan<BoundExpr>>, u: Seq<LogicalPlan<BoundExpr>>)
    requires
        s.len() == u.len(),
        forall|i: int| 0 <= i < s.len() ==> condition_bag(#[trigger] u[i]) == condition_bag(s[i]),
    ensures
        condition_bags(u) == condition_bags(s),
    decreases s.len(),
{
    if s.len() > 0 {
        let n = s.len() - 1;
        lemma_bags_pointwise(s.subrange(0, n), u.subrange(0, n));
        assert(condition_bag(u[n]) == condition_bag(s[n]));
    }
}

/// Ordering cross joins and turning filters over them into joins never
/// drops or duplicates a conjunct: the conjuncts a plan filters or joins
/// on are the same before and after.
pub proof fn law_reordering_keeps_every_conjunct(b: LogicalPlan<BoundExpr>, a: LogicalPlan<BoundExpr>)
    requires
        cross_joins_reordered(b, a),
    ensures
        condition_bag(a) == condition_bag(b),
    decreases b,
{
    match b {
        LogicalPlan::Empty | LogicalPlan::OneRow | LogicalPlan::Scan(_) => {},
        LogicalPlan::CrossJoin { inputs } => {
            let xs = a->CrossJoin_inputs;
            let ys = choose|ys: Seq<LogicalPlan<BoundExpr>>|
                ys.len() == inputs@.len() && (forall|i: int|
                    0 <= i < inputs@.len() ==> cross_joins_reordered(#[trigger] inputs@[i], ys[i])) && xs@
                    == #[trigger] sorted_by_estimate(ys);
            assert forall|i: int| 0 <= i < inputs@.len() implies condition_bag(#[trigger] ys[i]) == condition_bag(
                inputs@[i],
            ) by {
                assert(decreases_to!(b => b->CrossJoin_inputs));
                assert(decreases_to!(b->CrossJoin_inputs => inputs@));
                assert(decreases_to!(inputs@ => inputs@[i]));
                assert(cross_joins_reordered(inputs@[i], ys[i]));
                law_reordering_keeps_every_conjunct(inputs@[i], ys[i]);
            }
            lemma_bags_pointwise(inputs@, ys);
            lemma_sorted_bag(ys);
        },
        LogicalPlan::UnionAll { inputs } => {
            let ais = a->UnionAll_inputs;
            assert forall|i: int| 0 <= i < inputs@.len() implies condition_bag(#[trigger] ais@[i]) == condition_bag(
                inputs@[i],
            ) by {
                assert(decreases_to!(b => b->UnionAll_inputs));
                assert(decreases_to!(b->UnionAll_inputs => inputs@));
                assert(decreases_to!(inputs@ => inputs@[i]));
                law_reordering_keeps_every_conjunct(inputs@[i], ais@[i]);
            }
            lemma_bags_pointwise(inputs@, ais@);
        },
        LogicalPlan::Filter { input, predicate } => {
            let m = choose|m: LogicalPlan<BoundExpr>|
                cross_joins_reordered(*input, m) && #[trigger] joins_inferred(m, predicate, a);
            law_reordering_keeps_every_conjunct(*input, m);
            law_join_inference_keeps_every_conjunct(m, predicate, a);
        },
        LogicalPlan::Join { left, right, .. } => {
            law_reordering_keeps_every_conjunct(*left, *a->Join_left);
            law_reordering_keeps_every_conjunct(*right, *a->Join_right);
        },
        LogicalPlan::Derived { input, .. } => law_reordering_keeps_every_conjunct(*input, *a->Derived_input),
        LogicalPlan::Aggregate { input, .. } => law_reordering_keeps_every_conjunct(*input, *a->Aggregate_input),
        LogicalPlan::Project { input, .. } => law_reordering_keeps_every_conjunct(*input, *a->Project_input),
        LogicalPlan::Distinct { input } => law_reordering_keeps_every_conjunct(*input, *a->Distinct_input),
        LogicalPlan::Sort { input, .. } => law_reordering_keeps_every_conjunct(*input, *a->Sort_input),
        LogicalPlan::Limit { input, .. } => law_reordering_keeps_every_conjunct(*input, *a->Limit_input),
    }
}

} // verus!
