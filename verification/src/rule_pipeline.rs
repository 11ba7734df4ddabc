//! The optimizer's rule pipeline: constant folding, predicate pushdown,
//! join-constant propagation, metadata counts, cross-join ordering,
//! aggregate pushdown through one-row joins and limit pushdown, each
//! applied to what the one before it produced.
use crate::aggregate_rules::{
    aggregates_pushed, counts_replaced, push_aggregates_through_identity_joins, replace_metadata_counts,
};
use crate::bound_expr::BoundExpr;
use crate::constant_fold::{constants_folded, fold_constants};
use crate::join_constants::{constants_propagated, propagate_join_constants};
use crate::join_order::{cross_joins_reordered, reorder_cross_joins};
use crate::logical::LogicalPlan;
use crate::optimizer::{limits_pushed, push_limits, Optimizer};
use crate::pushdown::{predicates_pushed, push_predicates};
use vstd::prelude::*;

verus! {

/// Whether `r` is what the rules make of `plan` in turn: folding, then
/// pushdown, then join-constant propagation twice (so a constant derived
/// at one join can cross a second one), then metadata counts, cross-join
/// order, aggregate pushdown and limit pushdown.
pub open spec fn optimized(plan: LogicalPlan<BoundExpr>, r: LogicalPlan<BoundExpr>) -> bool {
    exists|
        folded: LogicalPlan<BoundExpr>,
        pushed: LogicalPlan<BoundExpr>,
        once: LogicalPlan<BoundExpr>,
        twice: LogicalPlan<BoundExpr>,
        counted: LogicalPlan<BoundExpr>,
        ordered: LogicalPlan<BoundExpr>,
        trimmed: LogicalPlan<BoundExpr>,
    |
        #![trigger constants_folded(plan, folded), predicates_pushed(folded, pushed), constants_propagated(pushed, once), constants_propagated(once, twice), counts_replaced(twice, counted), cross_joins_reordered(counted, ordered), aggregates_pushed(ordered, trimmed)]
        {
            &&& constants_folded(plan, folded)
            &&& predicates_pushed(folded, pushed)
            &&& constants_propagated(pushed, once)
            &&& constants_propagated(once, twice)
            &&& counts_replaced(twice, counted)
            &&& cross_joins_reordered(counted, ordered)
            &&& aggregates_pushed(ordered, trimmed)
            &&& limits_pushed(trimmed, r, None)
        }
}

impl Optimizer {
    /// Applies the semantics-preserving logical rewrites in order.
    pub fn optimize(plan: LogicalPlan<BoundExpr>) -> (r: LogicalPlan<BoundExpr>)
        ensures
            optimized(plan, r),
    {
        let ghost start = plan;
        let folded = fold_constants(plan);
        let ghost g_folded = folded;
        let pushed = push_predicates(folded);
        let ghost g_pushed = pushed;
        let once = propagate_join_constants(pushed);
        let ghost g_once = once;
        let twice = propagate_join_constants(once);
        let ghost g_twice = twice;
        let counted = replace_metadata_counts(twice);
        let ghost g_counted = counted;
        let ordered = reorder_cross_joins(counted);
        let ghost g_ordered = ordered;
        let trimmed = push_aggregates_through_identity_joins(ordered);
        let ghost g_trimmed = trimmed;
        let r = push_limits(trimmed);
        proof {
            assert(constants_folded(start, g_folded) && predicates_pushed(g_folded, g_pushed) && constants_propagated(
                g_pushed,
                g_once,
            ) && constants_propagated(g_once, g_twice) && counts_replaced(g_twice, g_counted)
                && cross_joins_reordered(g_counted, g_ordered) && aggregates_pushed(g_ordered, g_trimmed));
        }
        r
    }
}

} // verus!
