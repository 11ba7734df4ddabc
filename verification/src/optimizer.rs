//! Rule-based logical rewrites that read a plan's shape rather than its
//! expressions: where a derived table merges into its reader, where a row
//! cap reaches a scan, and the order a cross join's inputs take.
use crate::logical::{plan_rows, LogicalPlan, Scan};
use vstd::prelude::*;

verus! {

/// Deterministic rule-based logical optimizer.
#[derive(Clone, Copy, Debug, Default)]
pub struct Optimizer;

/// Whether a derived table whose rows come from `plan` is one `MySQL`
/// merges into the query that reads it: rows from scans, filters and joins,
/// with no grouping, DISTINCT, limit or set operation to materialize it.
pub open spec fn merges_spec<E>(p: LogicalPlan<E>) -> bool
    decreases p,
{
    match p {
        LogicalPlan::Scan(_) | LogicalPlan::OneRow | LogicalPlan::Empty => true,
        LogicalPlan::Filter { input, .. } => merges_spec(*input),
        LogicalPlan::Join { left, right, .. } => merges_spec(*left) && merges_spec(*right),
        LogicalPlan::CrossJoin { inputs } => forall|i: int| 0 <= i < inputs@.len() ==> merges_spec(#[trigger] inputs@[i]),
        LogicalPlan::Derived { input, .. } => match *input {
            LogicalPlan::Project { input: source, .. } => merges_spec(*source),
            _ => false,
        },
        _ => false,
    }
}

/// Whether a derived table over `plan` merges into its reader.
pub fn merges<E>(plan: &LogicalPlan<E>) -> (r: bool)
    ensures
        r == merges_spec(*plan),
    decreases plan,
{
    match plan {
        LogicalPlan::Scan(_) | LogicalPlan::OneRow | LogicalPlan::Empty => true,
        LogicalPlan::Filter { input, .. } => merges(input),
        LogicalPlan::Join { left, right, .. } => merges(left) && merges(right),
        LogicalPlan::CrossJoin { inputs } => {
            let mut i: usize = 0;
            while i < inputs.len()
                invariant
                    i <= inputs@.len(),
                    *plan == (LogicalPlan::CrossJoin { inputs: *inputs }),
                    forall|j: int| 0 <= j < i ==> merges_spec(#[trigger] inputs@[j]),
                decreases inputs@.len() - i,
            {
                proof {
                    assert(decreases_to!(*plan => plan->CrossJoin_inputs));
                    assert(decreases_to!(plan->CrossJoin_inputs => inputs@));
                    assert(decreases_to!(inputs@ => inputs@[i as int]));
                }
                if !merges(&inputs[i]) {
                    return false;
                }
                i = i + 1;
            }
            true
        },
        LogicalPlan::Derived { input, .. } => match &**input {
            LogicalPlan::Project { input: source, .. } => {
                proof {
                    assert(decreases_to!(*plan => plan->Derived_input));
                    assert(decreases_to!(*plan->Derived_input => plan->Derived_input->Project_input));
                }
                merges(source)
            },
            _ => false,
        },
        _ => false,
    }
}

/// The scan's limit tightened to `rows`.
pub open spec fn tightened(limit: Option<u64>, rows: u64) -> Option<u64> {
    match limit {
        Some(existing) => Some(if existing < rows { existing } else { rows }),
        None => Some(rows),
    }
}

/// A row cap handed to the input of a limit: a predicate-free scan, seen
/// through projections, keeps at most `rows` rows; nothing else changes.
pub open spec fn input_limited<E>(p: LogicalPlan<E>, rows: u64) -> LogicalPlan<E>
    decreases p,
{
    match p {
        LogicalPlan::Scan(scan) => if scan.predicates@.len() == 0 {
            LogicalPlan::Scan(
                Scan {
                    table: scan.table,
                    projected_column_ids: scan.projected_column_ids,
                    predicates: scan.predicates,
                    limit: tightened(scan.limit, rows),
                },
            )
        } else {
            LogicalPlan::Scan(scan)
        },
        LogicalPlan::Project { input, expressions } => LogicalPlan::Project {
            input: Box::new(input_limited(*input, rows)),
            expressions,
        },
        _ => p,
    }
}

/// Hands a row cap to a limit's input.
pub fn set_input_limit<E>(plan: LogicalPlan<E>, rows: u64) -> (r: LogicalPlan<E>)
    ensures
        r == input_limited(plan, rows),
    decreases plan,
{
    match plan {
        LogicalPlan::Scan(scan) => {
            if scan.predicates.len() == 0 {
                let limit = match scan.limit {
                    Some(existing) => Some(if existing < rows { existing } else { rows }),
                    None => Some(rows),
                };
                LogicalPlan::Scan(
                    Scan {
                        table: scan.table,
                        projected_column_ids: scan.projected_column_ids,
                        predicates: scan.predicates,
                        limit,
                    },
                )
            } else {
                LogicalPlan::Scan(scan)
            }
        },
        LogicalPlan::Project { input, expressions } => LogicalPlan::Project {
            input: Box::new(set_input_limit(*input, rows)),
            expressions,
        },
        other => other,
    }
}


/// The rows a limit needs from its input: offset plus count, saturating.
pub open spec fn limit_rows(offset: u64, count: u64) -> u64 {
    if offset + count > u64::MAX { u64::MAX } else { (offset + count) as u64 }
}

/// Whether `a` is `b` with every limit's row cap pushed into its input:
/// a predicate-free scan beneath a limit, seen through projections, keeps
/// at most the rows the limit needs. `cap` is the cap pending from the
/// limit above, which only a projection passes on.
pub open spec fn limits_pushed<E>(b: LogicalPlan<E>, a: LogicalPlan<E>, cap: Option<u64>) -> bool
    decreases b,
{
    match b {
        LogicalPlan::Scan(_) => a == (match cap {
            Some(rows) => input_limited(b, rows),
            None => b,
        }),
        LogicalPlan::Empty => a == b,
        LogicalPlan::OneRow => a == b,
        LogicalPlan::Project { input, expressions } => a matches LogicalPlan::Project { input: ai, expressions: ae }
            && ae == expressions && limits_pushed(*input, *ai, cap),
        LogicalPlan::Limit { input, limit } => a matches LogicalPlan::Limit { input: ai, limit: al } && al == limit
            && limits_pushed(*input, *ai, Some(limit_rows(limit.offset, limit.count))),
        LogicalPlan::CrossJoin { inputs } => a matches LogicalPlan::CrossJoin { inputs: ais } && ais@.len() == inputs@.len()
            && forall|i: int| 0 <= i < inputs@.len() ==> limits_pushed(#[trigger] inputs@[i], ais@[i], None),
        LogicalPlan::UnionAll { inputs } => a matches LogicalPlan::UnionAll { inputs: ais } && ais@.len() == inputs@.len()
            && forall|i: int| 0 <= i < inputs@.len() ==> limits_pushed(#[trigger] inputs@[i], ais@[i], None),
        LogicalPlan::Join { left, right, kind, condition } => a matches LogicalPlan::Join { left: al, right: ar, kind: ak, condition: ac }
            && ak == kind && ac == condition && limits_pushed(*left, *al, None) && limits_pushed(*right, *ar, None),
        LogicalPlan::Derived { input, columns } => a matches LogicalPlan::Derived { input: ai, columns: ac }
            && ac == columns && limits_pushed(*input, *ai, None),
        LogicalPlan::Filter { input, predicate } => a matches LogicalPlan::Filter { input: ai, predicate: ap }
            && ap == predicate && limits_pushed(*input, *ai, None),
        LogicalPlan::Aggregate { input, group_by, aggregates } => a matches LogicalPlan::Aggregate { input: ai, group_by: ag, aggregates: aa }
            && ag == group_by && aa == aggregates && limits_pushed(*input, *ai, None),
        LogicalPlan::Distinct { input } => a matches LogicalPlan::Distinct { input: ai } && limits_pushed(*input, *ai, None),
        LogicalPlan::Sort { input, keys } => a matches LogicalPlan::Sort { input: ai, keys: ak } && ak == keys
            && limits_pushed(*input, *ai, None),
    }
}

/// Pushes the limits of every input of a list.
fn push_each<E>(inputs: Vec<LogicalPlan<E>>) -> (r: Vec<LogicalPlan<E>>)
    ensures
        r@.len() == inputs@.len(),
        forall|i: int| 0 <= i < inputs@.len() ==> limits_pushed(#[trigger] inputs@[i], r@[i], None),
    decreases inputs, 0nat,
{
    let ghost source = inputs@;
    let mut rest = inputs;
    let total = rest.len();
    let mut out: Vec<LogicalPlan<E>> = Vec::new();
    let mut k: usize = 0;
    while rest.len() > 0
        invariant
            source == inputs@,
            total == source.len(),
            k + rest@.len() == source.len(),
            rest@ == source.subrange(k as int, source.len() as int),
            out@.len() == k,
            forall|i: int| 0 <= i < k ==> limits_pushed(#[trigger] source[i], out@[i], None),
        decreases rest@.len(),
    {
        let item = rest.remove(0);
        proof {
            assert(item == source[k as int]);
            assert(decreases_to!(inputs => inputs@));
            assert(decreases_to!(inputs@ => inputs@[k as int]));
        }
        let pushed = push_limits_capped(item, None);
        out.push(pushed);
        proof {
            assert(rest@ =~= source.subrange(k + 1, source.len() as int));
        }
        k = k + 1;
    }
    out
}

/// Pushes every limit's row cap into its input, `cap` pending from above.
fn push_limits_capped<E>(plan: LogicalPlan<E>, cap: Option<u64>) -> (r: LogicalPlan<E>)
    ensures
        limits_pushed(plan, r, cap),
    decreases plan, 1nat,
{
    let ghost before = plan;
    match plan {
        LogicalPlan::Scan(scan) => match cap {
            Some(rows) => set_input_limit(LogicalPlan::Scan(scan), rows),
            None => LogicalPlan::Scan(scan),
        },
        LogicalPlan::Empty => LogicalPlan::Empty,
        LogicalPlan::OneRow => LogicalPlan::OneRow,
        LogicalPlan::Project { input, expressions } => LogicalPlan::Project {
            input: Box::new(push_limits_capped(*input, cap)),
            expressions,
        },
        LogicalPlan::Limit { input, limit } => {
            let rows = limit.offset.saturating_add(limit.count);
            LogicalPlan::Limit { input: Box::new(push_limits_capped(*input, Some(rows))), limit }
        },
        LogicalPlan::CrossJoin { inputs } => {
            proof {
                assert(decreases_to!(before => before->CrossJoin_inputs));
            }
            LogicalPlan::CrossJoin { inputs: push_each(inputs) }
        },
        LogicalPlan::UnionAll { inputs } => {
            proof {
                assert(decreases_to!(before => before->UnionAll_inputs));
            }
            LogicalPlan::UnionAll { inputs: push_each(inputs) }
        },
        LogicalPlan::Join { left, right, kind, condition } => LogicalPlan::Join {
            left: Box::new(push_limits_capped(*left, None)),
            right: Box::new(push_limits_capped(*right, None)),
            kind,
            condition,
        },
        LogicalPlan::Derived { input, columns } => LogicalPlan::Derived {
            input: Box::new(push_limits_capped(*input, None)),
            columns,
        },
        LogicalPlan::Filter { input, predicate } => LogicalPlan::Filter {
            input: Box::new(push_limits_capped(*input, None)),
            predicate,
        },
        LogicalPlan::Aggregate { input, group_by, aggregates } => LogicalPlan::Aggregate {
            input: Box::new(push_limits_capped(*input, None)),
            group_by,
            aggregates,
        },
        LogicalPlan::Distinct { input } => LogicalPlan::Distinct {
            input: Box::new(push_limits_capped(*input, None)),
        },
        LogicalPlan::Sort { input, keys } => LogicalPlan::Sort {
            input: Box::new(push_limits_capped(*input, None)),
            keys,
        },
    }
}

/// Pushes every limit's row cap, offset plus count, into the scans
/// beneath it that have no predicate, through projections only: a cap
/// cannot cross a filter, a join, a grouping, DISTINCT or a sort.
pub fn push_limits<E>(plan: LogicalPlan<E>) -> (r: LogicalPlan<E>)
    ensures
        limits_pushed(plan, r, None),
{
    push_limits_capped(plan, None)
}

/// The key a cross join's inputs are ordered by: the row estimate, an
/// input without one last.
pub open spec fn estimate_key<E>(p: LogicalPlan<E>) -> u64 {
    match plan_rows(p) {
        Some(rows) => rows,
        None => u64::MAX,
    }
}

/// `sorted` with `p` placed behind every plan whose key is not greater.
pub open spec fn insert_by_estimate<E>(sorted: Seq<LogicalPlan<E>>, p: LogicalPlan<E>) -> Seq<LogicalPlan<E>>
    decreases sorted.len(),
{
    if sorted.len() == 0 {
        seq![p]
    } else if estimate_key(sorted.last()) <= estimate_key(p) {
        sorted.push(p)
    } else {
        insert_by_estimate(sorted.drop_last(), p).push(sorted.last())
    }
}

/// Plans stably sorted by their estimates: plans with equal estimates keep
/// their order.
pub open spec fn sorted_by_estimate<E>(s: Seq<LogicalPlan<E>>) -> Seq<LogicalPlan<E>>
    decreases s.len(),
{
    if s.len() == 0 {
        Seq::empty()
    } else {
        insert_by_estimate(sorted_by_estimate(s.drop_last()), s.last())
    }
}

/// Inserting at `j`, behind every key not greater than `p`'s and before
/// the greater ones that follow, is `insert_by_estimate`.
proof fn lemma_insert_at<E>(sorted: Seq<LogicalPlan<E>>, p: LogicalPlan<E>, j: int)
    requires
        0 <= j <= sorted.len(),
        j > 0 ==> estimate_key(sorted[j - 1]) <= estimate_key(p),
        forall|k: int| j <= k < sorted.len() ==> estimate_key(#[trigger] sorted[k]) > estimate_key(p),
    ensures
        insert_by_estimate(sorted, p) == sorted.insert(j, p),
    decreases sorted.len(),
{
    if sorted.len() == 0 {
        assert(sorted.insert(j, p) =~= seq![p]);
    } else if j == sorted.len() {
        assert(sorted.insert(j, p) =~= sorted.push(p));
    } else {
        let last = sorted.last();
        assert(estimate_key(sorted[sorted.len() - 1]) > estimate_key(p));
        lemma_insert_at(sorted.drop_last(), p, j);
        assert(sorted.drop_last().insert(j, p).push(last) =~= sorted.insert(j, p));
    }
}

/// Orders a cross join's inputs by their row estimates, smallest first;
/// inputs with equal estimates keep their source order.
pub fn order_cross_join_inputs<E>(inputs: Vec<LogicalPlan<E>>) -> (r: Vec<LogicalPlan<E>>)
    ensures
        r@ == sorted_by_estimate(inputs@),
{
    let ghost source = inputs@;
    assert(source.len() == inputs.len());
    let mut rest = inputs;
    let mut out: Vec<LogicalPlan<E>> = Vec::new();
    let mut keys: Vec<u64> = Vec::new();
    let mut k: usize = 0;
    while rest.len() > 0
        invariant
            source == inputs@,
            source.len() <= usize::MAX,
            k + rest@.len() == source.len(),
            rest@ == source.subrange(k as int, source.len() as int),
            out@ == sorted_by_estimate(source.subrange(0, k as int)),
            keys@.len() == out@.len(),
            forall|i: int| 0 <= i < out@.len() ==> #[trigger] keys@[i] == estimate_key(out@[i]),
        decreases rest@.len(),
    {
        let item = rest.remove(0);
        assert(item == source[k as int]);
        let key = match item.estimated_rows() {
            Some(rows) => rows,
            None => u64::MAX,
        };
        let mut j: usize = out.len();
        while j > 0 && keys[j - 1] > key
            invariant
                j <= out@.len(),
                keys@.len() == out@.len(),
                forall|i: int| 0 <= i < out@.len() ==> #[trigger] keys@[i] == estimate_key(out@[i]),
                key == estimate_key(item),
                forall|i: int| j <= i < out@.len() ==> estimate_key(#[trigger] out@[i]) > key,
            decreases j,
        {
            j = j - 1;
        }
        proof {
            lemma_insert_at(out@, item, j as int);
            let prefix = source.subrange(0, k + 1);
            assert(prefix.drop_last() =~= source.subrange(0, k as int));
            assert(prefix.last() == item);
        }
        let ghost before = out@;
        out.insert(j, item);
        keys.insert(j, key);
        proof {
            assert forall|i: int| 0 <= i < out@.len() implies #[trigger] keys@[i] == estimate_key(out@[i]) by {
                if i < j {
                    assert(out@[i] == before[i]);
                } else if i > j {
                    assert(out@[i] == before[i - 1]);
                }
            }
            assert(rest@ =~= source.subrange(k + 1, source.len() as int));
        }
        k = k + 1;
    }
    proof {
        assert(source.subrange(0, k as int) =~= source);
    }
    out
}

/// Whether plans come in ascending order of their estimates.
pub open spec fn estimate_ordered<E>(s: Seq<LogicalPlan<E>>) -> bool {
    forall|i: int, j: int|
        0 <= i < j < s.len() ==> estimate_key(#[trigger] s[i]) <= estimate_key(#[trigger] s[j])
}

/// Inserting into ordered plans keeps them ordered and adds exactly the
/// inserted plan.
proof fn lemma_insert_by_estimate<E>(sorted: Seq<LogicalPlan<E>>, p: LogicalPlan<E>)
    requires
        estimate_ordered(sorted),
    ensures
        estimate_ordered(insert_by_estimate(sorted, p)),
        insert_by_estimate(sorted, p).to_multiset() =~= sorted.to_multiset().insert(p),
    decreases sorted.len(),
{
    broadcast use vstd::seq_lib::group_to_multiset_ensures;

    if sorted.len() == 0 {
        assert(seq![p] =~= Seq::<LogicalPlan<E>>::empty().push(p));
    } else if estimate_key(sorted.last()) <= estimate_key(p) {
    } else {
        let rest = sorted.drop_last();
        let last = sorted.last();
        assert(rest.push(last) =~= sorted);
        lemma_insert_by_estimate(rest, p);
        let ins = insert_by_estimate(rest, p);
        assert forall|i: int| 0 <= i < ins.len() implies estimate_key(#[trigger] ins[i])
            <= estimate_key(last) by {
            assert(ins.contains(ins[i]));
            assert(ins.to_multiset().count(ins[i]) > 0);
            if ins[i] != p {
                assert(rest.to_multiset().count(ins[i]) > 0);
                assert(rest.contains(ins[i]));
                let k = choose|k: int| 0 <= k < rest.len() && rest[k] == ins[i];
                assert(sorted[k] == rest[k]);
            }
        }
        assert(ins.len() == rest.len() + 1) by {
            assert(ins.to_multiset().len() == rest.to_multiset().len() + 1);
        }
        let r = ins.push(last);
        assert forall|i: int, j: int| 0 <= i < j < r.len() implies estimate_key(#[trigger] r[i])
            <= estimate_key(#[trigger] r[j]) by {
            if j == r.len() - 1 {
                assert(r[j] == last);
                assert(r[i] == ins[i]);
            } else {
                assert(r[i] == ins[i]);
                assert(r[j] == ins[j]);
            }
        }
    }
}

/// Ordering a cross join's inputs only permutes them, into ascending
/// order of their row estimates.
pub proof fn law_cross_join_order<E>(inputs: Seq<LogicalPlan<E>>)
    ensures
        estimate_ordered(sorted_by_estimate(inputs)),
        sorted_by_estimate(inputs).to_multiset() =~= inputs.to_multiset(),
        sorted_by_estimate(inputs).len() == inputs.len(),
    decreases inputs.len(),
{
    broadcast use vstd::seq_lib::group_to_multiset_ensures;

    if inputs.len() == 0 {
        assert(sorted_by_estimate(inputs) =~= inputs);
    } else {
        let rest = inputs.drop_last();
        law_cross_join_order(rest);
        lemma_insert_by_estimate(sorted_by_estimate(rest), inputs.last());
        assert(rest.push(inputs.last()) =~= inputs);
        assert(sorted_by_estimate(inputs).to_multiset().len() == inputs.to_multiset().len());
    }
}

/// The plans of a list whose estimate key is `k`, in their order.
pub open spec fn with_estimate<E>(s: Seq<LogicalPlan<E>>, k: u64) -> Seq<LogicalPlan<E>>
    decreases s.len(),
{
    if s.len() == 0 {
        Seq::empty()
    } else if estimate_key(s.last()) == k {
        with_estimate(s.drop_last(), k).push(s.last())
    } else {
        with_estimate(s.drop_last(), k)
    }
}

/// Inserting a plan keeps the order of the plans that share its key.
proof fn lemma_insert_stable<E>(sorted: Seq<LogicalPlan<E>>, p: LogicalPlan<E>, k: u64)
    ensures
        with_estimate(insert_by_estimate(sorted, p), k) == with_estimate(sorted.push(p), k),
    decreases sorted.len(),
{
    if sorted.len() == 0 {
        assert(seq![p] =~= sorted.push(p));
    } else if estimate_key(sorted.last()) <= estimate_key(p) {
    } else {
        let init = sorted.drop_last();
        let last = sorted.last();
        lemma_insert_stable(init, p, k);
        let inserted = insert_by_estimate(init, p);
        assert(insert_by_estimate(sorted, p) == inserted.push(last));
        assert(inserted.push(last).drop_last() =~= inserted);
        assert(sorted.push(p).drop_last() =~= sorted);
        assert(init.push(p).drop_last() =~= init);
        assert(init.push(last) =~= sorted);
        assert(inserted.push(last).last() == last);
        assert(with_estimate(inserted.push(last), k) == if estimate_key(last) == k {
            with_estimate(inserted, k).push(last)
        } else {
            with_estimate(inserted, k)
        });
        assert(init.push(p).last() == p);
        assert(with_estimate(init.push(p), k) == if estimate_key(p) == k {
            with_estimate(init, k).push(p)
        } else {
            with_estimate(init, k)
        });
        assert(with_estimate(sorted, k) == if estimate_key(last) == k {
            with_estimate(init, k).push(last)
        } else {
            with_estimate(init, k)
        });
        assert(sorted.push(p).last() == p);
        assert(with_estimate(sorted.push(p), k) == if estimate_key(p) == k {
            with_estimate(sorted, k).push(p)
        } else {
            with_estimate(sorted, k)
        });
    }
}

/// Ordering a cross join's inputs is stable: the inputs whose estimates
/// are equal keep the order they had.
pub proof fn law_cross_join_order_stable<E>(inputs: Seq<LogicalPlan<E>>, k: u64)
    ensures
        with_estimate(sorted_by_estimate(inputs), k) == with_estimate(inputs, k),
    decreases inputs.len(),
{
    if inputs.len() > 0 {
        let rest = inputs.drop_last();
        law_cross_join_order_stable(rest, k);
        lemma_insert_stable(sorted_by_estimate(rest), inputs.last(), k);
        assert(sorted_by_estimate(rest).push(inputs.last()).drop_last() =~= sorted_by_estimate(rest));
        assert(rest.push(inputs.last()) =~= inputs);
    }
}

} // verus!
