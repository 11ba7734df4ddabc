//! Logical plans: relational operators before physical choices, the
//! planner that lowers a bound query into them, and their cardinality
//! estimates. Expressions, projections, aggregates and sort keys ride
//! along unread, so the plan is generic over them.
use crate::compare::DataType;
use vstd::prelude::*;

verus! {

/// A column of a bound relation: the relation instance it resolves to
/// (database, table, and the alias it was bound under, by id), its stable
/// storage id, and how its values compare.
#[derive(Clone, Copy, Debug, PartialEq, Eq, Structural)]
pub struct BoundColumn {
    pub database_id: u64,
    pub table_id: u64,
    pub relation: u64,
    pub column_id: u32,
    pub data_type: DataType,
    pub nullable: bool,
    /// The collation text compares under, by id; `None` for binary.
    pub collation: Option<u32>,
    /// An ENUM column, compared by its declared ordinal.
    pub is_enum: bool,
}

/// Join semantics.
#[derive(Clone, Copy, Debug, PartialEq, Eq, Structural)]
pub enum BoundJoinKind {
    Inner,
    Cross,
    Left,
    Semi,
    Anti,
}

/// A normalized non-negative `LIMIT offset, count`.
#[derive(Clone, Copy, Debug, PartialEq, Eq, Structural)]
pub struct BoundLimit {
    pub offset: u64,
    pub count: u64,
}

/// A bound catalog table or derived relation and its snapshot statistics.
pub struct BoundTable<E> {
    pub database_id: u64,
    pub table_id: u64,
    /// The alias this instance of the table was bound under, by id.
    pub relation: u64,
    pub row_count: Option<u64>,
    pub columns: Vec<BoundColumn>,
    /// The ids of the columns of a key that identifies its rows, if any.
    pub key_column_ids: Vec<u32>,
    /// The query of a derived relation; `None` for a stored table.
    pub input: Option<Box<BoundQuery<E>>>,
}

/// One join onto the relations before it.
pub struct BoundJoin<E> {
    pub table: BoundTable<E>,
    pub kind: BoundJoinKind,
    pub condition: Option<E>,
}

/// One `FROM` item: a relation and the joins chained onto it.
pub struct BoundFrom<E> {
    pub base: BoundTable<E>,
    pub joins: Vec<BoundJoin<E>>,
}

/// A client-visible output column: its name and the expression that
/// computes it.
pub struct Projection<E> {
    pub name: String,
    pub expr: E,
}

/// A typed bound `SELECT`.
pub struct BoundQuery<E> {
    pub from: Vec<BoundFrom<E>>,
    pub projection: Vec<Projection<E>>,
    pub filter: Option<E>,
    pub group_by: Vec<E>,
    pub aggregates: Vec<E>,
    pub having: Option<E>,
    pub distinct: bool,
    pub order_by: Vec<E>,
    pub union_all: Vec<BoundQuery<E>>,
    pub limit: Option<BoundLimit>,
}

/// A logical table scan with optimizer-controlled storage inputs.
pub struct Scan<E> {
    /// Bound catalog table and its snapshot statistics.
    pub table: BoundTable<E>,
    /// Stable column ids requested from storage, in physical schema order.
    pub projected_column_ids: Vec<u32>,
    /// Conjunctive predicates eligible for storage pruning.
    pub predicates: Vec<E>,
    /// Maximum rows the scan needs to produce, when safely bounded.
    pub limit: Option<u64>,
}

/// Logical relational operators before physical implementation choices.
pub enum LogicalPlan<E> {
    /// A relation known to produce no rows.
    Empty,
    /// A single row with no input columns, used by queries such as `SELECT 1`.
    OneRow,
    /// A storage-backed relation.
    Scan(Scan<E>),
    /// A derived query exposed through a fresh relation layout.
    Derived { input: Box<LogicalPlan<E>>, columns: Vec<BoundColumn> },
    /// Cartesian product of two or more inputs.
    CrossJoin { inputs: Vec<LogicalPlan<E>> },
    /// Streaming concatenation of type-compatible query branches.
    UnionAll { inputs: Vec<LogicalPlan<E>> },
    /// Predicate-constrained binary join.
    Join {
        left: Box<LogicalPlan<E>>,
        right: Box<LogicalPlan<E>>,
        kind: BoundJoinKind,
        condition: Option<E>,
    },
    /// Row predicate.
    Filter { input: Box<LogicalPlan<E>>, predicate: E },
    /// Hash grouping and aggregate computation.
    Aggregate { input: Box<LogicalPlan<E>>, group_by: Vec<E>, aggregates: Vec<E> },
    /// Ordered client-visible expressions.
    Project { input: Box<LogicalPlan<E>>, expressions: Vec<Projection<E>> },
    /// Duplicate removal.
    Distinct { input: Box<LogicalPlan<E>> },
    /// Ordered result rows.
    Sort { input: Box<LogicalPlan<E>>, keys: Vec<E> },
    /// Offset and count.
    Limit { input: Box<LogicalPlan<E>>, limit: BoundLimit },
}

/// A scan's estimate: its table's row count, capped by its limit.
pub open spec fn scan_rows<E>(scan: Scan<E>) -> Option<u64> {
    match (scan.table.row_count, scan.limit) {
        (Some(rows), Some(limit)) => Some(if rows < limit { rows } else { limit }),
        (Some(rows), None) => Some(rows),
        (None, _) => None,
    }
}

/// Whether a value fits `u64`.
pub open spec fn fits_u64(x: int) -> bool {
    0 <= x <= u64::MAX
}

/// A conservative row-count estimate, when catalog statistics make one
/// available: products and sums of inputs, `None` where one overflows.
pub open spec fn plan_rows<E>(p: LogicalPlan<E>) -> Option<u64>
    decreases p, 0nat,
{
    match p {
        LogicalPlan::Empty => Some(0),
        LogicalPlan::OneRow => Some(1),
        LogicalPlan::Scan(scan) => scan_rows(scan),
        LogicalPlan::CrossJoin { inputs } => product_rows(inputs@, inputs@.len()),
        LogicalPlan::UnionAll { inputs } => sum_rows(inputs@, inputs@.len()),
        LogicalPlan::Join { left, right, kind, .. } => match kind {
            BoundJoinKind::Inner | BoundJoinKind::Cross => match (plan_rows(*left), plan_rows(*right)) {
                (Some(l), Some(r)) => if fits_u64(l * r) { Some((l * r) as u64) } else { None },
                _ => None,
            },
            BoundJoinKind::Left => match (plan_rows(*left), plan_rows(*right)) {
                (Some(l), Some(r)) => {
                    let at_least_one = if r < 1 { 1 } else { r as int };
                    if fits_u64(l * at_least_one) { Some((l * at_least_one) as u64) } else { None }
                },
                _ => None,
            },
            BoundJoinKind::Semi | BoundJoinKind::Anti => plan_rows(*left),
        },
        LogicalPlan::Derived { input, .. } => plan_rows(*input),
        LogicalPlan::Filter { input, .. } => plan_rows(*input),
        LogicalPlan::Distinct { input } => plan_rows(*input),
        LogicalPlan::Project { input, .. } => plan_rows(*input),
        LogicalPlan::Aggregate { input, .. } => plan_rows(*input),
        LogicalPlan::Sort { input, .. } => plan_rows(*input),
        LogicalPlan::Limit { input, limit } => match plan_rows(*input) {
            Some(rows) => {
                let after_offset = if rows > limit.offset { rows - limit.offset } else { 0 };
                Some(if after_offset < limit.count { after_offset as u64 } else { limit.count })
            },
            None => None,
        },
    }
}

/// The product of the first `k` inputs' estimates, left to right, `None`
/// where one is unknown or a partial product overflows.
pub open spec fn product_rows<E>(inputs: Seq<LogicalPlan<E>>, k: nat) -> Option<u64>
    decreases inputs, k,
{
    if k == 0 || k > inputs.len() {
        if k == 0 { Some(1) } else { None }
    } else {
        match product_rows(inputs, (k - 1) as nat) {
            None => None,
            Some(rows) => match plan_rows(inputs[k - 1]) {
                None => None,
                Some(x) => if fits_u64(rows * x) { Some((rows * x) as u64) } else { None },
            },
        }
    }
}

/// The sum of the first `k` inputs' estimates, left to right, `None`
/// where one is unknown or a partial sum overflows.
pub open spec fn sum_rows<E>(inputs: Seq<LogicalPlan<E>>, k: nat) -> Option<u64>
    decreases inputs, k,
{
    if k == 0 || k > inputs.len() {
        if k == 0 { Some(0) } else { None }
    } else {
        match sum_rows(inputs, (k - 1) as nat) {
            None => None,
            Some(rows) => match plan_rows(inputs[k - 1]) {
                None => None,
                Some(x) => if fits_u64(rows + x) { Some((rows + x) as u64) } else { None },
            },
        }
    }
}

impl<E> Scan<E> {
    /// The planner's current cardinality estimate.
    pub fn estimated_rows(&self) -> (r: Option<u64>)
        ensures
            r == scan_rows(*self),
    {
        match (self.table.row_count, self.limit) {
            (Some(rows), Some(limit)) => Some(if rows < limit { rows } else { limit }),
            (Some(rows), None) => Some(rows),
            (None, _) => None,
        }
    }
}

impl<E> LogicalPlan<E> {
    /// A conservative row-count estimate when catalog statistics make one
    /// available.
    pub fn estimated_rows(&self) -> (r: Option<u64>)
        ensures
            r == plan_rows(*self),
        decreases self,
    {
        match self {
            LogicalPlan::Empty => Some(0),
            LogicalPlan::OneRow => Some(1),
            LogicalPlan::Scan(scan) => scan.estimated_rows(),
            LogicalPlan::CrossJoin { inputs } => {
                let mut rows: u64 = 1;
                let mut i: usize = 0;
                while i < inputs.len()
                    invariant
                        i <= inputs@.len(),
                        *self == (LogicalPlan::CrossJoin { inputs: *inputs }),
                        product_rows(inputs@, i as nat) == Some(rows),
                    decreases inputs@.len() - i,
                {
                    proof {
                        assert(decreases_to!(*self => self->CrossJoin_inputs));
                        assert(decreases_to!(self->CrossJoin_inputs => inputs@));
                        assert(decreases_to!(inputs@ => inputs@[i as int]));
                    }
                    let x = match inputs[i].estimated_rows() {
                        Some(x) => x,
                        None => {
                            proof {
                                lemma_product_fails(inputs@, (i + 1) as nat, inputs@.len());
                            }
                            return None;
                        },
                    };
                    match rows.checked_mul(x) {
                        Some(product) => rows = product,
                        None => {
                            proof {
                                lemma_product_fails(inputs@, (i + 1) as nat, inputs@.len());
                            }
                            return None;
                        },
                    }
                    i = i + 1;
                }
                Some(rows)
            },
            LogicalPlan::UnionAll { inputs } => {
                let mut rows: u64 = 0;
                let mut i: usize = 0;
                while i < inputs.len()
                    invariant
                        i <= inputs@.len(),
                        *self == (LogicalPlan::UnionAll { inputs: *inputs }),
                        sum_rows(inputs@, i as nat) == Some(rows),
                    decreases inputs@.len() - i,
                {
                    proof {
                        assert(decreases_to!(*self => self->UnionAll_inputs));
                        assert(decreases_to!(self->UnionAll_inputs => inputs@));
                        assert(decreases_to!(inputs@ => inputs@[i as int]));
                    }
                    let x = match inputs[i].estimated_rows() {
                        Some(x) => x,
                        None => {
                            proof {
                                lemma_sum_fails(inputs@, (i + 1) as nat, inputs@.len());
                            }
                            return None;
                        },
                    };
                    match rows.checked_add(x) {
                        Some(total) => rows = total,
                        None => {
                            proof {
                                lemma_sum_fails(inputs@, (i + 1) as nat, inputs@.len());
                            }
                            return None;
                        },
                    }
                    i = i + 1;
                }
                Some(rows)
            },
            LogicalPlan::Join { left, right, kind, .. } => match kind {
                BoundJoinKind::Inner | BoundJoinKind::Cross => {
                    let l = match left.estimated_rows() { Some(v) => v, None => return None };
                    let r = match right.estimated_rows() { Some(v) => v, None => return None };
                    l.checked_mul(r)
                },
                BoundJoinKind::Left => {
                    let l = match left.estimated_rows() { Some(v) => v, None => return None };
                    let r = match right.estimated_rows() { Some(v) => v, None => return None };
                    l.checked_mul(if r < 1 { 1 } else { r })
                },
                BoundJoinKind::Semi | BoundJoinKind::Anti => left.estimated_rows(),
            },
            LogicalPlan::Derived { input, .. } => input.estimated_rows(),
            LogicalPlan::Filter { input, .. } => input.estimated_rows(),
            LogicalPlan::Distinct { input } => input.estimated_rows(),
            LogicalPlan::Project { input, .. } => input.estimated_rows(),
            LogicalPlan::Aggregate { input, .. } => input.estimated_rows(),
            LogicalPlan::Sort { input, .. } => input.estimated_rows(),
            LogicalPlan::Limit { input, limit } => match input.estimated_rows() {
                Some(rows) => {
                    let after_offset = if rows > limit.offset { rows - limit.offset } else { 0 };
                    Some(if after_offset < limit.count { after_offset } else { limit.count })
                },
                None => None,
            },
        }
    }
}

/// Once a partial product fails, every longer one does.
proof fn lemma_product_fails<E>(inputs: Seq<LogicalPlan<E>>, k: nat, n: nat)
    requires
        product_rows(inputs, k) is None,
        k <= n <= inputs.len(),
    ensures
        product_rows(inputs, n) is None,
    decreases n - k,
{
    if k < n {
        lemma_product_fails(inputs, k, (n - 1) as nat);
    }
}

/// Once a partial sum fails, every longer one does.
proof fn lemma_sum_fails<E>(inputs: Seq<LogicalPlan<E>>, k: nat, n: nat)
    requires
        sum_rows(inputs, k) is None,
        k <= n <= inputs.len(),
    ensures
        sum_rows(inputs, n) is None,
    decreases n - k,
{
    if k < n {
        lemma_sum_fails(inputs, k, (n - 1) as nat);
    }
}


/// The column ids of a relation's columns, in order.
pub open spec fn column_ids(columns: Seq<BoundColumn>) -> Seq<u32> {
    Seq::new(columns.len(), |i: int| columns[i].column_id)
}

/// Whether `p` is the plan of a query: its source, then, each only when
/// the query has it, the filter, the aggregation, the `HAVING` filter,
/// then the projection, `DISTINCT`, the `UNION ALL` branches, the sort and
/// the limit, each above the one before.
pub open spec fn lowered<E>(p: LogicalPlan<E>, q: BoundQuery<E>) -> bool
    decreases q, 0nat, 8nat,
{
    match q.limit {
        Some(limit) => p matches LogicalPlan::Limit { input, limit: l } && l == limit && sorted_layer(*input, q),
        None => sorted_layer(p, q),
    }
}

/// The sort layer and what lies beneath it.
pub open spec fn sorted_layer<E>(p: LogicalPlan<E>, q: BoundQuery<E>) -> bool
    decreases q, 0nat, 7nat,
{
    if q.order_by@.len() > 0 {
        p matches LogicalPlan::Sort { input, keys } && keys@ == q.order_by@ && union_layer(*input, q)
    } else {
        union_layer(p, q)
    }
}

/// The `UNION ALL` layer: the query's own branch first, then each branch
/// planned on its own.
pub open spec fn union_layer<E>(p: LogicalPlan<E>, q: BoundQuery<E>) -> bool
    decreases q, 0nat, 6nat,
{
    if q.union_all@.len() > 0 {
        p matches LogicalPlan::UnionAll { inputs } && inputs@.len() == 1 + q.union_all@.len()
            && distinct_layer(inputs@[0], q) && branches_lowered(inputs@, q.union_all@, q.union_all@.len())
    } else {
        distinct_layer(p, q)
    }
}

/// Branches `0..k` of a union planned after its first input.
pub open spec fn branches_lowered<E>(inputs: Seq<LogicalPlan<E>>, branches: Seq<BoundQuery<E>>, k: nat) -> bool
    decreases branches, k,
{
    if k == 0 || k > branches.len() {
        k == 0
    } else {
        branches_lowered(inputs, branches, (k - 1) as nat) && lowered(inputs[k as int], branches[k - 1])
    }
}

/// The `DISTINCT` layer.
pub open spec fn distinct_layer<E>(p: LogicalPlan<E>, q: BoundQuery<E>) -> bool
    decreases q, 0nat, 5nat,
{
    if q.distinct {
        p matches LogicalPlan::Distinct { input } && projected_layer(*input, q)
    } else {
        projected_layer(p, q)
    }
}

/// The projection.
pub open spec fn projected_layer<E>(p: LogicalPlan<E>, q: BoundQuery<E>) -> bool
    decreases q, 0nat, 4nat,
{
    p matches LogicalPlan::Project { input, expressions } && expressions@ == q.projection@ && having_layer(*input, q)
}

/// The `HAVING` filter.
pub open spec fn having_layer<E>(p: LogicalPlan<E>, q: BoundQuery<E>) -> bool
    decreases q, 0nat, 3nat,
{
    match q.having {
        Some(predicate) => p matches LogicalPlan::Filter { input, predicate: h } && h == predicate && aggregate_layer(*input, q),
        None => aggregate_layer(p, q),
    }
}

/// The aggregation, present when the query groups or aggregates.
pub open spec fn aggregate_layer<E>(p: LogicalPlan<E>, q: BoundQuery<E>) -> bool
    decreases q, 0nat, 2nat,
{
    if q.group_by@.len() > 0 || q.aggregates@.len() > 0 {
        p matches LogicalPlan::Aggregate { input, group_by, aggregates } && group_by@ == q.group_by@
            && aggregates@ == q.aggregates@ && filter_layer(*input, q)
    } else {
        filter_layer(p, q)
    }
}

/// The `WHERE` filter.
pub open spec fn filter_layer<E>(p: LogicalPlan<E>, q: BoundQuery<E>) -> bool
    decreases q, 0nat, 1nat,
{
    match q.filter {
        Some(predicate) => p matches LogicalPlan::Filter { input, predicate: f } && f == predicate && source_of(*input, q.from@),
        None => source_of(p, q.from@),
    }
}

/// The source: one row without `FROM`, the sole item alone, or a cross
/// join of the items in order.
pub open spec fn source_of<E>(p: LogicalPlan<E>, from: Seq<BoundFrom<E>>) -> bool
    decreases from, from.len() + 1, 0nat,
{
    if from.len() == 0 {
        p matches LogicalPlan::OneRow
    } else if from.len() == 1 {
        item_of(p, from[0], from[0].joins@.len())
    } else {
        p matches LogicalPlan::CrossJoin { inputs } && inputs@.len() == from.len() && items_of(inputs@, from, from.len())
    }
}

/// Items `0..k` of a `FROM` list.
pub open spec fn items_of<E>(inputs: Seq<LogicalPlan<E>>, from: Seq<BoundFrom<E>>, k: nat) -> bool
    decreases from, k, 0nat,
{
    if k == 0 || k > from.len() {
        k == 0
    } else {
        items_of(inputs, from, (k - 1) as nat) && item_of(inputs[k - 1], from[k - 1], from[k - 1].joins@.len())
    }
}

/// A `FROM` item with its first `k` joins: each join takes what came
/// before as its left input.
pub open spec fn item_of<E>(p: LogicalPlan<E>, f: BoundFrom<E>, k: nat) -> bool
    decreases f, k, 0nat,
{
    if k == 0 || k > f.joins@.len() {
        k == 0 && relation_of(p, f.base)
    } else {
        let join = f.joins@[k - 1];
        p matches LogicalPlan::Join { left, right, kind, condition } && kind == join.kind && condition == join.condition
            && relation_of(*right, join.table) && item_of(*left, f, (k - 1) as nat)
    }
}

/// A relation: a derived query planned beneath its columns, or a scan of
/// every column of a stored table with no predicate and no limit yet.
pub open spec fn relation_of<E>(p: LogicalPlan<E>, t: BoundTable<E>) -> bool
    decreases t, 0nat, 0nat,
{
    match t.input {
        Some(query) => p matches LogicalPlan::Derived { input, columns } && columns@ == t.columns@ && lowered(*input, *query),
        None => p matches LogicalPlan::Scan(scan) && scan.table == t && scan.projected_column_ids@ == column_ids(t.columns@)
            && scan.predicates@.len() == 0 && scan.limit is None,
    }
}

/// Lowers typed bound queries into explicit relational operators.
#[derive(Clone, Copy, Debug, Default)]
pub struct LogicalPlanner;

/// The column ids of a relation.
fn ids_of(columns: &Vec<BoundColumn>) -> (r: Vec<u32>)
    ensures
        r@ == column_ids(columns@),
{
    let mut r: Vec<u32> = Vec::new();
    let mut i: usize = 0;
    while i < columns.len()
        invariant
            i <= columns@.len(),
            r@ == column_ids(columns@.subrange(0, i as int)),
        decreases columns@.len() - i,
    {
        r.push(columns[i].column_id);
        i = i + 1;
        assert(r@ =~= column_ids(columns@.subrange(0, i as int)));
    }
    assert(columns@.subrange(0, columns@.len() as int) =~= columns@);
    r
}

impl LogicalPlanner {
    /// Builds an unoptimized logical plan.
    pub fn plan<E>(query: BoundQuery<E>) -> (r: LogicalPlan<E>)
        ensures
            lowered(r, query),
        decreases query, 1nat, 0nat,
    {
        let ghost q = query;
        let BoundQuery {
            from,
            projection,
            filter,
            group_by,
            aggregates,
            having,
            distinct,
            order_by,
            union_all,
            limit,
        } = query;
        proof {
            assert(decreases_to!(q => q.from));
        }
        let mut plan = source_plan(from);
        assert(source_of(plan, q.from@));
        if let Some(predicate) = filter {
            plan = LogicalPlan::Filter { input: Box::new(plan), predicate };
        }
        assert(filter_layer(plan, q));
        if group_by.len() > 0 || aggregates.len() > 0 {
            plan = LogicalPlan::Aggregate { input: Box::new(plan), group_by, aggregates };
        }
        assert(aggregate_layer(plan, q));
        if let Some(predicate) = having {
            plan = LogicalPlan::Filter { input: Box::new(plan), predicate };
        }
        assert(having_layer(plan, q));
        plan = LogicalPlan::Project { input: Box::new(plan), expressions: projection };
        assert(projected_layer(plan, q));
        if distinct {
            plan = LogicalPlan::Distinct { input: Box::new(plan) };
        }
        assert(distinct_layer(plan, q));
        if union_all.len() > 0 {
            let ghost branches = union_all@;
            let mut inputs: Vec<LogicalPlan<E>> = Vec::new();
            inputs.push(plan);
            let mut rest = union_all;
            let total = rest.len();
            let mut k: usize = 0;
            while rest.len() > 0
                invariant
                    q == query,
                    total == branches.len(),
                    k + rest@.len() == branches.len(),
                    rest@ == branches.subrange(k as int, branches.len() as int),
                    branches == q.union_all@,
                    inputs@.len() == 1 + k,
                    distinct_layer(inputs@[0], q),
                    branches_lowered(inputs@, branches, k as nat),
                decreases rest@.len(),
            {
                let branch = rest.remove(0);
                proof {
                    assert(branch == branches[k as int]);
                    assert(decreases_to!(q => q.union_all));
                    assert(decreases_to!(q.union_all => q.union_all@));
                    assert(decreases_to!(q.union_all@ => q.union_all@[k as int]));
                }
                let ghost before = inputs@;
                let lowered_branch = LogicalPlanner::plan(branch);
                inputs.push(lowered_branch);
                proof {
                    lemma_branches_extend(before, inputs@, branches, k as nat);
                    assert(rest@ =~= branches.subrange(k + 1, branches.len() as int));
                }
                k = k + 1;
            }
            plan = LogicalPlan::UnionAll { inputs };
        }
        assert(union_layer(plan, q));
        if order_by.len() > 0 {
            plan = LogicalPlan::Sort { input: Box::new(plan), keys: order_by };
        }
        assert(sorted_layer(plan, q));
        if let Some(limit) = limit {
            plan = LogicalPlan::Limit { input: Box::new(plan), limit };
        }
        plan
    }
}

/// Pushing a plan keeps the branches already lowered and adds the next.
proof fn lemma_branches_extend<E>(before: Seq<LogicalPlan<E>>, after: Seq<LogicalPlan<E>>, branches: Seq<BoundQuery<E>>, k: nat)
    requires
        k < branches.len(),
        after.len() == before.len() + 1,
        before.len() == k + 1,
        forall|i: int| 0 <= i < before.len() ==> after[i] == before[i],
        branches_lowered(before, branches, k),
        lowered(after[(k + 1) as int], branches[k as int]),
    ensures
        branches_lowered(after, branches, k + 1),
    decreases k,
{
    lemma_branches_same(before, after, branches, k);
}

/// Branches lowered into one list stay lowered in a list that agrees with
/// it on their positions.
proof fn lemma_branches_same<E>(a: Seq<LogicalPlan<E>>, b: Seq<LogicalPlan<E>>, branches: Seq<BoundQuery<E>>, k: nat)
    requires
        branches_lowered(a, branches, k),
        k < a.len(),
        k < b.len(),
        forall|i: int| 0 <= i <= k ==> b[i] == a[i],
    ensures
        branches_lowered(b, branches, k),
    decreases k,
{
    if k > 0 {
        lemma_branches_same(a, b, branches, (k - 1) as nat);
    }
}

/// Items planned into one list stay planned in a list that agrees with it
/// on their positions.
proof fn lemma_items_same<E>(a: Seq<LogicalPlan<E>>, b: Seq<LogicalPlan<E>>, from: Seq<BoundFrom<E>>, k: nat)
    requires
        items_of(a, from, k),
        k <= a.len(),
        k <= b.len(),
        forall|i: int| 0 <= i < k ==> b[i] == a[i],
    ensures
        items_of(b, from, k),
    decreases k,
{
    if k > 0 {
        lemma_items_same(a, b, from, (k - 1) as nat);
    }
}

/// The plan of the `FROM` list.
fn source_plan<E>(from: Vec<BoundFrom<E>>) -> (r: LogicalPlan<E>)
    ensures
        source_of(r, from@),
    decreases from, 2nat, 0nat,
{
    let ghost items = from@;
    let mut rest = from;
    let total = rest.len();
    let mut inputs: Vec<LogicalPlan<E>> = Vec::new();
    let mut k: usize = 0;
    while rest.len() > 0
        invariant
            items == from@,
            total == items.len(),
            k + rest@.len() == items.len(),
            rest@ == items.subrange(k as int, items.len() as int),
            inputs@.len() == k,
            items_of(inputs@, items, k as nat),
        decreases rest@.len(),
    {
        let source = rest.remove(0);
        proof {
            assert(source == items[k as int]);
            assert(decreases_to!(items => items[k as int]));
        }
        let ghost before = inputs@;
        let item = item_plan(source);
        inputs.push(item);
        proof {
            lemma_items_same(before, inputs@, items, k as nat);
            assert(rest@ =~= items.subrange(k + 1, items.len() as int));
        }
        k = k + 1;
    }
    if inputs.len() == 0 {
        LogicalPlan::OneRow
    } else if inputs.len() == 1 {
        let only = inputs.pop().unwrap();
        only
    } else {
        LogicalPlan::CrossJoin { inputs }
    }
}

/// The plan of one `FROM` item: its relation, then each join in order.
fn item_plan<E>(source: BoundFrom<E>) -> (r: LogicalPlan<E>)
    ensures
        item_of(r, source, source.joins@.len()),
    decreases source, 1nat, 0nat,
{
    let ghost f = source;
    let BoundFrom { base, joins } = source;
    proof {
        assert(decreases_to!(f => f.base));
    }
    let mut plan = relation_plan(base);
    let mut rest = joins;
    let total = rest.len();
    let mut k: usize = 0;
    while rest.len() > 0
        invariant
            f == source,
            total == f.joins@.len(),
            k + rest@.len() == f.joins@.len(),
            rest@ == f.joins@.subrange(k as int, f.joins@.len() as int),
            item_of(plan, f, k as nat),
        decreases rest@.len(),
    {
        let join = rest.remove(0);
        proof {
            assert(join == f.joins@[k as int]);
            assert(decreases_to!(f => f.joins));
            assert(decreases_to!(f.joins => f.joins@));
            assert(decreases_to!(f.joins@ => f.joins@[k as int]));
            assert(decreases_to!(f.joins@[k as int] => f.joins@[k as int].table));
        }
        let BoundJoin { table, kind, condition } = join;
        let right = relation_plan(table);
        plan = LogicalPlan::Join { left: Box::new(plan), right: Box::new(right), kind, condition };
        proof {
            assert(rest@ =~= f.joins@.subrange(k + 1, f.joins@.len() as int));
        }
        k = k + 1;
    }
    plan
}

/// The plan of one relation.
fn relation_plan<E>(table: BoundTable<E>) -> (r: LogicalPlan<E>)
    ensures
        relation_of(r, table),
    decreases table, 1nat, 0nat,
{
    let ghost t = table;
    let mut table = table;
    match table.input.take() {
        Some(input) => {
            proof {
                assert(decreases_to!(t => t.input));
                assert(decreases_to!(t.input => t.input->Some_0));
            }
            let inner = LogicalPlanner::plan(*input);
            LogicalPlan::Derived { input: Box::new(inner), columns: table.columns }
        },
        None => {
            let projected_column_ids = ids_of(&table.columns);
            LogicalPlan::Scan(Scan { table, projected_column_ids, predicates: Vec::new(), limit: None })
        },
    }
}

} // verus!
