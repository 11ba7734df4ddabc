use pintail_exec::logical::{
    BoundColumn, BoundFrom, BoundJoin, BoundJoinKind, BoundLimit, BoundQuery, BoundTable, LogicalPlan,
    LogicalPlanner, Projection,
};
use pintail_exec::compare::DataType;
use pintail_exec::logical::Scan;
use pintail_exec::optimizer::{merges, order_cross_join_inputs, push_limits};

type Query = BoundQuery<&'static str>;

fn column(table_id: u64, column_id: u32) -> BoundColumn {
    BoundColumn {
        database_id: 1,
        table_id,
        relation: table_id,
        column_id,
        data_type: DataType::Int64,
        nullable: false,
        collation: None,
        is_enum: false,
    }
}

fn table(id: u64, rows: u64) -> BoundTable<&'static str> {
    BoundTable {
        database_id: 1,
        table_id: id,
        relation: id,
        row_count: Some(rows),
        columns: vec![column(id, 1), column(id, 2)], key_column_ids: Vec::new(),
        input: None,
    }
}

fn events() -> BoundFrom<&'static str> {
    BoundFrom { base: table(1, 100), joins: Vec::new() }
}

fn users() -> BoundFrom<&'static str> {
    BoundFrom { base: table(2, 20), joins: Vec::new() }
}

fn select(from: Vec<BoundFrom<&'static str>>, projection: Vec<&'static str>) -> Query {
    BoundQuery {
        from,
        projection: projection.into_iter().map(|name| Projection { name: name.to_string(), expr: name }).collect(),
        filter: None,
        group_by: Vec::new(),
        aggregates: Vec::new(),
        having: None,
        distinct: false,
        order_by: Vec::new(),
        union_all: Vec::new(),
        limit: None,
    }
}

#[test]
fn lowers_select_filter_project_and_limit_in_semantic_order() {
    // SELECT name FROM events WHERE id > 10 LIMIT 5, 12
    let mut query = select(vec![events()], vec!["name"]);
    query.filter = Some("id > 10");
    query.limit = Some(BoundLimit { offset: 5, count: 12 });
    let plan = LogicalPlanner::plan(query);
    let LogicalPlan::Limit { input, limit } = plan else {
        panic!("limit root");
    };
    assert_eq!(limit, BoundLimit { offset: 5, count: 12 });
    let LogicalPlan::Project { input, expressions } = *input else {
        panic!("project below limit");
    };
    assert_eq!(expressions[0].name, "name");
    assert_eq!(expressions[0].expr, "name");
    let LogicalPlan::Filter { input, .. } = *input else {
        panic!("filter below project");
    };
    let LogicalPlan::Scan(scan) = *input else {
        panic!("scan leaf");
    };
    assert_eq!(scan.projected_column_ids, [1, 2]);
    assert_eq!(scan.estimated_rows(), Some(100));
}

#[test]
fn represents_constant_queries_with_one_row_input() {
    // SELECT 1
    let plan = LogicalPlanner::plan(select(Vec::new(), vec!["1"]));
    let LogicalPlan::Project { input, .. } = plan else {
        panic!("project root");
    };
    assert!(matches!(*input, LogicalPlan::OneRow));
    assert_eq!(LogicalPlan::Limit { input, limit: BoundLimit { offset: 0, count: 4 } }.estimated_rows(), Some(1));
}

#[test]
fn keeps_cross_join_inputs_and_cardinality_visible() {
    // SELECT events.id FROM events, users
    let plan = LogicalPlanner::plan(select(vec![events(), users()], vec!["events.id"]));
    let LogicalPlan::Project { input, .. } = plan else {
        panic!("project root");
    };
    let LogicalPlan::CrossJoin { inputs } = *input else {
        panic!("cross join");
    };
    assert_eq!(inputs.len(), 2);
    assert_eq!(LogicalPlan::CrossJoin { inputs }.estimated_rows(), Some(2_000));
}

#[test]
fn places_distinct_before_limit() {
    // SELECT DISTINCT name FROM events LIMIT 3
    let mut query = select(vec![events()], vec!["name"]);
    query.distinct = true;
    query.limit = Some(BoundLimit { offset: 0, count: 3 });
    let LogicalPlan::Limit { input, .. } = LogicalPlanner::plan(query) else {
        panic!("limit root");
    };
    assert!(matches!(*input, LogicalPlan::Distinct { .. }));
}

#[test]
fn places_sort_after_projection_and_before_limit() {
    // SELECT name AS label FROM events ORDER BY label DESC LIMIT 3
    let mut query = select(vec![events()], vec!["name AS label"]);
    query.order_by = vec!["label DESC"];
    query.limit = Some(BoundLimit { offset: 0, count: 3 });
    let LogicalPlan::Limit { input, .. } = LogicalPlanner::plan(query) else {
        panic!("limit root");
    };
    let LogicalPlan::Sort { input, keys } = *input else {
        panic!("sort");
    };
    assert_eq!(keys.len(), 1);
    assert_eq!(keys[0], "label DESC");
    assert!(matches!(*input, LogicalPlan::Project { .. }));
}

#[test]
fn applies_outer_sort_and_limit_after_union_all() {
    // SELECT 2 AS value UNION ALL SELECT 1 ORDER BY value LIMIT 1
    let mut query = select(Vec::new(), vec!["2 AS value"]);
    query.union_all = vec![select(Vec::new(), vec!["1"])];
    query.order_by = vec!["value"];
    query.limit = Some(BoundLimit { offset: 0, count: 1 });
    let LogicalPlan::Limit { input, .. } = LogicalPlanner::plan(query) else {
        panic!("limit root");
    };
    let LogicalPlan::Sort { input, .. } = *input else {
        panic!("sort");
    };
    let LogicalPlan::UnionAll { inputs } = *input else {
        panic!("union");
    };
    assert_eq!(inputs.len(), 2);
    assert!(inputs.iter().all(|input| matches!(input, LogicalPlan::Project { .. })));
}

#[test]
fn preserves_explicit_join_kind_and_condition() {
    // SELECT events.name FROM events LEFT JOIN users ON events.id = users.id
    let from = BoundFrom {
        base: table(1, 100),
        joins: vec![BoundJoin { table: table(2, 20), kind: BoundJoinKind::Left, condition: Some("events.id = users.id") }],
    };
    let LogicalPlan::Project { input, .. } = LogicalPlanner::plan(select(vec![from], vec!["events.name"])) else {
        panic!("project root");
    };
    let LogicalPlan::Join { kind, condition, left, right } = *input else {
        panic!("join");
    };
    assert_eq!(kind, BoundJoinKind::Left);
    assert!(condition.is_some());
    assert!(matches!(*left, LogicalPlan::Scan(_)));
    assert!(matches!(*right, LogicalPlan::Scan(_)));
}

#[test]
fn places_having_between_aggregate_and_projection() {
    // SELECT name, COUNT(*) AS rows FROM events GROUP BY name HAVING COUNT(*) > 1
    let mut query = select(vec![events()], vec!["name", "COUNT(*) AS rows"]);
    query.group_by = vec!["name"];
    query.aggregates = vec!["COUNT(*)"];
    query.having = Some("COUNT(*) > 1");
    let LogicalPlan::Project { input, .. } = LogicalPlanner::plan(query) else {
        panic!("project root");
    };
    let LogicalPlan::Filter { input, .. } = *input else {
        panic!("having filter");
    };
    let LogicalPlan::Aggregate { input, group_by, aggregates } = *input else {
        panic!("aggregate");
    };
    assert_eq!(group_by.len(), 1);
    assert_eq!(aggregates.len(), 1);
    assert!(matches!(*input, LogicalPlan::Scan(_)));
}

#[test]
fn a_limit_reaches_a_predicate_free_scan_through_a_projection() {
    // SELECT name FROM events LIMIT 5, 12: the scan needs 17 rows.
    let mut query = select(vec![events()], vec!["name"]);
    query.limit = Some(BoundLimit { offset: 5, count: 12 });
    let plan = push_limits(LogicalPlanner::plan(query));
    let LogicalPlan::Limit { input, .. } = plan else {
        panic!("limit root");
    };
    let LogicalPlan::Project { input, .. } = *input else {
        panic!("project");
    };
    let LogicalPlan::Scan(scan) = *input else {
        panic!("scan");
    };
    assert_eq!(scan.limit, Some(17));
    assert_eq!(scan.estimated_rows(), Some(17));
}

#[test]
fn a_limit_stops_at_distinct_and_filters() {
    let mut query = select(vec![events()], vec!["name"]);
    query.distinct = true;
    query.limit = Some(BoundLimit { offset: 0, count: 3 });
    let LogicalPlan::Limit { input, .. } = push_limits(LogicalPlanner::plan(query)) else {
        panic!("limit root");
    };
    let LogicalPlan::Distinct { input } = *input else {
        panic!("distinct");
    };
    let LogicalPlan::Project { input, .. } = *input else {
        panic!("project");
    };
    let LogicalPlan::Scan(scan) = *input else {
        panic!("scan");
    };
    assert_eq!(scan.limit, None);

    let mut filtered = select(vec![events()], vec!["name"]);
    filtered.filter = Some("id > 10");
    filtered.limit = Some(BoundLimit { offset: 0, count: 3 });
    let LogicalPlan::Limit { input, .. } = push_limits(LogicalPlanner::plan(filtered)) else {
        panic!("limit root");
    };
    let LogicalPlan::Project { input, .. } = *input else {
        panic!("project");
    };
    let LogicalPlan::Filter { input, .. } = *input else {
        panic!("filter");
    };
    let LogicalPlan::Scan(scan) = *input else {
        panic!("scan");
    };
    assert_eq!(scan.limit, None);
}

#[test]
fn only_plain_row_sources_merge_into_their_reader() {
    let scan_only = LogicalPlanner::plan(select(vec![events()], vec!["name"]));
    let LogicalPlan::Project { input, .. } = scan_only else {
        panic!("project");
    };
    assert!(merges(&input));
    let mut grouped = select(vec![events()], vec!["name"]);
    grouped.group_by = vec!["name"];
    let LogicalPlan::Project { input, .. } = LogicalPlanner::plan(grouped) else {
        panic!("project");
    };
    assert!(!merges(&input));
}

#[test]
fn estimates_multiply_joins_and_add_unions() {
    let mut union = select(vec![events()], vec!["name"]);
    union.union_all = vec![select(vec![users()], vec!["name"])];
    assert_eq!(LogicalPlanner::plan(union).estimated_rows(), Some(120));
    let unknown = BoundTable { database_id: 1, table_id: 3, relation: 3, row_count: None, columns: Vec::new(), key_column_ids: Vec::new(), input: None };
    let plan = LogicalPlanner::plan(select(vec![events(), BoundFrom { base: unknown, joins: Vec::new() }], vec!["x"]));
    assert_eq!(plan.estimated_rows(), None);
}

fn scan_of(id: u64, rows: Option<u64>) -> LogicalPlan<&'static str> {
    LogicalPlan::Scan(Scan {
        table: BoundTable { database_id: 1, table_id: id, relation: id, row_count: rows, columns: Vec::new(), key_column_ids: Vec::new(), input: None },
        projected_column_ids: Vec::new(),
        predicates: Vec::new(),
        limit: None,
    })
}

fn table_ids(plans: &[LogicalPlan<&'static str>]) -> Vec<u64> {
    plans
        .iter()
        .map(|plan| match plan {
            LogicalPlan::Scan(scan) => scan.table.table_id,
            _ => panic!("scan expected"),
        })
        .collect()
}

#[test]
fn cross_join_inputs_go_smallest_first() {
    // FROM events, users: the 20-row table goes first.
    let ordered = order_cross_join_inputs(vec![scan_of(1, Some(100)), scan_of(2, Some(20))]);
    assert_eq!(table_ids(&ordered), [2, 1]);
}

#[test]
fn cross_join_ordering_is_stable_and_puts_unknown_estimates_last() {
    let ordered = order_cross_join_inputs(vec![
        scan_of(1, None),
        scan_of(2, Some(20)),
        scan_of(3, Some(5)),
        scan_of(4, Some(20)),
        LogicalPlan::OneRow,
    ]);
    assert!(matches!(ordered[0], LogicalPlan::OneRow));
    assert_eq!(table_ids(&ordered[1..]), [3, 2, 4, 1]);
}
