use pintail_exec::aggregate_rules::{push_aggregates_through_identity_joins, replace_metadata_counts};
use pintail_exec::bound_expr::{AggregateFunction, BoundExpr, BoundExprKind};
use pintail_exec::compare::{BinaryOp, DataType, Value};
use pintail_exec::logical::{BoundColumn, BoundTable, LogicalPlan, Scan};

fn column(table_id: u64, column_id: u32) -> BoundColumn {
    BoundColumn {
        database_id: 1,
        table_id,
        relation: table_id,
        column_id,
        data_type: DataType::Int64,
        nullable: true,
        collation: None,
        is_enum: false,
    }
}

fn col(table_id: u64, column_id: u32) -> BoundExpr {
    BoundExpr { kind: BoundExprKind::Column(column(table_id, column_id)), data_type: Some(DataType::Int64), nullable: true }
}

fn scan(table_id: u64, rows: Option<u64>) -> LogicalPlan<BoundExpr> {
    LogicalPlan::Scan(Scan {
        table: BoundTable {
            database_id: 1,
            table_id,
            relation: table_id,
            row_count: rows,
            columns: vec![column(table_id, 1)], key_column_ids: Vec::new(),
            input: None,
        },
        projected_column_ids: vec![1],
        predicates: Vec::new(),
        limit: None,
    })
}

fn count_star() -> BoundExpr {
    BoundExpr {
        kind: BoundExprKind::AggregateCall {
            function: AggregateFunction::Count,
            arg: None,
            distinct: false,
            declared: true,
        },
        data_type: Some(DataType::UInt64),
        nullable: false,
    }
}

fn sum_of(expr: BoundExpr) -> BoundExpr {
    BoundExpr {
        kind: BoundExprKind::AggregateCall {
            function: AggregateFunction::Sum,
            arg: Some(Box::new(expr)),
            distinct: false,
            declared: true,
        },
        data_type: Some(DataType::Int64),
        nullable: true,
    }
}

fn aggregate(input: LogicalPlan<BoundExpr>, group_by: Vec<BoundExpr>, aggregates: Vec<BoundExpr>) -> LogicalPlan<BoundExpr> {
    LogicalPlan::Aggregate { input: Box::new(input), group_by, aggregates }
}

fn table_ids(plan: &LogicalPlan<BoundExpr>) -> Vec<u64> {
    match plan {
        LogicalPlan::Scan(scan) => vec![scan.table.table_id],
        LogicalPlan::CrossJoin { inputs } => inputs.iter().flat_map(table_ids).collect(),
        LogicalPlan::OneRow => vec![0],
        _ => Vec::new(),
    }
}

#[test]
fn answers_a_predicate_free_count_star_from_the_catalog() {
    let plan = replace_metadata_counts(aggregate(scan(1, Some(42)), Vec::new(), vec![count_star()]));
    let LogicalPlan::Project { input, expressions } = plan else {
        panic!("the count is answered by a projection");
    };
    assert!(matches!(*input, LogicalPlan::OneRow));
    assert_eq!(expressions.len(), 1);
    assert_eq!(expressions[0].name, "COUNT(*)");
    assert_eq!(
        expressions[0].expr,
        BoundExpr { kind: BoundExprKind::Literal(Value::UInt64(42)), data_type: Some(DataType::UInt64), nullable: false }
    );
}

#[test]
fn counts_a_table_without_statistics_or_with_a_predicate_by_scanning() {
    let unknown = replace_metadata_counts(aggregate(scan(1, None), Vec::new(), vec![count_star()]));
    assert!(matches!(unknown, LogicalPlan::Aggregate { .. }));
    let LogicalPlan::Scan(mut filtered) = scan(1, Some(42)) else {
        panic!("a scan");
    };
    filtered.predicates.push(BoundExpr {
        kind: BoundExprKind::Binary {
            op: BinaryOp::Equal,
            left: Box::new(col(1, 1)),
            right: Box::new(BoundExpr { kind: BoundExprKind::Literal(Value::Int64(3)), data_type: Some(DataType::Int64), nullable: false }),
        },
        data_type: Some(DataType::Boolean),
        nullable: true,
    });
    let kept = replace_metadata_counts(aggregate(LogicalPlan::Scan(filtered), Vec::new(), vec![count_star()]));
    assert!(matches!(kept, LogicalPlan::Aggregate { .. }));
}

#[test]
fn a_grouped_or_distinct_count_is_not_answered_from_metadata() {
    let grouped = replace_metadata_counts(aggregate(scan(1, Some(42)), vec![col(1, 1)], vec![count_star()]));
    assert!(matches!(grouped, LogicalPlan::Aggregate { .. }));
    let mut distinct = count_star();
    distinct.kind = BoundExprKind::AggregateCall {
        function: AggregateFunction::Count,
        arg: None,
        distinct: true,
        declared: true,
    };
    let plan = replace_metadata_counts(aggregate(scan(1, Some(42)), Vec::new(), vec![distinct]));
    assert!(matches!(plan, LogicalPlan::Aggregate { .. }));
}

#[test]
fn drops_unreferenced_one_row_inputs_beneath_a_grouping() {
    let product = LogicalPlan::CrossJoin { inputs: vec![scan(1, Some(100)), scan(2, Some(1)), LogicalPlan::OneRow] };
    let plan = push_aggregates_through_identity_joins(aggregate(product, Vec::new(), vec![sum_of(col(1, 1))]));
    let LogicalPlan::Aggregate { input, .. } = plan else {
        panic!("the grouping stays");
    };
    assert_eq!(table_ids(&input), vec![1]);
    assert_eq!(input.estimated_rows(), Some(100));
}

#[test]
fn keeps_a_one_row_input_that_a_key_or_aggregate_reads() {
    let product = LogicalPlan::CrossJoin { inputs: vec![scan(1, Some(100)), scan(2, Some(1)), scan(3, Some(1))] };
    let plan = push_aggregates_through_identity_joins(aggregate(product, vec![col(2, 1)], vec![sum_of(col(1, 1))]));
    let LogicalPlan::Aggregate { input, .. } = plan else {
        panic!("the grouping stays");
    };
    assert_eq!(table_ids(&input), vec![1, 2]);
}

#[test]
fn a_product_of_identities_becomes_one_row() {
    let product = LogicalPlan::CrossJoin { inputs: vec![scan(2, Some(1)), LogicalPlan::OneRow] };
    let plan = push_aggregates_through_identity_joins(aggregate(product, Vec::new(), vec![count_star()]));
    let LogicalPlan::Aggregate { input, .. } = plan else {
        panic!("the grouping stays");
    };
    assert!(matches!(*input, LogicalPlan::OneRow));
}
