use pintail_exec::bound_expr::{
    and_expr, expression_contains_subquery, referenced_table, split_conjunction, BoundExpr,
    BoundExprKind, TableKey,
};
use pintail_exec::compare::{BinaryOp, DataType, Value};
use pintail_exec::logical::{BoundColumn, BoundJoinKind, BoundTable, LogicalPlan, Scan};
use pintail_exec::pushdown::{can_push, contains_table, push_conjunct, push_predicates};

fn key(table_id: u64, relation: u64) -> TableKey {
    TableKey { database_id: 1, table_id, relation }
}

fn column(table_id: u64, relation: u64, column_id: u32) -> BoundColumn {
    BoundColumn {
        database_id: 1,
        table_id,
        relation,
        column_id,
        data_type: DataType::Int64,
        nullable: true,
        collation: None,
        is_enum: false,
    }
}

fn col(table_id: u64, relation: u64, column_id: u32) -> BoundExpr {
    BoundExpr {
        kind: BoundExprKind::Column(column(table_id, relation, column_id)),
        data_type: Some(DataType::Int64),
        nullable: true,
    }
}

fn lit(value: i64) -> BoundExpr {
    BoundExpr { kind: BoundExprKind::Literal(Value::Int64(value)), data_type: Some(DataType::Int64), nullable: false }
}

fn eq(left: BoundExpr, right: BoundExpr) -> BoundExpr {
    BoundExpr {
        nullable: left.nullable || right.nullable,
        data_type: Some(DataType::Boolean),
        kind: BoundExprKind::Binary { op: BinaryOp::Equal, left: Box::new(left), right: Box::new(right) },
    }
}

fn scan(table_id: u64, relation: u64) -> LogicalPlan<BoundExpr> {
    scan_in(1, table_id, relation)
}

fn scan_in(database_id: u64, table_id: u64, relation: u64) -> LogicalPlan<BoundExpr> {
    LogicalPlan::Scan(Scan {
        table: BoundTable {
            database_id,
            table_id,
            relation,
            row_count: Some(10),
            columns: vec![column(table_id, relation, 1)], key_column_ids: Vec::new(),
            input: None,
        },
        projected_column_ids: vec![1],
        predicates: Vec::new(),
        limit: None,
    })
}

fn filter(input: LogicalPlan<BoundExpr>, predicate: BoundExpr) -> LogicalPlan<BoundExpr> {
    LogicalPlan::Filter { input: Box::new(input), predicate }
}

fn scan_predicates(plan: &LogicalPlan<BoundExpr>) -> Vec<(u64, usize)> {
    match plan {
        LogicalPlan::Scan(scan) => vec![(scan.table.relation, scan.predicates.len())],
        LogicalPlan::CrossJoin { inputs } | LogicalPlan::UnionAll { inputs } => {
            inputs.iter().flat_map(scan_predicates).collect()
        }
        LogicalPlan::Join { left, right, .. } => {
            let mut all = scan_predicates(left);
            all.extend(scan_predicates(right));
            all
        }
        LogicalPlan::Filter { input, .. }
        | LogicalPlan::Derived { input, .. }
        | LogicalPlan::Aggregate { input, .. }
        | LogicalPlan::Project { input, .. }
        | LogicalPlan::Distinct { input }
        | LogicalPlan::Sort { input, .. }
        | LogicalPlan::Limit { input, .. } => scan_predicates(input),
        LogicalPlan::Empty | LogicalPlan::OneRow => Vec::new(),
    }
}

#[test]
fn splits_nested_conjunctions_left_to_right() {
    let a = eq(col(1, 1, 1), lit(1));
    let b = eq(col(1, 1, 2), lit(2));
    let c = eq(col(2, 2, 1), lit(3));
    let predicate = and_expr(and_expr(a, b), c);
    let parts = split_conjunction(predicate);
    assert_eq!(parts, vec![eq(col(1, 1, 1), lit(1)), eq(col(1, 1, 2), lit(2)), eq(col(2, 2, 1), lit(3))]);
}

#[test]
fn an_and_is_boolean_and_nullable_when_either_side_is() {
    let both = and_expr(eq(col(1, 1, 1), lit(1)), eq(lit(1), lit(1)));
    assert_eq!(both.data_type, Some(DataType::Boolean));
    assert!(both.nullable);
    let neither = and_expr(eq(lit(2), lit(1)), eq(lit(1), lit(1)));
    assert!(!neither.nullable);
}

#[test]
fn finds_the_one_relation_a_predicate_names() {
    assert_eq!(referenced_table(&eq(col(1, 7, 1), col(1, 7, 2))), Some(key(1, 7)));
    assert_eq!(referenced_table(&eq(col(1, 7, 1), col(1, 8, 1))), None);
    assert_eq!(referenced_table(&eq(lit(1), lit(1))), None);
    let call = BoundExpr {
        kind: BoundExprKind::Scalar { function: 3, volatile: false, args: vec![col(2, 2, 1), lit(4), col(2, 2, 3)] },
        data_type: Some(DataType::Int64),
        nullable: true,
    };
    assert_eq!(referenced_table(&call), Some(key(2, 2)));
}

#[test]
fn sees_subqueries_through_function_arguments() {
    let exists = BoundExpr {
        kind: BoundExprKind::ExistsSubquery { reads: vec![column(1, 1, 1)], negated: false },
        data_type: Some(DataType::Boolean),
        nullable: false,
    };
    let call = BoundExpr {
        kind: BoundExprKind::Scalar { function: 1, volatile: false, args: vec![lit(1), exists] },
        data_type: Some(DataType::Boolean),
        nullable: false,
    };
    assert!(expression_contains_subquery(&call));
    assert!(!expression_contains_subquery(&eq(col(1, 1, 1), lit(1))));
}

#[test]
fn moves_single_relation_conjuncts_into_their_scans() {
    let plan = filter(
        LogicalPlan::CrossJoin { inputs: vec![scan(1, 1), scan(2, 2)] },
        and_expr(and_expr(eq(col(1, 1, 1), lit(5)), eq(col(1, 1, 1), col(2, 2, 1))), eq(col(2, 2, 1), lit(6))),
    );
    let pushed = push_predicates(plan);
    let LogicalPlan::Filter { input, predicate } = &pushed else {
        panic!("the two-relation conjunct stays in a filter");
    };
    assert_eq!(*predicate, eq(col(1, 1, 1), col(2, 2, 1)));
    assert_eq!(scan_predicates(input), vec![(1, 1), (2, 1)]);
}

#[test]
fn a_filter_left_with_nothing_disappears() {
    let plan = filter(scan(1, 1), and_expr(eq(col(1, 1, 1), lit(5)), eq(col(1, 1, 2), lit(6))));
    let pushed = push_predicates(plan);
    assert!(matches!(pushed, LogicalPlan::Scan(_)));
    assert_eq!(scan_predicates(&pushed), vec![(1, 2)]);
}

#[test]
fn a_self_join_keeps_each_predicate_on_the_alias_it_names() {
    let plan = filter(
        LogicalPlan::CrossJoin { inputs: vec![scan(1, 10), scan(1, 11)] },
        and_expr(eq(col(1, 11, 1), lit(1)), eq(col(1, 11, 1), lit(2))),
    );
    let pushed = push_predicates(plan);
    assert_eq!(scan_predicates(&pushed), vec![(10, 0), (11, 2)]);
}

#[test]
fn a_left_join_keeps_a_predicate_on_its_null_supplying_side_above_it() {
    let join = LogicalPlan::Join {
        left: Box::new(scan(1, 1)),
        right: Box::new(scan(2, 2)),
        kind: BoundJoinKind::Left,
        condition: Some(eq(col(1, 1, 1), col(2, 2, 1))),
    };
    let pushed = push_predicates(filter(join, and_expr(eq(col(2, 2, 1), lit(1)), eq(col(1, 1, 1), lit(2)))));
    let LogicalPlan::Filter { input, predicate } = &pushed else {
        panic!("the right-side predicate stays above the left join");
    };
    assert_eq!(*predicate, eq(col(2, 2, 1), lit(1)));
    assert_eq!(scan_predicates(input), vec![(1, 1), (2, 0)]);
}

#[test]
fn an_inner_join_takes_predicates_on_either_side() {
    let join = LogicalPlan::Join {
        left: Box::new(scan(1, 1)),
        right: Box::new(scan(2, 2)),
        kind: BoundJoinKind::Inner,
        condition: None,
    };
    let pushed = push_predicates(filter(join, eq(col(2, 2, 1), lit(1))));
    assert_eq!(scan_predicates(&pushed), vec![(1, 0), (2, 1)]);
    assert!(matches!(pushed, LogicalPlan::Join { .. }));
}

#[test]
fn a_subquery_conjunct_stays_in_the_filter() {
    let in_subquery = BoundExpr {
        kind: BoundExprKind::InSubquery { expr: Box::new(col(1, 1, 1)), reads: Vec::new(), negated: false },
        data_type: Some(DataType::Boolean),
        nullable: true,
    };
    let (plan, back) = push_conjunct(scan(1, 1), in_subquery);
    assert!(back.is_some());
    assert_eq!(scan_predicates(&plan), vec![(1, 0)]);
}

#[test]
fn a_working_table_takes_no_storage_predicate() {
    let working = scan_in(u64::MAX, 4, 4);
    assert!(!can_push(&working, &TableKey { database_id: u64::MAX, table_id: 4, relation: 4 }));
    let predicate = eq(
        BoundExpr {
            kind: BoundExprKind::Column(BoundColumn { database_id: u64::MAX, ..column(4, 4, 1) }),
            data_type: Some(DataType::Int64),
            nullable: true,
        },
        lit(1),
    );
    let (plan, back) = push_conjunct(working, predicate);
    assert!(back.is_some());
    assert_eq!(scan_predicates(&plan), vec![(4, 0)]);
}

#[test]
fn a_relation_read_by_two_inputs_takes_nothing() {
    let both = LogicalPlan::CrossJoin { inputs: vec![scan(1, 1), scan(1, 1)] };
    assert!(contains_table(&both, &key(1, 1)));
    assert!(!can_push(&both, &key(1, 1)));
    assert!(!contains_table(&both, &key(1, 2)));
}

#[test]
fn pushdown_neither_drops_nor_duplicates_a_conjunct() {
    let plan = filter(
        LogicalPlan::CrossJoin { inputs: vec![scan(1, 1), scan(2, 2), scan(3, 3)] },
        and_expr(
            and_expr(eq(col(1, 1, 1), lit(1)), eq(col(2, 2, 1), col(3, 3, 1))),
            and_expr(eq(col(3, 3, 1), lit(3)), eq(col(3, 3, 1), lit(4))),
        ),
    );
    let pushed = push_predicates(plan);
    let on_scans: usize = scan_predicates(&pushed).iter().map(|(_, count)| count).sum();
    let LogicalPlan::Filter { predicate, .. } = pushed else {
        panic!("the two-relation conjunct stays");
    };
    assert_eq!(on_scans + split_conjunction(predicate).len(), 4);
}
