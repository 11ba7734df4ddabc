use pintail_exec::bound_expr::{BoundExpr, BoundExprKind};
use pintail_exec::compare::{BinaryOp, DataType, Value};
use pintail_exec::join_constants::propagate_join_constants;
use pintail_exec::logical::{BoundColumn, BoundJoinKind, BoundTable, LogicalPlan, Scan};

fn column(table_id: u64, relation: u64, column_id: u32) -> BoundColumn {
    BoundColumn {
        database_id: 9,
        table_id,
        relation,
        column_id,
        data_type: DataType::UInt64,
        nullable: false,
        collation: None,
        is_enum: false,
    }
}

fn col(c: BoundColumn) -> BoundExpr {
    BoundExpr { kind: BoundExprKind::Column(c), data_type: Some(c.data_type), nullable: c.nullable }
}

fn lit(value: u64) -> BoundExpr {
    BoundExpr { kind: BoundExprKind::Literal(Value::UInt64(value)), data_type: Some(DataType::UInt64), nullable: false }
}

fn eq(left: BoundExpr, right: BoundExpr) -> BoundExpr {
    BoundExpr {
        nullable: left.nullable || right.nullable,
        data_type: Some(DataType::Boolean),
        kind: BoundExprKind::Binary { op: BinaryOp::Equal, left: Box::new(left), right: Box::new(right) },
    }
}

fn scan(table_id: u64, relation: u64, predicates: Vec<BoundExpr>) -> LogicalPlan<BoundExpr> {
    LogicalPlan::Scan(Scan {
        table: BoundTable {
            database_id: 9,
            table_id,
            relation,
            row_count: Some(10),
            columns: vec![column(table_id, relation, 1)],
            key_column_ids: Vec::new(),
            input: None,
        },
        projected_column_ids: vec![1],
        predicates,
        limit: None,
    })
}

fn join(left: LogicalPlan<BoundExpr>, right: LogicalPlan<BoundExpr>, kind: BoundJoinKind) -> LogicalPlan<BoundExpr> {
    LogicalPlan::Join {
        left: Box::new(left),
        right: Box::new(right),
        kind,
        condition: Some(eq(col(column(2, 2, 1)), col(column(1, 1, 1)))),
    }
}

fn counts(plan: &LogicalPlan<BoundExpr>) -> (usize, usize) {
    let LogicalPlan::Join { left, right, .. } = plan else {
        panic!("a join");
    };
    let count = |side: &LogicalPlan<BoundExpr>| match side {
        LogicalPlan::Scan(scan) => scan.predicates.len(),
        _ => usize::MAX,
    };
    (count(left), count(right))
}

#[test]
fn an_inner_join_carries_a_constant_either_way() {
    let plan = join(scan(1, 1, vec![eq(col(column(1, 1, 1)), lit(7))]), scan(2, 2, Vec::new()), BoundJoinKind::Inner);
    let done = propagate_join_constants(plan);
    assert_eq!(counts(&done), (1, 1));
    let LogicalPlan::Join { right, .. } = &done else {
        panic!("a join");
    };
    let LogicalPlan::Scan(users) = &**right else {
        panic!("a scan");
    };
    assert_eq!(users.predicates[0], eq(col(column(2, 2, 1)), lit(7)));

    let plan = join(scan(1, 1, Vec::new()), scan(2, 2, vec![eq(lit(7), col(column(2, 2, 1)))]), BoundJoinKind::Inner);
    assert_eq!(counts(&propagate_join_constants(plan)), (1, 1));
}

#[test]
fn a_left_join_carries_a_constant_only_to_its_right() {
    let plan = join(scan(1, 1, vec![eq(col(column(1, 1, 1)), lit(7))]), scan(2, 2, Vec::new()), BoundJoinKind::Left);
    assert_eq!(counts(&propagate_join_constants(plan)), (1, 1));
    let plan = join(scan(1, 1, Vec::new()), scan(2, 2, vec![eq(col(column(2, 2, 1)), lit(7))]), BoundJoinKind::Left);
    assert_eq!(counts(&propagate_join_constants(plan)), (0, 1));
}

#[test]
fn a_semi_join_takes_no_constant() {
    let plan = join(scan(1, 1, vec![eq(col(column(1, 1, 1)), lit(7))]), scan(2, 2, Vec::new()), BoundJoinKind::Semi);
    assert_eq!(counts(&propagate_join_constants(plan)), (1, 0));
}

#[test]
fn a_constant_the_scan_holds_is_not_added_again() {
    let plan = join(
        scan(1, 1, vec![eq(col(column(1, 1, 1)), lit(7))]),
        scan(2, 2, vec![eq(col(column(2, 2, 1)), lit(7))]),
        BoundJoinKind::Inner,
    );
    let once = propagate_join_constants(plan);
    assert_eq!(counts(&once), (1, 1));
    assert_eq!(counts(&propagate_join_constants(once)), (1, 1));
}

#[test]
fn a_null_literal_or_differently_typed_column_carries_nothing() {
    let null = BoundExpr { kind: BoundExprKind::Literal(Value::Null), data_type: None, nullable: true };
    let plan = join(scan(1, 1, vec![eq(col(column(1, 1, 1)), null)]), scan(2, 2, Vec::new()), BoundJoinKind::Inner);
    assert_eq!(counts(&propagate_join_constants(plan)), (1, 0));

    let mut text = column(2, 2, 1);
    text.data_type = DataType::Utf8;
    let plan = LogicalPlan::Join {
        left: Box::new(scan(1, 1, vec![eq(col(column(1, 1, 1)), lit(7))])),
        right: Box::new(scan(2, 2, Vec::new())),
        kind: BoundJoinKind::Inner,
        condition: Some(eq(col(text), col(column(1, 1, 1)))),
    };
    assert_eq!(counts(&propagate_join_constants(plan)), (1, 0));
}

#[test]
fn a_self_join_carries_the_constant_to_the_other_alias() {
    let plan = LogicalPlan::Join {
        left: Box::new(scan(1, 10, vec![eq(col(column(1, 10, 1)), lit(7))])),
        right: Box::new(scan(1, 11, Vec::new())),
        kind: BoundJoinKind::Inner,
        condition: Some(eq(col(column(1, 11, 1)), col(column(1, 10, 1)))),
    };
    assert_eq!(counts(&propagate_join_constants(plan)), (1, 1));
}
