use pintail_exec::bound_expr::{and_expr, BoundExpr, BoundExprKind, ColumnKey};
use pintail_exec::compare::{BinaryOp, DataType, Value};
use pintail_exec::join_order::{
    expression_is_volatile, find_linked_pair, infer_joins_from_filter, join_cost_of, joins_two_sides,
    reorder_cross_joins,
};
use pintail_exec::logical::{BoundColumn, BoundJoinKind, BoundTable, LogicalPlan, Scan};

fn column(table_id: u64, column_id: u32) -> BoundColumn {
    BoundColumn {
        database_id: 9,
        table_id,
        relation: table_id,
        column_id,
        data_type: DataType::UInt64,
        nullable: false,
        collation: None,
        is_enum: false,
    }
}

fn col(table_id: u64, column_id: u32) -> BoundExpr {
    BoundExpr { kind: BoundExprKind::Column(column(table_id, column_id)), data_type: Some(DataType::UInt64), nullable: false }
}

fn lit(value: i64) -> BoundExpr {
    BoundExpr { kind: BoundExprKind::Literal(Value::Int64(value)), data_type: Some(DataType::Int64), nullable: false }
}

fn binary(op: BinaryOp, left: BoundExpr, right: BoundExpr) -> BoundExpr {
    BoundExpr {
        nullable: left.nullable || right.nullable,
        data_type: Some(DataType::Boolean),
        kind: BoundExprKind::Binary { op, left: Box::new(left), right: Box::new(right) },
    }
}

fn rand() -> BoundExpr {
    BoundExpr {
        kind: BoundExprKind::Scalar { function: 0, volatile: true, args: Vec::new() },
        data_type: Some(DataType::Int64),
        nullable: false,
    }
}

/// A table with columns `id` (1) and `name` (2), keyed by `id` when asked.
fn table(table_id: u64, rows: u64, keyed: bool) -> LogicalPlan<BoundExpr> {
    LogicalPlan::Scan(Scan {
        table: BoundTable {
            database_id: 9,
            table_id,
            relation: table_id,
            row_count: Some(rows),
            columns: vec![column(table_id, 1), column(table_id, 2)],
            key_column_ids: if keyed { vec![1] } else { Vec::new() },
            input: None,
        },
        projected_column_ids: vec![1, 2],
        predicates: Vec::new(),
        limit: None,
    })
}

const EVENTS: u64 = 1;
const USERS: u64 = 2;
const SINGLETON: u64 = 3;

fn events() -> LogicalPlan<BoundExpr> {
    table(EVENTS, 100, false)
}

fn users() -> LogicalPlan<BoundExpr> {
    table(USERS, 20, false)
}

fn table_of(plan: &LogicalPlan<BoundExpr>) -> u64 {
    match plan {
        LogicalPlan::Scan(scan) => scan.table.table_id,
        _ => 0,
    }
}

#[test]
fn an_equality_across_two_inputs_becomes_the_join_condition() {
    let plan = infer_joins_from_filter(
        LogicalPlan::CrossJoin { inputs: vec![events(), users()] },
        binary(BinaryOp::Equal, col(EVENTS, 1), col(USERS, 1)),
    );
    let LogicalPlan::Join { left, right, kind, condition } = plan else {
        panic!("the product and its filter become a join");
    };
    assert_eq!(kind, BoundJoinKind::Inner);
    assert_eq!(condition, Some(binary(BinaryOp::Equal, col(EVENTS, 1), col(USERS, 1))));
    // The larger relation probes; the smaller is built.
    assert_eq!(table_of(&left), EVENTS);
    assert_eq!(table_of(&right), USERS);
}

#[test]
fn a_product_nothing_links_stays_a_product_under_its_filter() {
    let plan = infer_joins_from_filter(
        LogicalPlan::CrossJoin { inputs: vec![events(), users()] },
        binary(BinaryOp::Greater, col(EVENTS, 1), lit(5)),
    );
    let LogicalPlan::Filter { input, .. } = plan else {
        panic!("the filter stays");
    };
    assert!(matches!(*input, LogicalPlan::CrossJoin { .. }));
}

#[test]
fn an_inequality_across_two_inputs_links_nothing() {
    let less = binary(BinaryOp::Less, col(EVENTS, 1), col(USERS, 1));
    assert!(!joins_two_sides(&less, &events(), &users()));
    let plan = infer_joins_from_filter(LogicalPlan::CrossJoin { inputs: vec![events(), users()] }, less);
    let LogicalPlan::Filter { input, .. } = plan else {
        panic!("the inequality stays in the filter");
    };
    assert!(matches!(*input, LogicalPlan::CrossJoin { .. }));
}

#[test]
fn a_volatile_operand_links_nothing() {
    let shifted = binary(BinaryOp::Add, col(USERS, 1), rand());
    assert!(expression_is_volatile(&shifted));
    assert!(!expression_is_volatile(&col(USERS, 1)));
    let equality = binary(BinaryOp::Equal, col(EVENTS, 1), shifted);
    assert!(!joins_two_sides(&equality, &events(), &users()));
}

#[test]
fn an_unlinked_input_does_not_keep_the_others_apart() {
    let plan = infer_joins_from_filter(
        LogicalPlan::CrossJoin { inputs: vec![table(SINGLETON, 1, false), events(), users()] },
        binary(BinaryOp::Equal, col(EVENTS, 1), col(USERS, 1)),
    );
    let LogicalPlan::CrossJoin { inputs } = plan else {
        panic!("the singleton stays crossed with the join");
    };
    assert_eq!(inputs.len(), 2);
    assert_eq!(table_of(&inputs[0]), SINGLETON);
    assert!(matches!(inputs[1], LogicalPlan::Join { .. }));
}

#[test]
fn merges_the_cheapest_linked_pair_first() {
    // 1 and 2 link on a key of 2, 2 and 3 on nothing keyed: joining 1 with
    // 2 keeps 1's rows, which is the least work.
    let inputs = vec![table(1, 1000, false), table(2, 50, true), table(3, 400, false)];
    let conjuncts = vec![
        binary(BinaryOp::Equal, col(2, 2), col(3, 2)),
        binary(BinaryOp::Equal, col(1, 1), col(2, 1)),
    ];
    assert_eq!(find_linked_pair(&inputs, &conjuncts), Some((0, 1)));
    assert_eq!(join_cost_of(&inputs[1]).rows, 50);
    assert_eq!(
        join_cost_of(&inputs[1]).keys,
        vec![vec![ColumnKey { database_id: 9, table_id: 2, relation: 2, column_id: 1 }]]
    );
}

#[test]
fn a_key_join_keeps_the_other_side_s_rows() {
    let join = LogicalPlan::Join {
        left: Box::new(table(1, 1000, false)),
        right: Box::new(table(2, 50, true)),
        kind: BoundJoinKind::Inner,
        condition: Some(binary(BinaryOp::Equal, col(1, 1), col(2, 1))),
    };
    assert_eq!(join_cost_of(&join).rows, 1000);
    let unkeyed = LogicalPlan::Join {
        left: Box::new(table(1, 1000, false)),
        right: Box::new(table(3, 40, false)),
        kind: BoundJoinKind::Inner,
        condition: Some(binary(BinaryOp::Equal, col(1, 1), col(3, 1))),
    };
    assert_eq!(join_cost_of(&unkeyed).rows, 40_000);
}

#[test]
fn conjuncts_no_join_takes_stay_in_the_filter() {
    let predicate = and_expr(
        binary(BinaryOp::Equal, col(EVENTS, 1), col(USERS, 1)),
        binary(BinaryOp::Equal, col(EVENTS, 2), lit(3)),
    );
    let plan = infer_joins_from_filter(LogicalPlan::CrossJoin { inputs: vec![events(), users()] }, predicate);
    let LogicalPlan::Filter { input, predicate } = plan else {
        panic!("the single-table conjunct stays");
    };
    assert_eq!(predicate, binary(BinaryOp::Equal, col(EVENTS, 2), lit(3)));
    assert!(matches!(*input, LogicalPlan::Join { .. }));
}

#[test]
fn reordering_sorts_a_product_smallest_first_and_joins_under_filters() {
    let product = reorder_cross_joins(LogicalPlan::CrossJoin { inputs: vec![events(), users()] });
    let LogicalPlan::CrossJoin { inputs } = product else {
        panic!("a product stays a product");
    };
    assert_eq!(inputs.iter().map(table_of).collect::<Vec<_>>(), vec![USERS, EVENTS]);

    let filtered = reorder_cross_joins(LogicalPlan::Filter {
        input: Box::new(LogicalPlan::CrossJoin { inputs: vec![events(), users()] }),
        predicate: binary(BinaryOp::Equal, col(USERS, 1), col(EVENTS, 1)),
    });
    let LogicalPlan::Join { left, right, .. } = filtered else {
        panic!("the filtered product becomes a join");
    };
    assert_eq!(table_of(&left), EVENTS);
    assert_eq!(table_of(&right), USERS);
}
