use pintail_exec::arithmetic::UnaryOp;
use pintail_exec::bound_expr::{BoundExpr, BoundExprKind};
use pintail_exec::compare::{BinaryOp, DataType, Value};
use pintail_exec::compare::IntegerValue;
use pintail_exec::constant_fold::{constant_value, fold_constants, fold_expr};
use pintail_exec::logical::{BoundColumn, BoundLimit, BoundTable, LogicalPlan, Projection, Scan};
use pintail_exec::optimizer::Optimizer;

fn column(table_id: u64, column_id: u32) -> BoundColumn {
    BoundColumn {
        database_id: 1,
        table_id,
        relation: table_id,
        column_id,
        data_type: DataType::Int64,
        nullable: true,
        collation: None,
        is_enum: false,
    }
}

fn col(table_id: u64, column_id: u32, data_type: DataType) -> BoundExpr {
    BoundExpr { kind: BoundExprKind::Column(column(table_id, column_id)), data_type: Some(data_type), nullable: true }
}

fn lit(value: Value, data_type: Option<DataType>) -> BoundExpr {
    let nullable = matches!(value, Value::Null);
    BoundExpr { kind: BoundExprKind::Literal(value), data_type, nullable }
}

fn int_lit(x: i64) -> BoundExpr {
    lit(Value::Int64(x), Some(DataType::Int64))
}

fn binary(op: BinaryOp, left: BoundExpr, right: BoundExpr, data_type: DataType) -> BoundExpr {
    BoundExpr {
        kind: BoundExprKind::Binary { op, left: Box::new(left), right: Box::new(right) },
        data_type: Some(data_type),
        nullable: true,
    }
}

fn scan(table_id: u64, rows: Option<u64>) -> LogicalPlan<BoundExpr> {
    LogicalPlan::Scan(Scan {
        table: BoundTable {
            database_id: 1,
            table_id,
            relation: table_id,
            row_count: rows,
            columns: vec![column(table_id, 1)],
            key_column_ids: Vec::new(),
            input: None,
        },
        projected_column_ids: vec![1],
        predicates: Vec::new(),
        limit: None,
    })
}

fn literal_value(e: &BoundExpr) -> Option<&Value> {
    match &e.kind {
        BoundExprKind::Literal(v) => Some(v),
        _ => None,
    }
}

#[test]
fn folds_integer_arithmetic_to_a_literal() {
    let e = fold_expr(binary(BinaryOp::Add, int_lit(1), binary(BinaryOp::Multiply, int_lit(2), int_lit(3), DataType::Int64), DataType::Int64));
    assert_eq!(literal_value(&e), Some(&Value::Int64(7)));
    assert_eq!(e.data_type, Some(DataType::Int64));
    assert!(!e.nullable);
}

#[test]
fn folds_comparisons_and_is_null() {
    let e = fold_expr(binary(BinaryOp::Less, int_lit(2), int_lit(10), DataType::Boolean));
    assert_eq!(literal_value(&e), Some(&Value::Boolean(true)));
    let null_cmp = fold_expr(binary(BinaryOp::Equal, lit(Value::Null, None), lit(Value::Null, None), DataType::Boolean));
    assert_eq!(literal_value(&null_cmp), Some(&Value::Null));
    // NULL = NULL keeps its declared boolean type and is nullable.
    assert_eq!(null_cmp.data_type, Some(DataType::Boolean));
    assert!(null_cmp.nullable);
    let is_null = BoundExpr {
        kind: BoundExprKind::IsNull { expr: Box::new(lit(Value::Utf8(b"zz".to_vec()), Some(DataType::Utf8))), negated: false },
        data_type: Some(DataType::Boolean),
        nullable: false,
    };
    assert_eq!(literal_value(&fold_expr(is_null)), Some(&Value::Boolean(false)));
}

#[test]
fn folds_unary_minus_and_not() {
    let minus = BoundExpr {
        kind: BoundExprKind::Unary { op: UnaryOp::Minus, expr: Box::new(int_lit(5)) },
        data_type: Some(DataType::Int64),
        nullable: false,
    };
    assert_eq!(literal_value(&fold_expr(minus)), Some(&Value::Int64(-5)));
    let not = BoundExpr {
        kind: BoundExprKind::Unary { op: UnaryOp::Not, expr: Box::new(int_lit(0)) },
        data_type: Some(DataType::Boolean),
        nullable: false,
    };
    assert_eq!(literal_value(&fold_expr(not)), Some(&Value::Boolean(true)));
}

#[test]
fn an_absorbing_constant_decides_or_and_and_without_the_other_side() {
    let x = binary(BinaryOp::Subtract, col(1, 1, DataType::UInt64), int_lit(1), DataType::UInt64);
    let or_true = fold_expr(binary(BinaryOp::Or, x, lit(Value::Boolean(true), Some(DataType::Boolean)), DataType::Boolean));
    assert_eq!(literal_value(&or_true), Some(&Value::Boolean(true)));
    let y = binary(BinaryOp::Greater, col(1, 1, DataType::Int64), int_lit(0), DataType::Boolean);
    let and_false = fold_expr(binary(BinaryOp::And, lit(Value::Boolean(false), Some(DataType::Boolean)), y, DataType::Boolean));
    assert_eq!(literal_value(&and_false), Some(&Value::Boolean(false)));
}

#[test]
fn a_neutral_constant_leaves_the_boolean_side() {
    let y = binary(BinaryOp::Greater, col(1, 1, DataType::Int64), int_lit(0), DataType::Boolean);
    let kept = fold_expr(binary(BinaryOp::And, y, lit(Value::Boolean(true), Some(DataType::Boolean)), DataType::Boolean));
    assert!(matches!(kept.kind, BoundExprKind::Binary { op: BinaryOp::Greater, .. }));
    // A NULL literal is no definite truth: NULL OR x is not pruned.
    let z = binary(BinaryOp::Greater, col(1, 1, DataType::Int64), int_lit(0), DataType::Boolean);
    let or_null = fold_expr(binary(BinaryOp::Or, lit(Value::Null, None), z, DataType::Boolean));
    assert!(matches!(or_null.kind, BoundExprKind::Binary { op: BinaryOp::Or, .. }));
}

#[test]
fn an_overflowing_constant_is_left_for_execution() {
    let e = fold_expr(binary(BinaryOp::Add, int_lit(i64::MAX), int_lit(1), DataType::Int64));
    assert!(matches!(e.kind, BoundExprKind::Binary { op: BinaryOp::Add, .. }));
    let zero_div = fold_expr(binary(BinaryOp::IntegerDivide, int_lit(7), int_lit(0), DataType::Int64));
    assert_eq!(literal_value(&zero_div), Some(&Value::Null));
}

#[test]
fn decimal_arithmetic_stays_a_tree() {
    let e = fold_expr(binary(BinaryOp::Add, int_lit(1), int_lit(2), DataType::Decimal { precision: 10, scale: 2 }));
    assert!(matches!(e.kind, BoundExprKind::Binary { op: BinaryOp::Add, .. }));
}

#[test]
fn a_false_filter_becomes_limit_zero_and_a_true_one_disappears() {
    let never = LogicalPlan::Filter {
        input: Box::new(scan(1, Some(10))),
        predicate: BoundExpr {
            kind: BoundExprKind::IsNull { expr: Box::new(lit(Value::Utf8(b"zz".to_vec()), Some(DataType::Utf8))), negated: false },
            data_type: Some(DataType::Boolean),
            nullable: false,
        },
    };
    match fold_constants(never) {
        LogicalPlan::Limit { input, limit } => {
            assert_eq!(limit, BoundLimit { offset: 0, count: 0 });
            assert!(matches!(*input, LogicalPlan::Scan(_)));
        },
        _ => panic!("expected LIMIT 0"),
    }
    let always = LogicalPlan::Filter {
        input: Box::new(scan(1, Some(10))),
        predicate: binary(BinaryOp::Equal, int_lit(1), int_lit(1), DataType::Boolean),
    };
    assert!(matches!(fold_constants(always), LogicalPlan::Scan(_)));
    let null_filter = LogicalPlan::Filter { input: Box::new(scan(1, Some(10))), predicate: lit(Value::Null, None) };
    assert!(matches!(fold_constants(null_filter), LogicalPlan::Limit { .. }));
}

#[test]
fn projections_keep_their_names_when_folded() {
    let plan = LogicalPlan::Project {
        input: Box::new(LogicalPlan::OneRow),
        expressions: vec![Projection { name: "two".to_owned(), expr: binary(BinaryOp::Add, int_lit(1), int_lit(1), DataType::Int64) }],
    };
    match fold_constants(plan) {
        LogicalPlan::Project { expressions, .. } => {
            assert_eq!(expressions[0].name, "two");
            assert_eq!(literal_value(&expressions[0].expr), Some(&Value::Int64(2)));
        },
        _ => panic!("expected a projection"),
    }
}

#[test]
fn optimize_folds_then_pushes_the_remaining_filter_to_its_scan() {
    let predicate = binary(
        BinaryOp::And,
        binary(BinaryOp::Greater, col(1, 1, DataType::Int64), binary(BinaryOp::Add, int_lit(1), int_lit(2), DataType::Int64), DataType::Boolean),
        lit(Value::Boolean(true), Some(DataType::Boolean)),
        DataType::Boolean,
    );
    let plan = LogicalPlan::Filter { input: Box::new(scan(1, Some(100))), predicate };
    match Optimizer::optimize(plan) {
        LogicalPlan::Scan(scan) => {
            assert_eq!(scan.predicates.len(), 1);
            match &scan.predicates[0].kind {
                BoundExprKind::Binary { op: BinaryOp::Greater, right, .. } => {
                    assert_eq!(literal_value(right), Some(&Value::Int64(3)));
                },
                _ => panic!("expected the folded comparison"),
            }
        },
        _ => panic!("expected the filter on the scan"),
    }
}

#[test]
fn folding_keeps_the_value_of_a_constant_expression() {
    let build = || binary(
        BinaryOp::Or,
        binary(BinaryOp::Less, int_lit(3), int_lit(2), DataType::Boolean),
        binary(BinaryOp::Equal, binary(BinaryOp::Subtract, int_lit(10), int_lit(4), DataType::Int64), int_lit(6), DataType::Boolean),
        DataType::Boolean,
    );
    assert_eq!(constant_value(&build()), Some(IntegerValue::Boolean(true)));
    let folded = fold_expr(build());
    assert_eq!(constant_value(&folded), Some(IntegerValue::Boolean(true)));
    assert_eq!(literal_value(&folded), Some(&Value::Boolean(true)));
}
