use pintail_exec::arithmetic::UnaryOp;
use pintail_exec::compare::{BinaryOp, DataType, IntegerValue, Value};
use pintail_exec::vector_kernel::{kernel, VectorExpr};

fn column(i: usize) -> Box<VectorExpr> {
    Box::new(VectorExpr::Column(i))
}

#[test]
fn computes_integer_arithmetic_column_by_column() {
    let columns = vec![
        vec![IntegerValue::Int64(1), IntegerValue::Null, IntegerValue::Int64(-4)],
        vec![IntegerValue::Int64(10), IntegerValue::Int64(2), IntegerValue::Int64(4)],
    ];
    let sum = VectorExpr::Binary { op: BinaryOp::Add, left: column(0), right: column(1), data_type: Some(DataType::Int64) };
    assert_eq!(
        kernel(&sum, &columns, 3),
        Some(vec![IntegerValue::Int64(11), IntegerValue::Null, IntegerValue::Int64(0)])
    );
    let less = VectorExpr::Binary { op: BinaryOp::Less, left: column(0), right: column(1), data_type: Some(DataType::Boolean) };
    assert_eq!(
        kernel(&less, &columns, 3),
        Some(vec![IntegerValue::Boolean(true), IntegerValue::Null, IntegerValue::Boolean(true)])
    );
}

#[test]
fn is_null_and_not_never_decline() {
    let columns = vec![vec![IntegerValue::Null, IntegerValue::Int64(0)]];
    let is_null = VectorExpr::IsNull { expr: column(0), negated: false };
    assert_eq!(kernel(&is_null, &columns, 2), Some(vec![IntegerValue::Boolean(true), IntegerValue::Boolean(false)]));
    let not = VectorExpr::Unary { op: UnaryOp::Not, expr: column(0), data_type: Some(DataType::Boolean) };
    assert_eq!(kernel(&not, &columns, 2), Some(vec![IntegerValue::Null, IntegerValue::Boolean(true)]));
}

#[test]
fn a_row_that_overflows_declines_the_column() {
    let columns = vec![vec![IntegerValue::Int64(1), IntegerValue::Int64(i64::MAX)]];
    let plus_one = VectorExpr::Binary {
        op: BinaryOp::Add,
        left: column(0),
        right: Box::new(VectorExpr::Literal(Value::Int64(1))),
        data_type: Some(DataType::Int64),
    };
    assert_eq!(kernel(&plus_one, &columns, 2), None);
    let text = VectorExpr::Literal(Value::Utf8(b"x".to_vec()));
    assert_eq!(kernel(&text, &columns, 2), None);
    assert_eq!(kernel(&text, &columns, 0), Some(Vec::new()));
}
