use pintail_exec::arithmetic::{
    cast_numeric, evaluate_arithmetic, evaluate_unary, mysql_i64, mysql_u64, ArithmeticValue,
    NumericType, UnaryOp,
};
use pintail_exec::compare::{BinaryOp, IntegerValue};
use pintail_exec::decimal::ExecError;

use IntegerValue::{Boolean, Int64, Null, UInt64};

#[test]
fn integer_conversions_reject_what_does_not_fit() {
    assert_eq!(mysql_u64(&Int64(-1)), Err(ExecError::NumericOverflow));
    assert_eq!(mysql_u64(&Boolean(true)), Ok(1));
    assert_eq!(mysql_i64(&UInt64(u64::MAX)), Err(ExecError::NumericOverflow));
    assert_eq!(mysql_i64(&UInt64(7)), Ok(7));
    assert_eq!(mysql_i64(&Null), Err(ExecError::InvalidExpressionType));
}

#[test]
fn bigint_arithmetic_is_checked() {
    let int = Some(NumericType::Int64);
    assert_eq!(evaluate_arithmetic(BinaryOp::Add, &Int64(2), &UInt64(3), int), Ok(ArithmeticValue::Int64(5)));
    assert_eq!(
        evaluate_arithmetic(BinaryOp::Add, &Int64(i64::MAX), &Int64(1), int),
        Err(ExecError::NumericOverflow)
    );
    assert_eq!(
        evaluate_arithmetic(BinaryOp::IntegerDivide, &Int64(-7), &Int64(2), int),
        Ok(ArithmeticValue::Int64(-3))
    );
    assert_eq!(
        evaluate_arithmetic(BinaryOp::Modulo, &Int64(-7), &Int64(2), int),
        Ok(ArithmeticValue::Int64(-1))
    );
    assert_eq!(
        evaluate_arithmetic(BinaryOp::Modulo, &Int64(7), &Int64(-2), int),
        Ok(ArithmeticValue::Int64(1))
    );
    assert_eq!(
        evaluate_arithmetic(BinaryOp::IntegerDivide, &Int64(i64::MIN), &Int64(-1), int),
        Err(ExecError::NumericOverflow)
    );
    assert_eq!(
        evaluate_arithmetic(BinaryOp::Modulo, &Int64(i64::MIN), &Int64(-1), int),
        Err(ExecError::NumericOverflow)
    );
    assert_eq!(
        evaluate_arithmetic(BinaryOp::IntegerDivide, &Int64(7), &Int64(0), int),
        Ok(ArithmeticValue::Null)
    );
    assert_eq!(
        evaluate_arithmetic(BinaryOp::Divide, &Int64(7), &Int64(2), int),
        Err(ExecError::NumericOverflow)
    );
    assert_eq!(evaluate_arithmetic(BinaryOp::Add, &Null, &Int64(1), int), Ok(ArithmeticValue::Null));
}

#[test]
fn unsigned_arithmetic_never_goes_negative() {
    let unsigned = Some(NumericType::UInt64);
    assert_eq!(
        evaluate_arithmetic(BinaryOp::Subtract, &UInt64(1), &UInt64(2), unsigned),
        Err(ExecError::NumericOverflow)
    );
    assert_eq!(
        evaluate_arithmetic(BinaryOp::Multiply, &UInt64(1 << 32), &UInt64(1 << 31), unsigned),
        Ok(ArithmeticValue::UInt64(1 << 63))
    );
    assert_eq!(
        evaluate_arithmetic(BinaryOp::Add, &Int64(-1), &UInt64(2), unsigned),
        Err(ExecError::NumericOverflow)
    );
    assert_eq!(
        evaluate_arithmetic(BinaryOp::Modulo, &UInt64(9), &UInt64(0), unsigned),
        Ok(ArithmeticValue::Null)
    );
}

#[test]
fn decimal_result_types_compute_on_units() {
    let decimal = Some(NumericType::Decimal { scale: 4 });
    assert_eq!(
        evaluate_arithmetic(BinaryOp::Divide, &Int64(1), &Int64(3), decimal),
        Ok(ArithmeticValue::Decimal("0.3333".to_string()))
    );
    assert_eq!(
        evaluate_arithmetic(BinaryOp::Divide, &Int64(1), &Int64(0), decimal),
        Ok(ArithmeticValue::Null)
    );
    assert_eq!(
        evaluate_arithmetic(BinaryOp::Add, &Int64(1), &Boolean(true), decimal),
        Ok(ArithmeticValue::Decimal("2.0000".to_string()))
    );
    assert_eq!(
        evaluate_arithmetic(BinaryOp::IntegerDivide, &Int64(1), &Int64(3), decimal),
        Err(ExecError::InvalidExpressionType)
    );
    assert_eq!(
        evaluate_arithmetic(BinaryOp::Add, &Int64(1), &Int64(3), Some(NumericType::Utf8)),
        Err(ExecError::InvalidExpressionType)
    );
    assert_eq!(evaluate_arithmetic(BinaryOp::Add, &Int64(1), &Int64(3), None), Ok(ArithmeticValue::Null));
}

#[test]
fn unary_operators_follow_the_result_type() {
    assert_eq!(evaluate_unary(UnaryOp::Not, &Int64(0), None), Ok(ArithmeticValue::Boolean(true)));
    assert_eq!(evaluate_unary(UnaryOp::Not, &Null, None), Ok(ArithmeticValue::Null));
    assert_eq!(
        evaluate_unary(UnaryOp::Minus, &Int64(5), Some(NumericType::Int64)),
        Ok(ArithmeticValue::Int64(-5))
    );
    assert_eq!(
        evaluate_unary(UnaryOp::Minus, &Int64(i64::MIN), Some(NumericType::Int64)),
        Err(ExecError::NumericOverflow)
    );
    assert_eq!(
        evaluate_unary(UnaryOp::Minus, &UInt64(0), Some(NumericType::UInt64)),
        Err(ExecError::NumericOverflow)
    );
    assert_eq!(
        evaluate_unary(UnaryOp::Minus, &Int64(-12), Some(NumericType::Decimal { scale: 0 })),
        Ok(ArithmeticValue::Decimal("12".to_string()))
    );
    assert_eq!(
        evaluate_unary(UnaryOp::Minus, &Int64(12), Some(NumericType::Decimal { scale: 0 })),
        Ok(ArithmeticValue::Decimal("-12".to_string()))
    );
    assert_eq!(
        evaluate_unary(UnaryOp::Plus, &Int64(-1), Some(NumericType::UInt64)),
        Err(ExecError::NumericOverflow)
    );
    assert_eq!(
        evaluate_unary(UnaryOp::Plus, &Boolean(true), Some(NumericType::Int64)),
        Ok(ArithmeticValue::Int64(1))
    );
}

#[test]
fn numeric_casts_follow_the_storage_type() {
    assert_eq!(cast_numeric(&UInt64(7), Some(NumericType::Int64)), Ok(ArithmeticValue::Int64(7)));
    assert_eq!(
        cast_numeric(&Int64(-7), Some(NumericType::UInt64)),
        Err(ExecError::NumericOverflow)
    );
    assert_eq!(cast_numeric(&Int64(-7), None), Ok(ArithmeticValue::Null));
    assert_eq!(
        cast_numeric(&Int64(-7), Some(NumericType::Decimal { scale: 2 })),
        Err(ExecError::InvalidExpressionType)
    );
}
