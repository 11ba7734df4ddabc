use pintail_exec::compare::{BinaryOp, IntegerValue};
use pintail_exec::decimal::ExecError;
use pintail_exec::fixed_point::{
    cast_decimal, compare_decimal_values, decimal_add_sub_mul, decimal_bound,
    decimal_integer_bound, decimal_modulo, decimal_units_of, divide_decimal,
    div_round_half_away_signed, DecimalUnits,
};
use std::cmp::Ordering;

fn d(units: i128, scale: u8) -> DecimalUnits {
    DecimalUnits { units, scale }
}

#[test]
fn sums_and_differences_align_to_the_target_scale() {
    assert_eq!(decimal_add_sub_mul(BinaryOp::Add, d(125, 2), d(5, 1), 2), Ok("1.75".to_string()));
    assert_eq!(
        decimal_add_sub_mul(BinaryOp::Subtract, d(125, 2), d(2, 0), 2),
        Ok("-0.75".to_string())
    );
    assert_eq!(
        decimal_add_sub_mul(BinaryOp::Add, d(125, 2), d(1, 0), 1),
        Err(ExecError::NumericOverflow)
    );
    assert_eq!(
        decimal_add_sub_mul(BinaryOp::Add, d(i128::MAX, 0), d(1, 0), 0),
        Err(ExecError::NumericOverflow)
    );
}

#[test]
fn products_round_half_away_from_zero_past_the_target() {
    assert_eq!(
        decimal_add_sub_mul(BinaryOp::Multiply, d(125, 2), d(5, 1), 3),
        Ok("0.625".to_string())
    );
    assert_eq!(
        decimal_add_sub_mul(BinaryOp::Multiply, d(125, 2), d(5, 1), 2),
        Ok("0.63".to_string())
    );
    assert_eq!(
        decimal_add_sub_mul(BinaryOp::Multiply, d(-125, 2), d(5, 1), 2),
        Ok("-0.63".to_string())
    );
    assert_eq!(
        decimal_add_sub_mul(BinaryOp::Multiply, d(3, 0), d(4, 0), 2),
        Ok("12.00".to_string())
    );
}

#[test]
fn quotients_round_at_the_target_and_zero_divides_to_null() {
    assert_eq!(divide_decimal(d(1, 0), d(3, 0), 4), Ok(Some("0.3333".to_string())));
    assert_eq!(divide_decimal(d(2, 0), d(3, 0), 4), Ok(Some("0.6667".to_string())));
    assert_eq!(divide_decimal(d(-2, 0), d(3, 0), 4), Ok(Some("-0.6667".to_string())));
    assert_eq!(divide_decimal(d(15, 1), d(-5, 1), 2), Ok(Some("-3.00".to_string())));
    assert_eq!(divide_decimal(d(1, 0), d(0, 2), 4), Ok(None));
    assert_eq!(divide_decimal(d(1, 5), d(1, 0), 2), Err(ExecError::NumericOverflow));
}

#[test]
fn remainders_keep_the_dividend_sign() {
    assert_eq!(decimal_modulo(d(75, 1), d(2, 0), 1), Ok(Some("1.5".to_string())));
    assert_eq!(decimal_modulo(d(-75, 1), d(2, 0), 1), Ok(Some("-1.5".to_string())));
    assert_eq!(decimal_modulo(d(75, 1), d(0, 0), 1), Ok(None));
    assert_eq!(decimal_modulo(d(75, 2), d(2, 0), 1), Err(ExecError::NumericOverflow));
}

#[test]
fn decimal_comparison_reads_values_not_scales() {
    assert_eq!(compare_decimal_values(d(150, 2), d(15, 1)), Ordering::Equal);
    assert_eq!(compare_decimal_values(d(1, 0), d(999, 3)), Ordering::Greater);
    assert_eq!(compare_decimal_values(d(-1, 0), d(-999, 3)), Ordering::Less);
    assert_eq!(compare_decimal_values(d(i128::MAX, 0), d(1, 30)), Ordering::Greater);
    assert_eq!(compare_decimal_values(d(1, 30), d(i128::MIN, 0)), Ordering::Greater);
    assert_eq!(compare_decimal_values(d(0, 0), d(5, 38)), Ordering::Less);
}

#[test]
fn signed_rounding_division_covers_every_sign() {
    assert_eq!(div_round_half_away_signed(7, 2), Some(4));
    assert_eq!(div_round_half_away_signed(-7, 2), Some(-4));
    assert_eq!(div_round_half_away_signed(7, -2), Some(-4));
    assert_eq!(div_round_half_away_signed(-7, -2), Some(4));
    assert_eq!(div_round_half_away_signed(5, 3), Some(2));
    assert_eq!(div_round_half_away_signed(4, 3), Some(1));
    assert_eq!(div_round_half_away_signed(i128::MIN, -1), None);
    assert_eq!(div_round_half_away_signed(i128::MIN, 1), Some(i128::MIN));
    assert_eq!(div_round_half_away_signed(i128::MIN, i128::MIN), Some(1));
}

#[test]
fn integers_are_decimal_units_at_scale_zero() {
    assert_eq!(decimal_units_of(&IntegerValue::Int64(-3)), Some(d(-3, 0)));
    assert_eq!(decimal_units_of(&IntegerValue::Boolean(true)), Some(d(1, 0)));
    assert_eq!(decimal_units_of(&IntegerValue::UInt64(u64::MAX)), Some(d(u64::MAX as i128, 0)));
    assert_eq!(decimal_units_of(&IntegerValue::Null), None);
}

#[test]
fn ceil_and_floor_move_a_fraction_away_from_zero_by_direction() {
    assert_eq!(decimal_bound(150, 2, true), Some(2));
    assert_eq!(decimal_bound(150, 2, false), Some(1));
    assert_eq!(decimal_bound(-150, 2, true), Some(-1));
    assert_eq!(decimal_bound(-150, 2, false), Some(-2));
    assert_eq!(decimal_bound(200, 2, true), Some(2));
    assert_eq!(decimal_bound(i128::MAX, 0, false), None);
    assert_eq!(decimal_integer_bound("1.50", true), Ok(2));
    assert_eq!(decimal_integer_bound("1.50", false), Ok(1));
    assert_eq!(decimal_integer_bound("-0.5", true), Ok(0));
    assert_eq!(decimal_integer_bound("-0.5", false), Ok(-1));
    assert_eq!(decimal_integer_bound("7.000", true), Ok(7));
    assert_eq!(decimal_integer_bound("42", false), Ok(42));
    assert_eq!(
        decimal_integer_bound("9223372036854775807.5", true),
        Err(ExecError::NumericOverflow)
    );
    assert_eq!(decimal_integer_bound("x.5", true), Err(ExecError::NumericOverflow));
}

#[test]
fn integers_cast_to_decimal_at_the_declared_scale() {
    assert_eq!(cast_decimal(&IntegerValue::Int64(-12), 2), Ok(Some("-12.00".to_string())));
    assert_eq!(cast_decimal(&IntegerValue::Boolean(true), 0), Ok(Some("1".to_string())));
    assert_eq!(cast_decimal(&IntegerValue::Null, 2), Ok(None));
    assert_eq!(cast_decimal(&IntegerValue::UInt64(u64::MAX), 38), Err(ExecError::NumericOverflow));
}
