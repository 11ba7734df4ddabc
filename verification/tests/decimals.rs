use pintail_exec::decimal::{decimal_units_from_i128, format_decimal_scaled, DecimalRational, ExecError};
use pintail_exec::decimal_chain::{materialize_decimal_chain, ChainOp, DecimalChain, DecimalChainValue};

fn rational(numerator: i128, denominator: i128) -> DecimalRational {
    DecimalRational::new(numerator, denominator).expect("rational")
}

#[test]
fn rationals_are_reduced_with_a_positive_denominator() {
    assert_eq!(rational(2, 4), DecimalRational { numerator: 1, denominator: 2 });
    assert_eq!(rational(3, -6), DecimalRational { numerator: -1, denominator: 2 });
    assert_eq!(rational(0, -6), DecimalRational { numerator: 0, denominator: 1 });
    assert_eq!(DecimalRational::new(1, 0), Err(ExecError::NumericOverflow));
    assert_eq!(DecimalRational::new(i128::MIN, -1), Err(ExecError::NumericOverflow));
}

#[test]
fn rational_arithmetic_is_exact() {
    assert_eq!(rational(1, 2).add_sub(rational(1, 3), false), Ok(rational(5, 6)));
    assert_eq!(rational(1, 2).add_sub(rational(1, 3), true), Ok(rational(1, 6)));
    assert_eq!(rational(2, 3).multiply(rational(3, 4)), Ok(rational(1, 2)));
    assert_eq!(rational(1, 2).divide(rational(1, 4)), Ok(Some(rational(2, 1))));
    assert_eq!(rational(1, 2).divide(rational(0, 1)), Ok(None));
    assert_eq!(rational(1, 2).negated(), Ok(rational(-1, 2)));
    assert_eq!(rational(i128::MIN, 1).negated(), Err(ExecError::NumericOverflow));
    assert_eq!(rational(2, 3).truncated(2), Ok(rational(33, 50)));
    assert_eq!(rational(i128::MAX, 1).add_sub(rational(1, 1), false), Err(ExecError::NumericOverflow));
}

#[test]
fn rounding_is_half_away_from_zero() {
    assert_eq!(rational(2, 3).rounded(2), Ok("0.67".to_owned()));
    assert_eq!(rational(-5, 2).rounded(0), Ok("-3".to_owned()));
    assert_eq!(rational(5, 2).rounded(0), Ok("3".to_owned()));
    assert_eq!(rational(1, 8).rounded(2), Ok("0.13".to_owned()));
    assert_eq!(format_decimal_scaled(-1234, 3), "-1.234");
    assert_eq!(format_decimal_scaled(5, 2), "0.05");
}

#[test]
fn a_division_keeps_more_digits_than_its_scale_for_its_parent() {
    let third = DecimalChain::Binary {
        op: ChainOp::Divide,
        scale: 4,
        left: Box::new(DecimalChain::Exact(rational(1, 1))),
        right: Box::new(DecimalChain::Exact(rational(3, 1))),
    };
    assert_eq!(materialize_decimal_chain(&third, 4), Ok(Some("0.3333".to_owned())));
    assert_eq!(
        third.evaluate_decimal_chain(),
        Ok(DecimalChainValue::Exact(rational(333_333_333, 1_000_000_000)))
    );
    let back = DecimalChain::Binary {
        op: ChainOp::Multiply,
        scale: 4,
        left: Box::new(third),
        right: Box::new(DecimalChain::Exact(rational(3, 1))),
    };
    assert_eq!(materialize_decimal_chain(&back, 4), Ok(Some("1.0000".to_owned())));
}

#[test]
fn a_chain_yields_null_for_null_operands_and_division_by_zero() {
    let null_sum = DecimalChain::Binary {
        op: ChainOp::Add,
        scale: 2,
        left: Box::new(DecimalChain::Null),
        right: Box::new(DecimalChain::Exact(rational(1, 1))),
    };
    assert_eq!(materialize_decimal_chain(&null_sum, 2), Ok(None));
    let by_zero = DecimalChain::Binary {
        op: ChainOp::Divide,
        scale: 2,
        left: Box::new(DecimalChain::Exact(rational(1, 1))),
        right: Box::new(DecimalChain::Exact(rational(0, 1))),
    };
    assert_eq!(by_zero.evaluate_decimal_chain(), Ok(DecimalChainValue::Null));
    let negated = DecimalChain::Negate(Box::new(DecimalChain::Exact(rational(7, 4))));
    assert_eq!(materialize_decimal_chain(&negated, 1), Ok(Some("-1.8".to_owned())));
    let exact_sum = DecimalChain::Binary {
        op: ChainOp::Subtract,
        scale: 3,
        left: Box::new(DecimalChain::Exact(rational(1, 3))),
        right: Box::new(DecimalChain::Exact(rational(1, 6))),
    };
    assert_eq!(exact_sum.evaluate_decimal_chain(), Ok(DecimalChainValue::Exact(rational(1, 6))));
}

#[test]
fn integers_scale_to_units_or_overflow() {
    assert_eq!(decimal_units_from_i128(12, 3), Some(12_000));
    assert_eq!(decimal_units_from_i128(-7, 0), Some(-7));
    assert_eq!(decimal_units_from_i128(1, 38), Some(10_i128.pow(38)));
    assert_eq!(decimal_units_from_i128(2, 38), None);
    assert_eq!(decimal_units_from_i128(1, 39), None);
}

#[test]
fn a_new_rational_is_in_lowest_terms_with_a_positive_denominator() {
    let r = DecimalRational::new(6, -4).expect("rational");
    assert_eq!((r.numerator, r.denominator), (-3, 2));
    let z = DecimalRational::new(0, -7).expect("rational");
    assert_eq!((z.numerator, z.denominator), (0, 1));
    let p = DecimalRational::new(-35, -21).expect("rational");
    assert_eq!((p.numerator, p.denominator), (5, 3));
}
