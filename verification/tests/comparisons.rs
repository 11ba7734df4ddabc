use pintail_exec::compare::{
    compare_mysql, evaluate_between, evaluate_comparison, evaluate_in_list, evaluate_logic,
    evaluate_not, mirror_comparison, mysql_truth, typed_comparison_mask, BinaryOp, DataType,
    IntegerValue, TypedValues, Value,
};
use pintail_exec::decimal::ExecError;
use std::cmp::Ordering;

use IntegerValue::{Boolean, Int64, Null, UInt64};

#[test]
fn mirrored_comparisons_swap_their_direction() {
    assert_eq!(mirror_comparison(BinaryOp::Less), BinaryOp::Greater);
    assert_eq!(mirror_comparison(BinaryOp::LessOrEqual), BinaryOp::GreaterOrEqual);
    assert_eq!(mirror_comparison(BinaryOp::Greater), BinaryOp::Less);
    assert_eq!(mirror_comparison(BinaryOp::GreaterOrEqual), BinaryOp::LessOrEqual);
    assert_eq!(mirror_comparison(BinaryOp::Equal), BinaryOp::Equal);
    assert_eq!(mirror_comparison(BinaryOp::Add), BinaryOp::Add);
}

#[test]
fn signed_and_unsigned_integers_compare_exactly() {
    assert_eq!(compare_mysql(&Int64(-1), &UInt64(u64::MAX)), Ok(Ordering::Less));
    assert_eq!(compare_mysql(&UInt64(u64::MAX), &Int64(i64::MAX)), Ok(Ordering::Greater));
    assert_eq!(compare_mysql(&UInt64(7), &Int64(7)), Ok(Ordering::Equal));
    assert_eq!(compare_mysql(&Boolean(true), &Int64(1)), Ok(Ordering::Equal));
    assert_eq!(compare_mysql(&Boolean(false), &Int64(-3)), Ok(Ordering::Greater));
    assert_eq!(compare_mysql(&Null, &Int64(1)), Err(ExecError::InvalidExpressionType));
}

#[test]
fn a_comparison_with_null_is_null() {
    assert_eq!(evaluate_comparison(BinaryOp::Equal, &Null, &Int64(1)), Ok(Null));
    assert_eq!(evaluate_comparison(BinaryOp::Add, &Int64(1), &Null), Ok(Null));
    assert_eq!(
        evaluate_comparison(BinaryOp::LessOrEqual, &Int64(2), &UInt64(2)),
        Ok(Boolean(true))
    );
    assert_eq!(
        evaluate_comparison(BinaryOp::NotEqual, &Int64(2), &UInt64(2)),
        Ok(Boolean(false))
    );
    assert_eq!(
        evaluate_comparison(BinaryOp::Add, &Int64(2), &Int64(3)),
        Err(ExecError::InvalidExpressionType)
    );
}

#[test]
fn three_valued_logic_follows_kleene() {
    assert_eq!(mysql_truth(&Int64(-5)), Some(true));
    assert_eq!(mysql_truth(&UInt64(0)), Some(false));
    assert_eq!(mysql_truth(&Null), None);
    assert_eq!(evaluate_logic(BinaryOp::And, &Boolean(false), &Null), Ok(Boolean(false)));
    assert_eq!(evaluate_logic(BinaryOp::And, &Boolean(true), &Null), Ok(Null));
    assert_eq!(evaluate_logic(BinaryOp::Or, &Null, &Int64(3)), Ok(Boolean(true)));
    assert_eq!(evaluate_logic(BinaryOp::Or, &Null, &Int64(0)), Ok(Null));
    assert_eq!(evaluate_logic(BinaryOp::Xor, &Int64(2), &Boolean(true)), Ok(Boolean(false)));
    assert_eq!(evaluate_logic(BinaryOp::Xor, &Int64(2), &Null), Ok(Null));
    assert_eq!(
        evaluate_logic(BinaryOp::Less, &Int64(2), &Int64(3)),
        Err(ExecError::InvalidExpressionType)
    );
    assert_eq!(evaluate_not(&Int64(0)), Boolean(true));
    assert_eq!(evaluate_not(&Null), Null);
}

#[test]
fn between_is_inclusive_and_negates_around_null() {
    assert_eq!(evaluate_between(&[Int64(5), Int64(5), UInt64(9)], false), Boolean(true));
    assert_eq!(evaluate_between(&[Int64(10), Int64(5), UInt64(9)], false), Boolean(false));
    assert_eq!(evaluate_between(&[Int64(10), Int64(5), UInt64(9)], true), Boolean(true));
    assert_eq!(evaluate_between(&[Int64(10), Null, Int64(9)], false), Boolean(false));
    assert_eq!(evaluate_between(&[Int64(7), Null, Int64(9)], false), Null);
    assert_eq!(evaluate_between(&[Int64(7), Null, Int64(9)], true), Null);
}

#[test]
fn in_lists_match_before_they_turn_unknown() {
    assert_eq!(evaluate_in_list(&[Int64(3), Null, UInt64(3)], false), Boolean(true));
    assert_eq!(evaluate_in_list(&[Int64(3), Null, UInt64(4)], false), Null);
    assert_eq!(evaluate_in_list(&[Int64(3), Int64(4)], false), Boolean(false));
    assert_eq!(evaluate_in_list(&[Int64(3), Int64(4)], true), Boolean(true));
    assert_eq!(evaluate_in_list(&[Null, Int64(4)], false), Null);
    assert_eq!(evaluate_in_list(&[Int64(3)], false), Boolean(false));
}

#[test]
fn packed_integer_masks_skip_null_rows() {
    let column = TypedValues::Int64(vec![1, 5, 5, 9]);
    let validity = vec![true, true, false, true];
    let literal = Value::Int64(5);
    assert_eq!(
        typed_comparison_mask(&column, &validity, DataType::Int64, BinaryOp::Equal, &literal),
        Some(vec![false, true, false, false])
    );
    assert_eq!(
        typed_comparison_mask(&column, &validity, DataType::Int64, BinaryOp::NotEqual, &literal),
        Some(vec![true, false, false, true])
    );
    assert_eq!(
        typed_comparison_mask(&column, &validity, DataType::Int64, BinaryOp::GreaterOrEqual, &literal),
        Some(vec![false, true, false, true])
    );
    assert_eq!(
        typed_comparison_mask(&column, &validity, DataType::Int64, BinaryOp::And, &literal),
        None
    );
    assert_eq!(
        typed_comparison_mask(&column, &validity, DataType::Int64, BinaryOp::Less, &Value::UInt64(5)),
        None
    );
    let unsigned = TypedValues::UInt64(vec![0, u64::MAX]);
    assert_eq!(
        typed_comparison_mask(
            &unsigned,
            &vec![true, true],
            DataType::UInt64,
            BinaryOp::Greater,
            &Value::UInt64(1)
        ),
        Some(vec![false, true])
    );
}

#[test]
fn canonical_temporal_text_compares_byte_wise() {
    let column = TypedValues::Utf8(vec![
        b"2024-01-31".to_vec(),
        b"2024-02-01".to_vec(),
        b"2023-12-31".to_vec(),
    ]);
    let validity = vec![true, true, true];
    let literal = Value::Utf8(b"2024-02-01".to_vec());
    assert_eq!(
        typed_comparison_mask(&column, &validity, DataType::Date32, BinaryOp::Less, &literal),
        Some(vec![true, false, true])
    );
    assert_eq!(
        typed_comparison_mask(&column, &validity, DataType::Date32, BinaryOp::Equal, &literal),
        Some(vec![false, true, false])
    );
    assert_eq!(
        typed_comparison_mask(&column, &validity, DataType::Utf8, BinaryOp::Equal, &literal),
        None
    );
}

#[test]
fn compares_mixed_bigints_without_float_precision_loss() {
    assert_eq!(
        compare_mysql(&UInt64(9_007_199_254_740_993), &Int64(9_007_199_254_740_992)),
        Ok(Ordering::Greater)
    );
    assert_eq!(compare_mysql(&Int64(-1), &UInt64(0)), Ok(Ordering::Less));
}
