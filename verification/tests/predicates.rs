use pintail_exec::compare::{evaluate_between, BinaryOp, DataType, IntegerValue, TypedValues, Value};
use pintail_exec::predicate::{ColumnVector, CompiledPredicate};

use IntegerValue::{Boolean, Int64, Null, UInt64};

fn column(index: usize) -> Box<CompiledPredicate> {
    Box::new(CompiledPredicate::Column(index))
}

fn literal(value: IntegerValue) -> Box<CompiledPredicate> {
    Box::new(CompiledPredicate::Literal(match value {
        Null => Value::Null,
        Boolean(b) => Value::Boolean(b),
        Int64(x) => Value::Int64(x),
        UInt64(x) => Value::UInt64(x),
    }))
}

fn compare(op: BinaryOp, left: Box<CompiledPredicate>, right: Box<CompiledPredicate>) -> CompiledPredicate {
    CompiledPredicate::Binary { op, left, right }
}

#[test]
fn direct_comparisons_fail_null_rows() {
    let less = compare(BinaryOp::Less, column(0), literal(Int64(10)));
    assert_eq!(less.evaluate_predicate_direct(&[Int64(3)]), Some(true));
    assert_eq!(less.evaluate_predicate_direct(&[UInt64(10)]), Some(false));
    assert_eq!(less.evaluate_predicate_direct(&[Null]), Some(false));
    assert_eq!(less.evaluate_predicate_direct(&[]), None);
}

#[test]
fn direct_between_is_inclusive_and_fails_null_operands() {
    let between = CompiledPredicate::Between {
        negated: false,
        value: column(0),
        low: literal(Int64(1)),
        high: literal(Int64(5)),
    };
    assert_eq!(between.evaluate_predicate_direct(&[Int64(5)]), Some(true));
    assert_eq!(between.evaluate_predicate_direct(&[Int64(6)]), Some(false));
    assert_eq!(between.evaluate_predicate_direct(&[Null]), Some(false));
}

#[test]
fn conjunctions_and_disjunctions_combine_or_decline() {
    let both = compare(
        BinaryOp::And,
        Box::new(compare(BinaryOp::Greater, column(0), literal(Int64(0)))),
        Box::new(compare(BinaryOp::Equal, column(1), literal(Boolean(true)))),
    );
    assert_eq!(both.evaluate_predicate_direct(&[Int64(1), Int64(1)]), Some(true));
    assert_eq!(both.evaluate_predicate_direct(&[Int64(1), Int64(2)]), Some(false));
    let either = compare(
        BinaryOp::Or,
        Box::new(compare(BinaryOp::Greater, column(0), literal(Int64(0)))),
        Box::new(CompiledPredicate::Opaque),
    );
    assert_eq!(either.evaluate_predicate_direct(&[Int64(1)]), None);
    let arithmetic = compare(BinaryOp::Add, column(0), literal(Int64(1)));
    assert_eq!(arithmetic.evaluate_predicate_direct(&[Int64(1)]), None);
}

#[test]
fn a_not_between_with_a_null_bound_fails_directly_though_it_is_true() {
    let not_between = CompiledPredicate::Between {
        negated: true,
        value: literal(Int64(10)),
        low: literal(Null),
        high: literal(Int64(9)),
    };
    assert_eq!(not_between.evaluate_predicate_direct(&[]), Some(false));
    assert_eq!(evaluate_between(&[Int64(10), Null, Int64(9)], true), Boolean(true));
}

fn batch() -> Vec<ColumnVector> {
    vec![
        ColumnVector {
            data_type: DataType::Int64,
            packed: Some(TypedValues::Int64(vec![1, 5, 9, 12])),
            validity: vec![true, true, false, true],
        },
        ColumnVector {
            data_type: DataType::Date32,
            packed: Some(TypedValues::Utf8(vec![
                b"2023-06-01".to_vec(),
                b"2024-01-01".to_vec(),
                b"2022-12-31".to_vec(),
                b"2023-12-31".to_vec(),
            ])),
            validity: vec![true, true, true, false],
        },
        ColumnVector { data_type: DataType::Int64, packed: None, validity: vec![true; 4] },
    ]
}

#[test]
fn packed_filters_select_whole_batches() {
    let columns = batch();
    let less = compare(BinaryOp::Less, column(0), literal(Int64(9)));
    assert_eq!(less.evaluate_filter_mask(&columns), Some(vec![true, true, false, false]));
    // A literal on the left mirrors the comparison: 9 > x is x < 9.
    let mirrored = compare(BinaryOp::Greater, literal(Int64(9)), column(0));
    assert_eq!(mirrored.evaluate_filter_mask(&columns), Some(vec![true, true, false, false]));
    let dates = compare(
        BinaryOp::Less,
        column(1),
        Box::new(CompiledPredicate::Literal(Value::Utf8(b"2024-01-01".to_vec()))),
    );
    assert_eq!(dates.evaluate_filter_mask(&columns), Some(vec![true, false, true, false]));
    let both = compare(BinaryOp::And, Box::new(less), Box::new(dates));
    assert_eq!(both.evaluate_filter_mask(&columns), Some(vec![true, false, false, false]));
    let between = CompiledPredicate::Between {
        negated: false,
        value: column(0),
        low: literal(Int64(5)),
        high: literal(Int64(12)),
    };
    assert_eq!(between.evaluate_filter_mask(&columns), Some(vec![false, true, false, true]));
}

#[test]
fn packed_filters_decline_what_they_cannot_decide() {
    let columns = batch();
    let unpacked = compare(BinaryOp::Equal, column(2), literal(Int64(1)));
    assert_eq!(unpacked.evaluate_filter_mask(&columns), None);
    let missing = compare(BinaryOp::Equal, column(7), literal(Int64(1)));
    assert_eq!(missing.evaluate_filter_mask(&columns), None);
    let mixed = compare(BinaryOp::Equal, column(0), literal(UInt64(1)));
    assert_eq!(mixed.evaluate_filter_mask(&columns), None);
    let not_between = CompiledPredicate::Between {
        negated: true,
        value: column(0),
        low: literal(Int64(5)),
        high: literal(Int64(12)),
    };
    assert_eq!(not_between.evaluate_filter_mask(&columns), None);
    let either = compare(
        BinaryOp::Or,
        Box::new(compare(BinaryOp::Less, column(0), literal(Int64(9)))),
        Box::new(compare(BinaryOp::Less, column(0), literal(Int64(2)))),
    );
    assert_eq!(either.evaluate_filter_mask(&columns), None);
}
