use pintail_exec::compare::{DataType, Value};
use pintail_exec::memory_bounds::{
    allocation_upper_bound, scalar_string_upper_bound, string_value_upper_bound, CastTarget, CellBounds,
    CompiledExpr, ScalarFunction, SlotSizes, REGEX_PROGRAM_MEMORY_UPPER_BOUND, STRING_BUILD_CAP,
};

const SIZES: SlotSizes = SlotSizes { value: 32, string: 24 };

fn text(bytes: usize) -> CellBounds {
    CellBounds { heap_bytes: bytes, string_bytes: bytes }
}

fn call(function: ScalarFunction, args: Vec<CompiledExpr>) -> CompiledExpr {
    CompiledExpr::Scalar { function, args, literal_regex: false }
}

#[test]
fn bounds_a_value_s_text() {
    assert_eq!(scalar_string_upper_bound(&Value::Null), 0);
    assert_eq!(scalar_string_upper_bound(&Value::Boolean(true)), 1);
    assert_eq!(scalar_string_upper_bound(&Value::Int64(-5)), 24);
    assert_eq!(scalar_string_upper_bound(&Value::Utf8(b"hello".to_vec())), 5);
    assert_eq!(scalar_string_upper_bound(&Value::Binary(vec![1, 2, 3])), 3);
}

#[test]
fn concat_is_bounded_by_its_arguments_and_their_slots() {
    let row = vec![text(3)];
    let expr = call(ScalarFunction::Concat, vec![CompiledExpr::Column(0), CompiledExpr::Literal(text(2))]);
    assert_eq!(string_value_upper_bound(&expr, &row), 5);
    // 5 argument bytes, two value slots, 5 string bytes, two string headers, 5 output bytes.
    assert_eq!(allocation_upper_bound(&expr, &row, SIZES), 5 + 64 + 5 + 48 + 5);
}

#[test]
fn a_missing_column_reads_as_nothing() {
    let row = vec![text(3)];
    assert_eq!(string_value_upper_bound(&CompiledExpr::Column(4), &row), 0);
    assert_eq!(allocation_upper_bound(&CompiledExpr::Column(4), &row, SIZES), 0);
}

#[test]
fn a_regex_compiled_per_row_is_charged() {
    let row = vec![text(10)];
    let args = vec![CompiledExpr::Column(0), CompiledExpr::Literal(text(3))];
    let dynamic = CompiledExpr::Scalar { function: ScalarFunction::RegexpLike, args, literal_regex: false };
    let base = 13 + 64 + 13 + 48;
    assert_eq!(allocation_upper_bound(&dynamic, &row, SIZES), base + REGEX_PROGRAM_MEMORY_UPPER_BOUND);
    let args = vec![CompiledExpr::Column(0), CompiledExpr::Literal(text(3))];
    let literal = CompiledExpr::Scalar { function: ScalarFunction::RegexpLike, args, literal_regex: true };
    assert_eq!(allocation_upper_bound(&literal, &row, SIZES), base);
    assert_eq!(REGEX_PROGRAM_MEMORY_UPPER_BOUND, 1_048_576 + 131_072 + 4096);
}

#[test]
fn casts_and_case_mappings_expand_their_input() {
    let row = vec![text(3)];
    let numeric = call(ScalarFunction::Cast(CastTarget::Other), vec![CompiledExpr::Column(0)]);
    assert_eq!(string_value_upper_bound(&numeric, &row), 128);
    let json = call(ScalarFunction::Cast(CastTarget::Json), vec![CompiledExpr::Literal(text(100))]);
    assert_eq!(string_value_upper_bound(&json, &row), 200);
    let plain = call(ScalarFunction::Cast(CastTarget::Text), vec![CompiledExpr::Column(0)]);
    assert_eq!(string_value_upper_bound(&plain, &row), 3);
    let upper = call(ScalarFunction::Upper, vec![CompiledExpr::Column(0)]);
    assert_eq!(string_value_upper_bound(&upper, &row), 36);
}

#[test]
fn text_builders_are_capped_and_huge_inputs_saturate() {
    let row = vec![text(usize::MAX)];
    let repeat = call(ScalarFunction::Repeat, vec![CompiledExpr::Column(0)]);
    assert_eq!(string_value_upper_bound(&repeat, &row), STRING_BUILD_CAP);
    let lower = call(ScalarFunction::Lower, vec![CompiledExpr::Column(0)]);
    assert_eq!(string_value_upper_bound(&lower, &row), usize::MAX);
    assert_eq!(allocation_upper_bound(&lower, &row, SIZES), usize::MAX);
}

#[test]
fn operators_and_null_tests_have_fixed_text_bounds() {
    let row = vec![text(7)];
    let concat_op = CompiledExpr::Binary {
        left: Box::new(CompiledExpr::Column(0)),
        right: Box::new(CompiledExpr::Literal(text(2))),
        data_type: Some(DataType::Utf8),
    };
    assert_eq!(string_value_upper_bound(&concat_op, &row), 64);
    assert_eq!(allocation_upper_bound(&concat_op, &row, SIZES), 7 + 2 + 64);
    let sum = CompiledExpr::Binary {
        left: Box::new(CompiledExpr::Column(0)),
        right: Box::new(CompiledExpr::Literal(text(2))),
        data_type: Some(DataType::Int64),
    };
    assert_eq!(string_value_upper_bound(&sum, &row), 24);
    assert_eq!(allocation_upper_bound(&sum, &row, SIZES), 9);
    let is_null = CompiledExpr::IsNull { expr: Box::new(CompiledExpr::Column(0)) };
    assert_eq!(string_value_upper_bound(&is_null, &row), 1);
}

#[test]
fn date_format_output_grows_with_its_format() {
    let row = vec![text(10), text(4)];
    let format = call(ScalarFunction::DateFormat, vec![CompiledExpr::Column(0), CompiledExpr::Column(1)]);
    assert_eq!(string_value_upper_bound(&format, &row), 64);
    // 14 argument bytes, two slots, 14 string bytes, two headers, 4 * 64 output bytes.
    assert_eq!(allocation_upper_bound(&format, &row, SIZES), 14 + 64 + 14 + 48 + 256);
}
