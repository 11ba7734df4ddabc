//! Upper bounds on what evaluating a compiled expression for one row may
//! allocate and on the length of the text it may produce, by function: the
//! figures an execution guard checks against a query's memory ceiling
//! before it evaluates.
use crate::compare::{DataType, Value};
use crate::regex_text::MAX_REGEX_PATTERN_BYTES;
use vstd::prelude::*;

verus! {

/// The ceiling on text that `REPEAT`, `SPACE`, `LPAD` and `RPAD` build.
pub const STRING_BUILD_CAP: usize = 4096;

/// The size ceiling handed to the regex compilers.
pub const MAX_COMPILED_REGEX_BYTES: usize = 1048576;

/// The fixed allowance for a compiled regex's metadata.
pub const REGEX_PROGRAM_METADATA_BYTES: usize = 4096;

/// A compiled regex retains its program, the pattern twice, and a little
/// fixed metadata.
pub const REGEX_PROGRAM_MEMORY_UPPER_BOUND: usize = MAX_COMPILED_REGEX_BYTES + 2 * MAX_REGEX_PATTERN_BYTES
    + REGEX_PROGRAM_METADATA_BYTES;

/// The target of a CAST, by how its output length is bounded.
#[derive(Clone, Copy, Debug, PartialEq, Eq, Structural)]
pub enum CastTarget {
    /// Text or binary: no longer than its input.
    Text,
    Json,
    /// Numeric and temporal targets, which can expand compact input.
    Other,
}

/// The scalar functions a compiled expression calls.
#[derive(Clone, Copy, Debug, PartialEq, Eq, Structural)]
pub enum ScalarFunction {
    Concat,
    ConcatWs,
    JsonObject,
    JsonArray,
    Substring,
    Trim,
    Left,
    Right,
    NullIf,
    Reverse,
    Unhex,
    FromBase64,
    RegexpSubstr,
    JsonUnquote,
    JsonKeys,
    JsonSearch,
    JsonValue,
    SubstringIndex,
    Cast(CastTarget),
    JsonExtract,
    JsonType,
    Lower,
    Upper,
    Locate,
    Replace,
    RegexpReplace,
    If,
    Coalesce,
    Elt,
    Now,
    CurrentDate,
    Date,
    DateInterval,
    FromUnixTime,
    Abs,
    Greatest,
    Least,
    Format,
    DayName,
    MonthName,
    LastDay,
    FromDays,
    SecToTime,
    MakeDate,
    Curtime,
    StrToDate,
    ConvertTz,
    Char,
    Rand,
    Conv,
    MakeTime,
    DateFormat,
    /// `[NOT] LIKE`, with its escape character.
    Like { negated: bool, escape: Option<char> },
    Length,
    CharLength,
    DecimalComparison,
    InList,
    Between,
    DatePart,
    DateDiff,
    UnixTimestamp,
    Round,
    Ceil,
    Floor,
    Sign,
    Power,
    Sqrt,
    Exp,
    Ln,
    LogBase,
    Log2,
    Log10,
    Truncate,
    Instr,
    FindInSet,
    Ascii,
    Ord,
    Field,
    ToDays,
    YearWeek,
    TimeToSec,
    RegexpLike,
    RegexpInstr,
    TimestampDiff,
    JsonValid,
    JsonLength,
    JsonContains,
    JsonContainsPath,
    Repeat,
    Space,
    Lpad,
    Rpad,
    Md5,
    Hex,
    ToBase64,
}

/// What the bounds read of one value: the bytes it holds on the heap and
/// the length of its text.
#[derive(Clone, Copy, Debug, PartialEq, Eq, Structural)]
pub struct CellBounds {
    pub heap_bytes: usize,
    pub string_bytes: usize,
}

/// The sizes of a value slot and of a string header on this machine.
#[derive(Clone, Copy, Debug, PartialEq, Eq, Structural)]
pub struct SlotSizes {
    pub value: usize,
    pub string: usize,
}

/// An expression compiled against a batch layout.
pub enum CompiledExpr {
    /// A column of the batch, by index.
    Column(usize),
    Literal(CellBounds),
    Unary { expr: Box<CompiledExpr>, data_type: Option<DataType> },
    Binary { left: Box<CompiledExpr>, right: Box<CompiledExpr>, data_type: Option<DataType> },
    IsNull { expr: Box<CompiledExpr> },
    /// A function call; `literal_regex` when its pattern was compiled ahead.
    Scalar { function: ScalarFunction, args: Vec<CompiledExpr>, literal_regex: bool },
}

/// The length bound of a value's text: one byte for a boolean, 24 for a
/// number, the bytes of a string.
pub open spec fn value_string_bound(v: Value) -> usize {
    match v {
        Value::Null => 0,
        Value::Boolean(_) => 1,
        Value::Int64(_) | Value::UInt64(_) => 24,
        Value::Utf8(bytes) => bytes@.len() as usize,
        Value::Binary(bytes) => bytes@.len() as usize,
    }
}

/// The length bound of a value's text.
pub fn scalar_string_upper_bound(value: &Value) -> (r: usize)
    ensures
        r == value_string_bound(*value),
{
    match value {
        Value::Null => 0,
        Value::Boolean(_) => 1,
        Value::Int64(_) | Value::UInt64(_) => 24,
        Value::Utf8(bytes) => bytes.len(),
        Value::Binary(bytes) => bytes.len(),
    }
}

/// `a * b`, saturating at `usize::MAX`.
pub open spec fn sat_mul(a: usize, b: usize) -> usize {
    if a * b > usize::MAX {
        usize::MAX
    } else {
        (a * b) as usize
    }
}

/// `a + b`, saturating at `usize::MAX`.
pub open spec fn sat_add(a: usize, b: usize) -> usize {
    if a + b > usize::MAX {
        usize::MAX
    } else {
        (a + b) as usize
    }
}

/// The larger of two bounds.
pub open spec fn larger(a: usize, b: usize) -> usize {
    if a < b {
        b
    } else {
        a
    }
}

/// The saturating sum of a list of bounds, from the left.
pub open spec fn sat_sum(s: Seq<usize>) -> usize
    decreases s.len(),
{
    if s.len() == 0 {
        0
    } else {
        sat_add(sat_sum(s.drop_last()), s.last())
    }
}

/// The largest of a list of bounds, 0 for none.
pub open spec fn largest(s: Seq<usize>) -> usize
    decreases s.len(),
{
    if s.len() == 0 {
        0
    } else {
        larger(largest(s.drop_last()), s.last())
    }
}

/// The `i`-th bound of a list, 0 past its end.
pub open spec fn nth(s: Seq<usize>, i: int) -> usize {
    if 0 <= i < s.len() {
        s[i]
    } else {
        0
    }
}

/// Whether a function compiles a regex.
pub open spec fn is_regex_function(f: ScalarFunction) -> bool {
    f == ScalarFunction::RegexpLike || f == ScalarFunction::RegexpSubstr || f == ScalarFunction::RegexpInstr
        || f == ScalarFunction::RegexpReplace
}

/// Whether a function's text is no longer than its first argument's.
pub open spec fn bounded_by_first(f: ScalarFunction) -> bool {
    match f {
        ScalarFunction::Substring | ScalarFunction::Trim | ScalarFunction::Left | ScalarFunction::Right
        | ScalarFunction::NullIf | ScalarFunction::Reverse | ScalarFunction::Unhex
        | ScalarFunction::FromBase64 | ScalarFunction::RegexpSubstr | ScalarFunction::JsonUnquote
        | ScalarFunction::JsonKeys | ScalarFunction::JsonSearch | ScalarFunction::JsonValue
        | ScalarFunction::SubstringIndex | ScalarFunction::Cast(CastTarget::Text) => true,
        _ => false,
    }
}

/// Whether a function renders short fixed-width text, 64 bytes at most.
pub open spec fn short_text(f: ScalarFunction) -> bool {
    match f {
        ScalarFunction::Now | ScalarFunction::CurrentDate | ScalarFunction::Date
        | ScalarFunction::DateInterval | ScalarFunction::FromUnixTime | ScalarFunction::Abs
        | ScalarFunction::Greatest | ScalarFunction::Least | ScalarFunction::Format
        | ScalarFunction::DayName | ScalarFunction::MonthName | ScalarFunction::LastDay
        | ScalarFunction::FromDays | ScalarFunction::SecToTime | ScalarFunction::MakeDate
        | ScalarFunction::Curtime | ScalarFunction::StrToDate | ScalarFunction::ConvertTz
        | ScalarFunction::Char | ScalarFunction::Rand | ScalarFunction::Conv | ScalarFunction::MakeTime => true,
        _ => false,
    }
}

/// Whether a function answers a number or a truth value.
pub open spec fn numeric_answer(f: ScalarFunction) -> bool {
    match f {
        ScalarFunction::Length | ScalarFunction::CharLength | ScalarFunction::DecimalComparison
        | ScalarFunction::InList | ScalarFunction::Between | ScalarFunction::DatePart
        | ScalarFunction::DateDiff | ScalarFunction::UnixTimestamp | ScalarFunction::Round
        | ScalarFunction::Ceil | ScalarFunction::Floor | ScalarFunction::Sign | ScalarFunction::Power
        | ScalarFunction::Sqrt | ScalarFunction::Exp | ScalarFunction::Ln | ScalarFunction::LogBase
        | ScalarFunction::Log2 | ScalarFunction::Log10 | ScalarFunction::Truncate | ScalarFunction::Instr
        | ScalarFunction::FindInSet | ScalarFunction::Ascii | ScalarFunction::Ord | ScalarFunction::Field
        | ScalarFunction::ToDays | ScalarFunction::YearWeek | ScalarFunction::TimeToSec
        | ScalarFunction::RegexpLike | ScalarFunction::RegexpInstr | ScalarFunction::TimestampDiff
        | ScalarFunction::JsonValid | ScalarFunction::JsonLength | ScalarFunction::JsonContains
        | ScalarFunction::JsonContainsPath => true,
        _ => false,
    }
}

/// Whether a function builds text up to the build cap.
pub open spec fn builds_text(f: ScalarFunction) -> bool {
    match f {
        ScalarFunction::Repeat | ScalarFunction::Space | ScalarFunction::Lpad | ScalarFunction::Rpad => true,
        _ => false,
    }
}

/// The bound a function's result shares between text length and output
/// memory, from the text bounds `ss` of its arguments; `None` for the
/// functions whose two bounds differ.
pub open spec fn shared_bound(f: ScalarFunction, ss: Seq<usize>) -> Option<usize> {
    let first = nth(ss, 0);
    let n = ss.len() as usize;
    match f {
        ScalarFunction::Concat | ScalarFunction::ConcatWs => Some(sat_sum(ss)),
        ScalarFunction::JsonObject | ScalarFunction::JsonArray => Some(
            sat_add(sat_sum(ss), sat_add(sat_mul(n, 8), 2)),
        ),
        ScalarFunction::Cast(CastTarget::Json) => Some(larger(sat_mul(first, 2), 128)),
        ScalarFunction::Cast(CastTarget::Other) => Some(larger(first, 128)),
        ScalarFunction::JsonExtract => Some(
            sat_add(sat_mul(first, if n > 0 { (n - 1) as usize } else { 0 }), sat_mul(n, 2)),
        ),
        ScalarFunction::JsonType => Some(16),
        ScalarFunction::Lower | ScalarFunction::Upper => Some(sat_mul(first, 12)),
        ScalarFunction::Replace | ScalarFunction::RegexpReplace => Some(
            sat_add(first, sat_mul(sat_add(first, 1), nth(ss, 2))),
        ),
        ScalarFunction::If => Some(larger(nth(ss, 1), nth(ss, 2))),
        ScalarFunction::Coalesce | ScalarFunction::Elt => Some(largest(ss)),
        ScalarFunction::Md5 => Some(32),
        ScalarFunction::Hex | ScalarFunction::ToBase64 => Some(sat_add(sat_mul(first, 2), 24)),
        _ => if bounded_by_first(f) {
            Some(first)
        } else if builds_text(f) {
            Some(STRING_BUILD_CAP)
        } else {
            None
        },
    }
}

/// The length bound of a function's text, from its arguments' text bounds.
pub open spec fn function_string_bound(f: ScalarFunction, ss: Seq<usize>) -> usize {
    match shared_bound(f, ss) {
        Some(b) => b,
        None => if short_text(f) || f == ScalarFunction::DateFormat {
            64
        } else {
            24
        },
    }
}

/// The memory a function's result may take, from its arguments' text
/// bounds.
pub open spec fn function_output_bound(f: ScalarFunction, ss: Seq<usize>) -> usize {
    match shared_bound(f, ss) {
        Some(b) => b,
        None => if f == ScalarFunction::Locate {
            sat_mul(sat_sum(ss), 12)
        } else if f == ScalarFunction::DateFormat {
            sat_mul(nth(ss, 1), 64)
        } else if f is Like {
            sat_mul(sat_add(nth(ss, 0), nth(ss, 1)), 12)
        } else if short_text(f) {
            64
        } else {
            0
        },
    }
}

/// The length bound of the text an expression produces for a row.
pub open spec fn string_bound(e: CompiledExpr, row: Seq<CellBounds>) -> usize
    decreases e,
{
    match e {
        CompiledExpr::Column(i) => if i < row.len() {
            row[i as int].string_bytes
        } else {
            0
        },
        CompiledExpr::Literal(cell) => cell.string_bytes,
        CompiledExpr::Unary { data_type, .. } => if data_type == Some(DataType::Utf8) {
            64
        } else {
            24
        },
        CompiledExpr::Binary { data_type, .. } => if data_type == Some(DataType::Utf8) {
            64
        } else {
            24
        },
        CompiledExpr::IsNull { .. } => 1,
        CompiledExpr::Scalar { function, args, .. } => {
            proof {
                assert(decreases_to!(e => e->Scalar_args));
                assert(decreases_to!(e->Scalar_args => e->Scalar_args@));
            }
            function_string_bound(function, arg_strings(args@, row))
        },
    }
}

/// The text bounds of a list of arguments.
pub open spec fn arg_strings(args: Seq<CompiledExpr>, row: Seq<CellBounds>) -> Seq<usize>
    decreases args,
{
    if args.len() == 0 {
        seq![]
    } else {
        proof {
            assert(decreases_to!(args => args[args.len() - 1]));
            assert(decreases_to!(args => args.subrange(0, args.len() - 1)));
        }
        arg_strings(args.subrange(0, args.len() - 1), row).push(string_bound(args[args.len() - 1], row))
    }
}

/// What evaluating an expression for a row may allocate: its operands'
/// allocations, the values and strings a call holds for its arguments,
/// its result, and a regex compiled per row.
pub open spec fn allocation_bound(e: CompiledExpr, row: Seq<CellBounds>, sizes: SlotSizes) -> usize
    decreases e,
{
    match e {
        CompiledExpr::Column(i) => if i < row.len() {
            row[i as int].heap_bytes
        } else {
            0
        },
        CompiledExpr::Literal(cell) => cell.heap_bytes,
        CompiledExpr::Unary { expr, data_type } => sat_add(
            allocation_bound(*expr, row, sizes),
            if data_type == Some(DataType::Utf8) {
                string_bound(e, row)
            } else {
                0
            },
        ),
        CompiledExpr::Binary { left, right, data_type } => sat_add(
            sat_add(allocation_bound(*left, row, sizes), allocation_bound(*right, row, sizes)),
            if data_type == Some(DataType::Utf8) {
                string_bound(e, row)
            } else {
                0
            },
        ),
        CompiledExpr::IsNull { expr } => allocation_bound(*expr, row, sizes),
        CompiledExpr::Scalar { function, args, literal_regex } => {
            proof {
                assert(decreases_to!(e => e->Scalar_args));
                assert(decreases_to!(e->Scalar_args => e->Scalar_args@));
            }
            let ss = arg_strings(args@, row);
            let n = args@.len() as usize;
            let argument_memory = sat_add(
                sat_add(sat_add(sat_sum(arg_allocations(args@, row, sizes)), sat_mul(n, sizes.value)), sat_sum(ss)),
                sat_mul(n, sizes.string),
            );
            let regex = if is_regex_function(function) && !literal_regex {
                REGEX_PROGRAM_MEMORY_UPPER_BOUND
            } else {
                0
            };
            sat_add(sat_add(argument_memory, function_output_bound(function, ss)), regex)
        },
    }
}

/// The allocation bounds of a list of arguments.
pub open spec fn arg_allocations(args: Seq<CompiledExpr>, row: Seq<CellBounds>, sizes: SlotSizes) -> Seq<usize>
    decreases args,
{
    if args.len() == 0 {
        seq![]
    } else {
        proof {
            assert(decreases_to!(args => args[args.len() - 1]));
            assert(decreases_to!(args => args.subrange(0, args.len() - 1)));
        }
        arg_allocations(args.subrange(0, args.len() - 1), row, sizes).push(
            allocation_bound(args[args.len() - 1], row, sizes),
        )
    }
}

/// `a * b`, saturating.
fn saturating_mul(a: usize, b: usize) -> (r: usize)
    ensures
        r == sat_mul(a, b),
{
    match a.checked_mul(b) {
        Some(p) => p,
        None => usize::MAX,
    }
}

/// The saturating sum of a list of bounds.
fn sum_bounds(s: &Vec<usize>) -> (r: usize)
    ensures
        r == sat_sum(s@),
{
    let mut total: usize = 0;
    let mut i: usize = 0;
    while i < s.len()
        invariant
            i <= s@.len(),
            total == sat_sum(s@.take(i as int)),
        decreases s@.len() - i,
    {
        total = total.saturating_add(s[i]);
        i = i + 1;
        assert(s@.take(i as int).drop_last() =~= s@.take(i - 1));
    }
    assert(s@.take(s@.len() as int) =~= s@);
    total
}

/// The largest of a list of bounds, 0 for none.
fn largest_bound(s: &Vec<usize>) -> (r: usize)
    ensures
        r == largest(s@),
{
    let mut best: usize = 0;
    let mut i: usize = 0;
    while i < s.len()
        invariant
            i <= s@.len(),
            best == largest(s@.take(i as int)),
        decreases s@.len() - i,
    {
        if best < s[i] {
            best = s[i];
        }
        i = i + 1;
        assert(s@.take(i as int).drop_last() =~= s@.take(i - 1));
    }
    assert(s@.take(s@.len() as int) =~= s@);
    best
}

/// The `i`-th bound of a list, 0 past its end.
fn bound_at(s: &Vec<usize>, i: usize) -> (r: usize)
    ensures
        r == nth(s@, i as int),
{
    if i < s.len() {
        s[i]
    } else {
        0
    }
}

/// The bound a function's text and output memory share, if they do.
fn shared_function_bound(f: ScalarFunction, ss: &Vec<usize>) -> (r: Option<usize>)
    ensures
        r == shared_bound(f, ss@),
{
    let first = bound_at(ss, 0);
    let n = ss.len();
    match f {
        ScalarFunction::Concat | ScalarFunction::ConcatWs => Some(sum_bounds(ss)),
        ScalarFunction::JsonObject | ScalarFunction::JsonArray => Some(
            sum_bounds(ss).saturating_add(saturating_mul(n, 8).saturating_add(2)),
        ),
        ScalarFunction::Cast(CastTarget::Json) => {
            let doubled = saturating_mul(first, 2);
            Some(if doubled < 128 { 128 } else { doubled })
        },
        ScalarFunction::Cast(CastTarget::Other) => Some(if first < 128 { 128 } else { first }),
        ScalarFunction::JsonExtract => Some(
            saturating_mul(first, n.saturating_sub(1)).saturating_add(saturating_mul(n, 2)),
        ),
        ScalarFunction::JsonType => Some(16),
        ScalarFunction::Lower | ScalarFunction::Upper => Some(saturating_mul(first, 12)),
        ScalarFunction::Replace | ScalarFunction::RegexpReplace => Some(
            first.saturating_add(saturating_mul(first.saturating_add(1), bound_at(ss, 2))),
        ),
        ScalarFunction::If => {
            let a = bound_at(ss, 1);
            let b = bound_at(ss, 2);
            Some(if a < b { b } else { a })
        },
        ScalarFunction::Coalesce | ScalarFunction::Elt => Some(largest_bound(ss)),
        ScalarFunction::Md5 => Some(32),
        ScalarFunction::Hex | ScalarFunction::ToBase64 => Some(saturating_mul(first, 2).saturating_add(24)),
        ScalarFunction::Substring | ScalarFunction::Trim | ScalarFunction::Left | ScalarFunction::Right
        | ScalarFunction::NullIf | ScalarFunction::Reverse | ScalarFunction::Unhex
        | ScalarFunction::FromBase64 | ScalarFunction::RegexpSubstr | ScalarFunction::JsonUnquote
        | ScalarFunction::JsonKeys | ScalarFunction::JsonSearch | ScalarFunction::JsonValue
        | ScalarFunction::SubstringIndex | ScalarFunction::Cast(CastTarget::Text) => Some(first),
        ScalarFunction::Repeat | ScalarFunction::Space | ScalarFunction::Lpad | ScalarFunction::Rpad => Some(
            STRING_BUILD_CAP,
        ),
        _ => None,
    }
}

/// Whether a function renders short fixed-width text.
fn renders_short_text(f: ScalarFunction) -> (r: bool)
    ensures
        r == short_text(f),
{
    match f {
        ScalarFunction::Now | ScalarFunction::CurrentDate | ScalarFunction::Date
        | ScalarFunction::DateInterval | ScalarFunction::FromUnixTime | ScalarFunction::Abs
        | ScalarFunction::Greatest | ScalarFunction::Least | ScalarFunction::Format
        | ScalarFunction::DayName | ScalarFunction::MonthName | ScalarFunction::LastDay
        | ScalarFunction::FromDays | ScalarFunction::SecToTime | ScalarFunction::MakeDate
        | ScalarFunction::Curtime | ScalarFunction::StrToDate | ScalarFunction::ConvertTz
        | ScalarFunction::Char | ScalarFunction::Rand | ScalarFunction::Conv | ScalarFunction::MakeTime => true,
        _ => false,
    }
}

/// The text bounds of a list of arguments.
fn argument_strings(args: &Vec<CompiledExpr>, row: &Vec<CellBounds>) -> (r: Vec<usize>)
    ensures
        r@ == arg_strings(args@, row@),
    decreases args, 0nat,
{
    let mut out: Vec<usize> = Vec::new();
    let mut i: usize = 0;
    while i < args.len()
        invariant
            i <= args@.len(),
            out@ == arg_strings(args@.subrange(0, i as int), row@),
        decreases args@.len() - i,
    {
        proof {
            assert(decreases_to!(args => args@));
            assert(decreases_to!(args@ => args@[i as int]));
        }
        let b = string_value_upper_bound(&args[i], row);
        out.push(b);
        i = i + 1;
        assert(args@.subrange(0, i as int).subrange(0, i - 1) =~= args@.subrange(0, i - 1));
    }
    assert(args@.subrange(0, args@.len() as int) =~= args@);
    out
}

/// The length bound of the text an expression produces for a row.
pub fn string_value_upper_bound(expr: &CompiledExpr, row: &Vec<CellBounds>) -> (r: usize)
    ensures
        r == string_bound(*expr, row@),
    decreases expr, 1nat,
{
    match expr {
        CompiledExpr::Column(i) => if *i < row.len() {
            row[*i].string_bytes
        } else {
            0
        },
        CompiledExpr::Literal(cell) => cell.string_bytes,
        CompiledExpr::Unary { data_type, .. } | CompiledExpr::Binary { data_type, .. } => match data_type {
            Some(DataType::Utf8) => 64,
            _ => 24,
        },
        CompiledExpr::IsNull { .. } => 1,
        CompiledExpr::Scalar { function, args, .. } => {
            proof {
                assert(decreases_to!(*expr => expr->Scalar_args));
            }
            let ss = argument_strings(args, row);
            match shared_function_bound(*function, &ss) {
                Some(b) => b,
                None => if renders_short_text(*function) || *function == ScalarFunction::DateFormat {
                    64
                } else {
                    24
                },
            }
        },
    }
}

/// The allocation bounds of a list of arguments.
fn argument_allocations(args: &Vec<CompiledExpr>, row: &Vec<CellBounds>, sizes: SlotSizes) -> (r: Vec<usize>)
    ensures
        r@ == arg_allocations(args@, row@, sizes),
    decreases args, 0nat,
{
    let mut out: Vec<usize> = Vec::new();
    let mut i: usize = 0;
    while i < args.len()
        invariant
            i <= args@.len(),
            out@ == arg_allocations(args@.subrange(0, i as int), row@, sizes),
        decreases args@.len() - i,
    {
        proof {
            assert(decreases_to!(args => args@));
            assert(decreases_to!(args@ => args@[i as int]));
        }
        let b = allocation_upper_bound(&args[i], row, sizes);
        out.push(b);
        i = i + 1;
        assert(args@.subrange(0, i as int).subrange(0, i - 1) =~= args@.subrange(0, i - 1));
    }
    assert(args@.subrange(0, args@.len() as int) =~= args@);
    out
}

/// What evaluating an expression for a row may allocate, in bytes,
/// saturating at `usize::MAX`.
pub fn allocation_upper_bound(expr: &CompiledExpr, row: &Vec<CellBounds>, sizes: SlotSizes) -> (r: usize)
    ensures
        r == allocation_bound(*expr, row@, sizes),
    decreases expr, 1nat,
{
    match expr {
        CompiledExpr::Column(i) => if *i < row.len() {
            row[*i].heap_bytes
        } else {
            0
        },
        CompiledExpr::Literal(cell) => cell.heap_bytes,
        CompiledExpr::Unary { expr: inner, data_type } => {
            let text = match data_type {
                Some(DataType::Utf8) => string_value_upper_bound(expr, row),
                _ => 0,
            };
            allocation_upper_bound(inner, row, sizes).saturating_add(text)
        },
        CompiledExpr::Binary { left, right, data_type } => {
            let text = match data_type {
                Some(DataType::Utf8) => string_value_upper_bound(expr, row),
                _ => 0,
            };
            allocation_upper_bound(left, row, sizes).saturating_add(allocation_upper_bound(right, row, sizes))
                .saturating_add(text)
        },
        CompiledExpr::IsNull { expr: inner } => allocation_upper_bound(inner, row, sizes),
        CompiledExpr::Scalar { function, args, literal_regex } => {
            proof {
                assert(decreases_to!(*expr => expr->Scalar_args));
            }
            let ss = argument_strings(args, row);
            let allocations = argument_allocations(args, row, sizes);
            let n = args.len();
            let string_arguments = sum_bounds(&ss);
            let argument_memory = sum_bounds(&allocations).saturating_add(saturating_mul(n, sizes.value))
                .saturating_add(string_arguments).saturating_add(saturating_mul(n, sizes.string));
            let output = match shared_function_bound(*function, &ss) {
                Some(b) => b,
                None => match function {
                    ScalarFunction::Locate => saturating_mul(string_arguments, 12),
                    ScalarFunction::DateFormat => saturating_mul(bound_at(&ss, 1), 64),
                    ScalarFunction::Like { .. } => saturating_mul(bound_at(&ss, 0).saturating_add(bound_at(&ss, 1)), 12),
                    _ => if renders_short_text(*function) {
                        64
                    } else {
                        0
                    },
                },
            };
            let regex = match function {
                ScalarFunction::RegexpLike | ScalarFunction::RegexpSubstr | ScalarFunction::RegexpInstr
                | ScalarFunction::RegexpReplace => if *literal_regex {
                    0
                } else {
                    REGEX_PROGRAM_MEMORY_UPPER_BOUND
                },
                _ => 0,
            };
            argument_memory.saturating_add(output).saturating_add(regex)
        },
    }
}

/// A saturating sum is at least each of its terms.
proof fn lemma_sat_sum_covers(s: Seq<usize>, i: int)
    requires
        0 <= i < s.len(),
    ensures
        sat_sum(s) >= s[i],
    decreases s.len(),
{
    if i < s.len() - 1 {
        lemma_sat_sum_covers(s.drop_last(), i);
    }
}

/// The allocation bounds of a list of arguments, one per argument.
proof fn lemma_arg_allocations_index(args: Seq<CompiledExpr>, row: Seq<CellBounds>, sizes: SlotSizes, i: int)
    requires
        0 <= i < args.len(),
    ensures
        arg_allocations(args, row, sizes).len() == args.len(),
        arg_allocations(args, row, sizes)[i] == allocation_bound(args[i], row, sizes),
    decreases args.len(),
{
    let init = args.subrange(0, args.len() - 1);
    if i < args.len() - 1 {
        lemma_arg_allocations_index(init, row, sizes, i);
        assert(init[i] == args[i]);
    } else if args.len() > 1 {
        lemma_arg_allocations_index(init, row, sizes, 0);
    } else {
        assert(arg_allocations(init, row, sizes).len() == 0);
    }
}

/// What a function call may allocate covers what each of its arguments
/// may allocate.
pub proof fn law_call_bound_covers_its_arguments(e: CompiledExpr, row: Seq<CellBounds>, sizes: SlotSizes, i: int)
    requires
        e is Scalar,
        0 <= i < e->Scalar_args@.len(),
    ensures
        allocation_bound(e, row, sizes) >= allocation_bound(e->Scalar_args@[i], row, sizes),
{
    let args = e->Scalar_args@;
    lemma_arg_allocations_index(args, row, sizes, i);
    lemma_sat_sum_covers(arg_allocations(args, row, sizes), i);
}

} // verus!
