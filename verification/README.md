# pintail_exec

The expression semantics and logical planning of the Pintail SQL engine,
written in Verus: every function carries a `requires`/`ensures` contract
over a mathematical model, and the properties that span functions are
stated and proved as public proof functions (`law_*`).

## Layout

- `src/` — the verified library, one module per area:
  - `compare`, `logic_laws`: MySQL comparison, three-valued `AND`/`OR`/
    `XOR`/`NOT`, `BETWEEN`, `IN`, and the packed-column comparison kernels.
  - `arithmetic`, `fixed_point`, `decimal`, `decimal_chain`: checked
    `BIGINT` arithmetic, DECIMAL operators on scaled units, and exact
    rational evaluation of DECIMAL expression trees.
  - `json_order`, `json_laws`, `json_path`: the JSON comparison ladder as
    an order-preserving byte key, its laws, and JSON path parsing/lookup.
  - `calendar`, `temporal`, `interval`, `parts`, `str_to_date`,
    `time_text`, `zone`, `session`: dates, times and time zones.
  - `text`, `like`, `regex_text`, `encoding`, `digest`, `chars`: the text
    and encoding functions.
  - `logical`, `optimizer`: logical plans, the planner, cardinality
    estimates and the shape-only rewrites.
  - `bound_expr`, `pushdown`, `pushdown_laws`, `aggregate_rules`,
    `join_order`, `join_order_laws`, `join_constants`: the bound
    expression model and the rewrites that read it — predicate pushdown,
    metadata `COUNT(*)`, dropping one-row inputs under a grouping, join
    inference and ordering, and join-constant propagation.
  - `constant_fold`, `rule_pipeline`: constant folding of plans and
    expressions, and `Optimizer::optimize`, which applies the rewrites in
    order.
  - `scalar_eval`, `vector_kernel`: row-at-a-time evaluation of the text
    and JSON-constructor functions, and column-at-a-time evaluation of
    integer expressions over a batch.
  - `memory_bounds`: per-row allocation and text-length bounds of compiled
    expressions.
  - `numbers`, `fold`, `predicate`, `json_text`: numeric prefixes and
    grouping, case folding, direct predicate evaluation, and JSON text.
- `tests/` — the test suite, run against the compiled library.
- `app/` — ordinary Rust around the library: the per-thread session zone,
  the bridge from `serde_json` documents to the library's JSON model, the
  floating-point conversions and the regex engine.

Calls into chrono, chrono-tz, serde_json, md-5, unicode-normalization and
unicode-casefold go through small trusted
wrappers whose doc comments say what each contract claims of the crate.
