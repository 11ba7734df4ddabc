//! Expression semantics and logical planning of the Pintail SQL engine:
//! comparison and three-valued logic, checked integer and exact DECIMAL
//! arithmetic, MySQL's JSON comparison ladder and paths, temporal parsing
//! and formatting, the text and encoding functions, and the logical plan
//! rewrites, each with its contract.

pub mod aggregate_rules;
pub mod arithmetic;
pub mod bound_expr;
pub mod calendar;
pub mod chars;
pub mod compare;
pub mod constant_fold;
pub mod decimal;
pub mod decimal_chain;
pub mod digest;
pub mod encoding;
pub mod fixed_point;
pub mod fold;
pub mod interval;
pub mod join_constants;
pub mod join_order;
pub mod join_order_laws;
pub mod json_laws;
pub mod json_number_laws;
pub mod json_order;
pub mod json_path;
pub mod json_text;
pub mod like;
pub mod logic_laws;
pub mod logical;
pub mod memory_bounds;
pub mod numbers;
pub mod optimizer;
pub mod parts;
pub mod predicate;
pub mod pushdown;
pub mod rule_pipeline;
pub mod scalar_eval;
pub mod pushdown_laws;
pub mod regex_text;
pub mod session;
pub mod str_to_date;
pub mod temporal;
pub mod text;
pub mod time_text;
pub mod vector_kernel;
pub mod zone;
