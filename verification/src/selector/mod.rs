//! The selector language: parsing, path extraction, filters, edits and
//! pipelines.
pub mod execute;
pub mod extract;
pub mod filter;
pub mod literal;
pub mod manipulate;
pub mod parser;
pub mod types;

pub use types::{
    Builtin, CompareOp, Condition, Expression, FilterExpr, Index, LiteralValue, LogicOp, PipeStage,
    Pipeline, Segment, Selector,
};
pub use execute::{execute, execute_pipeline};
pub use extract::{apply_builtin, extract};
pub use crate::value::value_type_name;
