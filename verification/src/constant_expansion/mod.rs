//! `#define` constants: reading their definitions and showing how they expand.
pub mod parser;
pub mod types;

pub use parser::{parse_i64, ConstantParser};
pub use types::{ConstantDef, ExpansionResult, ExpansionStep, TypeFunction};
