pub mod constant_expansion;
pub mod numbers;
pub mod position;
pub mod syntax;
pub mod text;
pub mod pattern;
pub mod symbols;
pub mod parser;
pub mod diagnostics;
pub mod formatter;
pub mod utils;
pub mod requests;
pub mod indentation;
