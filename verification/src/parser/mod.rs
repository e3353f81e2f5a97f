//! Analyses of a parsed BSV document: folding ranges, symbols, references,
//! and the call around a cursor.
pub mod folding;
pub mod references;
pub mod outline;
pub mod calls;
pub mod symbol_order;
pub mod outline_coverage;
