//! An interpreter for the eight-symbol tape language: a compiler from source
//! bytes to run-length-encoded instructions with resolved loop targets, and an
//! execution engine over a circular tape of byte cells.

pub mod compile;
pub mod executor;
pub mod instruction;
pub mod laws;
