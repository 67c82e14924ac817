//! A verified AST-to-IR transformation pipeline.
//!
//! The library takes a syntax tree produced by an external parser, converts
//! it into an intermediate representation annotated with control-flow tags
//! and per-node dependency sets, prunes grouping constructs, extracts
//! independent declaration segments, and expands each segment's dependency
//! set by one hop through the other segments.

pub mod ast;
pub mod ir;
pub mod resolve;
pub mod segment;
pub mod wire;
