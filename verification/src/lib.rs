//! An LR(1) parser generator and table-driven parser with syntax-error
//! recovery.
//!
//! From a grammar's productions the library computes FIRST sets, builds
//! the canonical collection of LR(1) item sets, derives the action and
//! goto tables, and drives a shift-reduce engine that consumes a token
//! stream, builds a parse tree and recovers from malformed input instead
//! of stopping at the first error.

pub mod derivation;
pub mod engine;
pub mod grammar;
pub mod lr1;
pub mod types;
