//! Code formatter for Carina DSL
//!
//! Provides formatting similar to `terraform fmt` for .crn files.
//! Preserves comments and normalizes whitespace.

pub mod config;
pub mod cst;
pub mod format;
pub mod parser;
pub mod diff;
