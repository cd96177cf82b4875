//! Style checks and fixes for Rust source files: import formatting, module
//! ordering, export and import restrictions, and in-source suppressions.
use vstd::prelude::*;

pub mod config;
pub mod diagnostic;
pub mod files;
pub mod lexis;
pub mod output;
pub mod pass;
pub mod paths;
pub mod report;
pub mod rules;
pub mod sort;
pub mod suppression;
pub mod syntax;
pub mod text;

verus! {
} // verus!
