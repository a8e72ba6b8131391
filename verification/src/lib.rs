//! Incremental pattern matching over temporal graphs: Allen interval
//! algebra, value constraints, pattern construction and composition,
//! let-expressions, the sift engine (batch and incremental evaluation,
//! partial-match tracking, gap analysis, pattern lifecycle) and frequency
//! tables for surprise scoring.

use vstd::prelude::*;

pub mod interval;
pub mod datasource;
pub mod strmap;
pub mod text;
pub mod types;
pub mod expr;
pub mod let_evaluator;
pub mod pattern;
pub mod builder;
pub mod compose;
pub mod matching;
pub mod engine;
pub mod scoring;
pub mod prelude;

verus! {
} // verus!
