//! The sift engine: stage steps and temporal checks, stage matching,
//! negation windows, standalone evaluation and gap analysis.

pub mod steps;
pub mod stage;
pub mod negation;
pub mod free;
pub mod sift;
pub mod fingerprint;
pub mod eval;

pub use crate::let_evaluator::{DefaultLetEvaluator, LetEvaluator, NoLetEvaluator};
pub use crate::types::{
    BoundValue, ClauseAnalysis, EngineStats, GapAnalysis, Match, MatchState, PartialMatch,
    PatternMetrics, PlantPayoffPair, PlantStatus, SiftEvent, StageAnalysis, StageStatus, TickDelta,
};
pub use free::{
    evaluate_pattern, evaluate_pattern_at, evaluate_pattern_first, evaluate_pattern_limit,
    gap_analysis, gap_analysis_at,
};
pub use sift::SiftEngine;

use crate::datasource::DataSource;
use vstd::prelude::*;

verus! {

/// The engine type for a graph type: its node, label and value types, with
/// the let evaluator as the second parameter.
pub type SiftEngineFor<DS, E = DefaultLetEvaluator> = SiftEngine<
    <DS as DataSource>::N,
    <DS as DataSource>::L,
    <DS as DataSource>::V,
    E,
>;

} // verus!
