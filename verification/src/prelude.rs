//! Convenience re-exports for common usage.

pub use crate::builder::PatternBuilder;
pub use crate::datasource::{DataSource, ValueConstraint};
pub use crate::engine::{
    BoundValue, ClauseAnalysis, EngineStats, GapAnalysis, Match, MatchState, PartialMatch,
    SiftEngine, SiftEvent, StageAnalysis, StageStatus,
};
pub use crate::interval::{AllenRelation, Interval};
pub use crate::pattern::{
    Clause, MetricGap, Negation, Pattern, Stage, Target, TemporalConstraint, Var,
};
