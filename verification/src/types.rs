//! Records the sift engine hands out: bound values, matches, partial matches,
//! events, gap analyses, counters and plant/payoff tracking.

use crate::interval::Interval;
use crate::strmap::StrMap;
use vstd::prelude::*;

verus! {

/// A value bound to a variable — either a node reference or a data value.
#[derive(Debug, PartialEq, Eq, Hash)]
pub enum BoundValue<N, V> {
    /// A graph node (can be followed as a source in subsequent clauses).
    Node(N),
    /// A data value (string, number, boolean — not traversable).
    Value(V),
}

impl<N: Clone, V: Clone> Clone for BoundValue<N, V> {
    fn clone(&self) -> (r: Self)
        ensures
            match (*self, r) {
                (BoundValue::Node(a), BoundValue::Node(b)) => cloned(a, b),
                (BoundValue::Value(a), BoundValue::Value(b)) => cloned(a, b),
                _ => false,
            },
    {
        match self {
            BoundValue::Node(n) => BoundValue::Node(n.clone()),
            BoundValue::Value(v) => BoundValue::Value(v.clone()),
        }
    }
}

/// A clone of a bound value is equal to it when its node and value types
/// clone exactly.
pub proof fn lemma_bound_value_clone_exact<N: Clone, V: Clone>(a: BoundValue<N, V>, b: BoundValue<N, V>)
    requires
        crate::datasource::clone_exact::<N>(),
        crate::datasource::clone_exact::<V>(),
        cloned(a, b),
    ensures
        a == b,
{
    if !(a == b) {
        match (a, b) {
            (BoundValue::Node(x), BoundValue::Node(y)) => {
                assert(cloned(x, y));
            },
            (BoundValue::Value(x), BoundValue::Value(y)) => {
                assert(cloned(x, y));
            },
            _ => {},
        }
    }
}

/// Variable name -> bound node or value.
pub type Bindings<N, V> = StrMap<BoundValue<N, V>>;

/// A complete match — all stages satisfied, temporal constraints met,
/// negation windows clear.
#[derive(Debug, Clone)]
pub struct Match<N, V, T> {
    /// Which pattern matched.
    pub pattern: String,
    /// Index of the pattern in the engine's registry, when known.
    pub pattern_idx: Option<usize>,
    /// Variable -> bound node or value.
    pub bindings: StrMap<BoundValue<N, V>>,
    /// Stage anchor variable -> matched time interval.
    pub intervals: StrMap<Interval<T>>,
    /// Metadata from the matched pattern, propagated for downstream consumers.
    pub metadata: StrMap<String>,
}

/// A partial match — some stages satisfied, waiting for more events.
#[derive(Debug)]
pub struct PartialMatch<N, V, T> {
    /// Index of the pattern in the engine's pattern list.
    pub pattern_idx: usize,
    /// Variable -> bound value so far.
    pub bindings: StrMap<BoundValue<N, V>>,
    /// Intervals of matched stage anchors (for temporal constraint checking).
    pub intervals: StrMap<Interval<T>>,
    /// Index of the next stage to match (0-indexed).
    pub next_stage: usize,
    /// Current state.
    pub state: MatchState,
    /// Unique id for tracking.
    pub id: usize,
    /// Timestamp when this partial match was first initiated.
    pub created_at: T,
    /// Precomputed dedup hash of (pattern_idx, next_stage, bindings, intervals).
    pub fingerprint: u64,
    /// Engine tick at which this partial match was first created.
    /// Used for deadline-based expiration. Inherited on advancement.
    pub created_at_tick: u64,
    /// Engine tick at which this partial match last advanced.
    pub last_advanced_tick: u64,
    /// Completed repetitions of the pattern's repeat range.
    pub repetition_count: u32,
    /// Bit set of the matched stages of the current unordered group.
    pub matched_stages: u64,
}

/// `b` is a copy of the partial match `a`: equal counters, ids and state,
/// the same binding and interval keys, each value a clone.
pub open spec fn pm_copied<N: Clone, V: Clone, T: Clone>(a: PartialMatch<N, V, T>, b: PartialMatch<N, V, T>) -> bool {
    &&& b.pattern_idx == a.pattern_idx
    &&& b.next_stage == a.next_stage
    &&& b.state == a.state
    &&& b.id == a.id
    &&& b.fingerprint == a.fingerprint
    &&& b.created_at_tick == a.created_at_tick
    &&& b.last_advanced_tick == a.last_advanced_tick
    &&& b.repetition_count == a.repetition_count
    &&& b.matched_stages == a.matched_stages
    &&& cloned(a.created_at, b.created_at)
    &&& b.bindings@.dom() == a.bindings@.dom()
    &&& forall|k: Seq<char>| #[trigger] b.bindings@.contains_key(k) ==> cloned(a.bindings@[k], b.bindings@[k])
    &&& b.intervals@.dom() == a.intervals@.dom()
    &&& forall|k: Seq<char>| #[trigger] b.intervals@.contains_key(k) ==> cloned(a.intervals@[k], b.intervals@[k])
}

impl<N: Clone, V: Clone, T: Clone> Clone for PartialMatch<N, V, T> {
    fn clone(&self) -> (r: Self)
        ensures
            pm_copied(*self, r),
    {
        PartialMatch {
            pattern_idx: self.pattern_idx,
            bindings: self.bindings.duplicate(),
            intervals: self.intervals.duplicate(),
            next_stage: self.next_stage,
            state: self.state,
            id: self.id,
            created_at: self.created_at.clone(),
            fingerprint: self.fingerprint,
            created_at_tick: self.created_at_tick,
            last_advanced_tick: self.last_advanced_tick,
            repetition_count: self.repetition_count,
            matched_stages: self.matched_stages,
        }
    }
}

/// State of a partial match.
#[derive(Debug, Clone, Copy, PartialEq, Eq, Structural)]
pub enum MatchState {
    /// Waiting for the next stage to match.
    Active,
    /// All stages matched — this is a complete match.
    Complete,
    /// Killed by a negation window.
    Dead,
}

/// Events emitted by incremental matching.
#[derive(Debug)]
pub enum SiftEvent<N, V> {
    /// A partial match advanced (new stage satisfied).
    Advanced {
        pattern: String,
        match_id: usize,
        stage_index: usize,
        metadata: StrMap<String>,
    },
    /// A pattern fully matched.
    Completed {
        pattern: String,
        match_id: usize,
        bindings: StrMap<BoundValue<N, V>>,
        metadata: StrMap<String>,
    },
    /// A partial match was killed by a negation.
    Negated {
        pattern: String,
        match_id: usize,
        /// Which negation clause's label triggered the kill.
        clause_label: String,
        /// The source node of the edge that triggered the kill.
        trigger_source: N,
        metadata: StrMap<String>,
    },
    /// A partial match expired — its pattern's deadline was exceeded.
    Expired {
        pattern: String,
        match_id: usize,
        bindings: StrMap<BoundValue<N, V>>,
        /// How far the PM got (next_stage index at time of expiry).
        stage_reached: usize,
        /// How many ticks elapsed since the PM was created.
        ticks_elapsed: u64,
        metadata: StrMap<String>,
    },
}

/// Result of `why_not` — clause-by-clause analysis of why a pattern didn't match.
#[derive(Debug)]
pub struct GapAnalysis {
    pub pattern: String,
    pub stages: Vec<StageAnalysis>,
}

/// Per-stage part of a gap analysis.
#[derive(Debug)]
pub struct StageAnalysis {
    pub anchor: String,
    pub status: StageStatus,
    pub clauses: Vec<ClauseAnalysis>,
}

/// How much of a stage matched.
#[derive(Debug, Clone, Copy, PartialEq, Eq, Structural)]
pub enum StageStatus {
    Matched,
    PartiallyMatched { matched: usize, total: usize },
    Unmatched,
}

/// Per-clause part of a gap analysis.
#[derive(Debug)]
pub struct ClauseAnalysis {
    pub description: String,
    pub matched: bool,
    pub reason: Option<String>,
}

/// The number of clauses that matched in the stage analyses, and the number of clauses.
pub open spec fn clause_tally(stages: Seq<StageAnalysis>) -> (int, int)
    decreases stages.len(),
{
    if stages.len() == 0 {
        (0, 0)
    } else {
        let rest = clause_tally(stages.drop_last());
        let cs = stages.last().clauses@;
        (rest.0 + cs.filter(|c: ClauseAnalysis| c.matched).len(), rest.1 + cs.len())
    }
}

impl GapAnalysis {
    /// Count the matched clauses and all clauses across the stages: the
    /// numerator and denominator of how close the pattern came to matching.
    pub fn clause_counts(&self) -> (r: (usize, usize))
        requires
            clause_tally(self.stages@).1 <= usize::MAX,
        ensures
            r.0 == clause_tally(self.stages@).0,
            r.1 == clause_tally(self.stages@).1,
    {
        let mut total: usize = 0;
        let mut matched: usize = 0;
        let mut i: usize = 0;
        while i < self.stages.len()
            invariant
                i <= self.stages@.len(),
                clause_tally(self.stages@).1 <= usize::MAX,
                matched == clause_tally(self.stages@.take(i as int)).0,
                total == clause_tally(self.stages@.take(i as int)).1,
            decreases self.stages@.len() - i,
        {
            let cs = &self.stages[i].clauses;
            let ghost before = self.stages@.take(i as int);
            proof {
                assert(self.stages@.take(i + 1).drop_last() =~= before);
                lemma_tally_monotone(self.stages@, i + 1);
            }
            let mut j: usize = 0;
            let mut m: usize = 0;
            while j < cs.len()
                invariant
                    j <= cs@.len(),
                    m == cs@.take(j as int).filter(|c: ClauseAnalysis| c.matched).len(),
                    m <= j,
                decreases cs@.len() - j,
            {
                proof {
                    let f = |c: ClauseAnalysis| c.matched;
                    assert(cs@.take(j + 1) =~= cs@.take(j as int).push(cs@[j as int]));
                    cs@.take(j as int).lemma_filter_len_push(f, cs@[j as int]);
                    cs@.take(j as int).lemma_filter_len(f);
                }
                if cs[j].matched {
                    m = m + 1;
                }
                j = j + 1;
            }
            proof {
                assert(cs@.take(cs@.len() as int) =~= cs@);
            }
            total = total + cs.len();
            matched = matched + m;
            i = i + 1;
        }
        proof {
            assert(self.stages@.take(self.stages@.len() as int) =~= self.stages@);
        }
        (matched, total)
    }
}

proof fn lemma_tally_monotone(s: Seq<StageAnalysis>, n: int)
    requires
        0 <= n <= s.len(),
    ensures
        clause_tally(s.take(n)).1 <= clause_tally(s).1,
        clause_tally(s.take(n)).0 <= clause_tally(s.take(n)).1,
    decreases s.len(),
{
    lemma_tally_bounded(s.take(n));
    if n < s.len() {
        assert(s.drop_last().take(n) =~= s.take(n));
        lemma_tally_monotone(s.drop_last(), n);
    } else {
        assert(s.take(n) =~= s);
    }
}

proof fn lemma_tally_bounded(s: Seq<StageAnalysis>)
    ensures
        0 <= clause_tally(s).0 <= clause_tally(s).1,
    decreases s.len(),
{
    if s.len() > 0 {
        lemma_tally_bounded(s.drop_last());
        s.last().clauses@.lemma_filter_len(|c: ClauseAnalysis| c.matched);
    }
}

/// Cumulative operation counters for performance analysis.
#[derive(Debug, Clone, Copy)]
pub struct EngineStats {
    /// Number of `on_edge_added()` (incremental) calls.
    pub total_on_edge_added: u64,
    /// Fingerprint work: initial dedup set builds + per-candidate checks.
    pub total_fingerprints: u64,
    /// Negation checks attempted (once per active PM per `on_edge_added`).
    pub total_negation_checks: u64,
    /// High-water mark of active partial matches.
    pub peak_active_pms: usize,
}

impl Default for EngineStats {
    fn default() -> (r: Self)
        ensures
            r.total_on_edge_added == 0,
            r.total_fingerprints == 0,
            r.total_negation_checks == 0,
            r.peak_active_pms == 0,
    {
        EngineStats {
            total_on_edge_added: 0,
            total_fingerprints: 0,
            total_negation_checks: 0,
            peak_active_pms: 0,
        }
    }
}

/// Per-pattern lifecycle metrics.
#[derive(Debug, Clone, Copy)]
pub struct PatternMetrics {
    /// Whether the pattern is enabled for matching.
    pub enabled: bool,
    /// Last tick at which any PM for this pattern advanced or completed.
    pub last_advanced_tick: u64,
    /// Total completions (cumulative).
    pub completion_count: u64,
    /// Total stage advancements (cumulative).
    pub advancement_count: u64,
    /// Total negation kills (cumulative).
    pub negation_count: u64,
    /// Number of currently active partial matches.
    pub active_pm_count: usize,
}

/// Summary of what changed in one tick.
#[derive(Debug, Clone)]
pub struct TickDelta {
    /// Patterns that had at least one PM advance this tick.
    pub advanced: Vec<String>,
    /// Patterns that completed this tick.
    pub completed: Vec<String>,
    /// Patterns that had PMs negated this tick.
    pub negated: Vec<String>,
    /// Patterns that had PMs expire (deadline exceeded) this tick.
    pub expired: Vec<String>,
    /// Patterns with active PMs that have not advanced for `stale_threshold` ticks.
    pub stalled: Vec<String>,
    /// Total active PM count across all patterns.
    pub active_pm_count: usize,
}

/// A registered plant/payoff pair: the plant pattern is narrative setup, the
/// payoff pattern its resolution.
#[derive(Debug)]
pub struct PlantPayoffPair {
    /// Pattern index of the plant (setup).
    pub plant_idx: usize,
    /// Pattern index of the payoff (resolution).
    pub payoff_idx: usize,
    /// Optional shared variable that must match across the pair.
    pub shared_binding: Option<String>,
}

impl Clone for PlantPayoffPair {
    fn clone(&self) -> (r: Self)
        ensures
            r == *self,
    {
        let shared_binding = match &self.shared_binding {
            Some(s) => Some(s.clone()),
            None => None,
        };
        PlantPayoffPair { plant_idx: self.plant_idx, payoff_idx: self.payoff_idx, shared_binding }
    }
}

/// Status of a single plant.
#[derive(Debug, Clone)]
pub struct PlantStatus {
    /// Plant pattern name.
    pub plant_pattern: String,
    /// Payoff pattern name.
    pub payoff_pattern: String,
    /// Number of active plant PMs (unresolved setups).
    pub active_plants: usize,
    /// Number of payoff completions (resolved setups).
    pub payoff_completions: u64,
    /// Ticks since the plant pattern last advanced.
    pub ticks_since_plant_advanced: u64,
    /// Whether the plant is stale (no advancement for a long time with active PMs).
    pub stale: bool,
}

} // verus!
