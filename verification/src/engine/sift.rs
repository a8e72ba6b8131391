//! The sift engine: registered patterns, their partial matches and
//! per-pattern lifecycle state (enabled flags, metrics, staleness,
//! plant/payoff pairs, per-tick summaries).

use crate::engine::steps::{engine_ready, groups_in_range};
use crate::pattern::Pattern;
use crate::strmap::StrMap;
use crate::text::{all_distinct, sort_strings, sorted_strictly, views};
use crate::types::{
    BoundValue, EngineStats, GapAnalysis, Match, MatchState, PartialMatch, PatternMetrics, PlantPayoffPair, PlantStatus, SiftEvent,
    TickDelta,
};
use crate::datasource::{lawful, DataSource};
use crate::interval::Interval;
use crate::let_evaluator::LetEvaluator;
use crate::engine::eval::sat_inc;
use crate::scoring::surprise::{pattern_names, position_of};
use std::fmt::Debug;
use std::hash::Hash;
use vstd::prelude::*;
use vstd::std_specs::cmp::PartialEqSpec;

verus! {

/// The sift engine, generic over node, label and value types and over the
/// evaluator of stage `let` bindings. Times are `i64`.
///
/// It stores patterns and partial matches; methods that need the graph take
/// it as a parameter, so the engine can outlive any particular graph.
pub struct SiftEngine<N, L, V, E> {
    pub(crate) patterns: Vec<Pattern<L, V>>,
    pub(crate) partial_matches: Vec<PartialMatch<N, V, i64>>,
    pub(crate) next_match_id: usize,
    pub(crate) stats: EngineStats,
    pub(crate) enabled: Vec<bool>,
    pub(crate) last_advanced_tick: Vec<u64>,
    pub(crate) completion_count: Vec<u64>,
    pub(crate) advancement_count: Vec<u64>,
    pub(crate) negation_count: Vec<u64>,
    pub(crate) tick_counter: u64,
    pub(crate) plant_payoff_pairs: Vec<PlantPayoffPair>,
    pub(crate) tick_advanced: Vec<String>,
    pub(crate) tick_completed: Vec<String>,
    pub(crate) tick_negated: Vec<String>,
    pub(crate) tick_expired: Vec<String>,
    pub(crate) let_evaluator: E,
}

/// No string occurs twice (by its characters).
pub open spec fn distinct_names(s: Seq<String>) -> bool {
    forall|i: int, j: int| 0 <= i < s.len() && 0 <= j < s.len() && i != j ==> (#[trigger] s[i])@ != (#[trigger] s[j])@
}

/// No two partial matches share an id.
pub open spec fn ids_distinct<N, V>(s: Seq<PartialMatch<N, V, i64>>) -> bool {
    forall|i: int, j: int| 0 <= i < s.len() && 0 <= j < s.len() && i != j ==> (#[trigger] s[i]).id != (#[trigger] s[j]).id
}

/// Filtering keeps ids distinct.
pub proof fn lemma_filter_ids_distinct<N, V>(s: Seq<PartialMatch<N, V, i64>>, f: spec_fn(PartialMatch<N, V, i64>) -> bool)
    requires
        ids_distinct(s),
    ensures
        ids_distinct(s.filter(f)),
    decreases s.len(),
{
    if s.len() > 0 {
        let t = s.drop_last();
        let x = s.last();
        assert(ids_distinct(t)) by {
            assert forall|i: int, j: int| 0 <= i < t.len() && 0 <= j < t.len() && i != j implies (#[trigger] t[i]).id != (#[trigger] t[j]).id by {
                assert(t[i] == s[i] && t[j] == s[j]);
            }
        }
        lemma_filter_ids_distinct(t, f);
        assert(s =~= t.push(x));
        t.lemma_filter_push(x, f);
        if f(x) {
            lemma_filter_sub(t, f);
            let ft = t.filter(f);
            assert forall|i: int| 0 <= i < ft.len() implies (#[trigger] ft[i]).id != x.id by {
                assert(t.contains(ft[i]));
                let w = choose|w: int| 0 <= w < t.len() && #[trigger] t[w] == ft[i];
                assert(s[w] == t[w]);
                assert(s[s.len() - 1] == x);
            }
            let fs = s.filter(f);
            assert(fs =~= ft.push(x));
            assert forall|i: int, j: int| 0 <= i < fs.len() && 0 <= j < fs.len() && i != j implies (#[trigger] fs[i]).id != (#[trigger] fs[j]).id by {
                if i < ft.len() && j < ft.len() {
                    assert(fs[i] == ft[i] && fs[j] == ft[j]);
                } else if i < ft.len() {
                    assert(fs[i] == ft[i]);
                } else if j < ft.len() {
                    assert(fs[j] == ft[j]);
                }
            }
        }
    } else {
        assert(s.filter(f) =~= Seq::<PartialMatch<N, V, i64>>::empty());
    }
}

/// Some pattern with this name is private (its results are not reported).
pub open spec fn hidden<L, V>(patterns: Seq<Pattern<L, V>>, name: Seq<char>) -> bool {
    exists|p: int| 0 <= p < patterns.len() && (#[trigger] patterns[p]).name@ == name && patterns[p].private
}

/// Every complete partial match of `pms` has passed the last stage of its
/// pattern.
pub open spec fn past_end<N, V, L>(pms: Seq<PartialMatch<N, V, i64>>, patterns: Seq<Pattern<L, V>>) -> bool {
    forall|i: int|
        0 <= i < pms.len() && (#[trigger] pms[i]).state == MatchState::Complete ==> pms[i].next_stage
            >= patterns[pms[i].pattern_idx as int].stages@.len()
}

/// A new partial match keeps the complete ones past their end.
pub proof fn lemma_past_end_push<N, V, L>(s: Seq<PartialMatch<N, V, i64>>, x: PartialMatch<N, V, i64>, patterns: Seq<Pattern<L, V>>)
    requires
        past_end(s, patterns),
        x.state == MatchState::Complete ==> x.next_stage >= patterns[x.pattern_idx as int].stages@.len(),
    ensures
        past_end(s.push(x), patterns),
{
    let t = s.push(x);
    assert forall|i: int| 0 <= i < t.len() && (#[trigger] t[i]).state == MatchState::Complete implies t[i].next_stage
        >= patterns[t[i].pattern_idx as int].stages@.len() by {
        if i < s.len() {
            assert(t[i] == s[i]);
        }
    }
}

/// Two runs whose complete partial matches are past their end form one.
pub proof fn lemma_past_end_concat<N, V, L>(a: Seq<PartialMatch<N, V, i64>>, b: Seq<PartialMatch<N, V, i64>>, patterns: Seq<Pattern<L, V>>)
    requires
        past_end(a, patterns),
        past_end(b, patterns),
    ensures
        past_end(a + b, patterns),
{
    let t = a + b;
    assert forall|i: int| 0 <= i < t.len() && (#[trigger] t[i]).state == MatchState::Complete implies t[i].next_stage
        >= patterns[t[i].pattern_idx as int].stages@.len() by {
        if i < a.len() {
            assert(t[i] == a[i]);
        } else {
            assert(t[i] == b[i - a.len()]);
        }
    }
}

/// A partial match is active and belongs to pattern `idx`.
pub open spec fn active_of<N, V>(pm: PartialMatch<N, V, i64>, idx: usize) -> bool {
    pm.pattern_idx == idx && pm.state == MatchState::Active
}

/// The partial match is active (and, when `idx` is given, of pattern `idx`).
pub open spec fn active_pred<N, V>(idx: Option<usize>) -> spec_fn(PartialMatch<N, V, i64>) -> bool {
    |pm: PartialMatch<N, V, i64>| pm.state == MatchState::Active && (idx matches Some(i) ==> pm.pattern_idx == i)
}

/// Number of active partial matches (of pattern `idx`, when given).
pub open spec fn active_count<N, V>(pms: Seq<PartialMatch<N, V, i64>>, idx: Option<usize>) -> nat {
    pms.filter(active_pred::<N, V>(idx)).len()
}

/// `a - b`, or 0 when `b` exceeds `a`.
pub open spec fn sat_sub(a: u64, b: u64) -> u64 {
    if a >= b {
        (a - b) as u64
    } else {
        0
    }
}

/// Count the active partial matches (of pattern `idx`, when given).
pub(crate) fn count_active<N, V>(pms: &Vec<PartialMatch<N, V, i64>>, idx: Option<usize>) -> (r: usize)
    ensures
        r == active_count(pms@, idx),
{
    let ghost f = active_pred::<N, V>(idx);
    let mut n: usize = 0;
    let mut i: usize = 0;
    while i < pms.len()
        invariant
            i <= pms@.len(),
            f == active_pred::<N, V>(idx),
            n == pms@.take(i as int).filter(f).len(),
            n <= i,
        decreases pms@.len() - i,
    {
        proof {
            assert(pms@.take(i + 1) =~= pms@.take(i as int).push(pms@[i as int]));
            pms@.take(i as int).lemma_filter_len_push(f, pms@[i as int]);
        }
        let pm = &pms[i];
        let hit = pm.state == MatchState::Active && match idx {
            Some(k) => pm.pattern_idx == k,
            None => true,
        };
        if hit {
            n = n + 1;
        }
        i = i + 1;
    }
    proof {
        assert(pms@.take(pms@.len() as int) =~= pms@);
    }
    n
}

/// Is some pattern with this name private?
pub(crate) fn name_hidden<L, V>(patterns: &Vec<Pattern<L, V>>, name: &String) -> (r: bool)
    ensures
        r == hidden(patterns@, name@),
{
    let mut p: usize = 0;
    while p < patterns.len()
        invariant
            p <= patterns@.len(),
            forall|q: int| 0 <= q < p ==> !((#[trigger] patterns@[q]).name@ == name@ && patterns@[q].private),
        decreases patterns@.len() - p,
    {
        if patterns[p].name == *name && patterns[p].private {
            return true;
        }
        p = p + 1;
    }
    false
}

impl<N, L, V, E> SiftEngine<N, L, V, E> {
    /// The evaluator of `let` bindings.
    pub closed spec fn evaluator_spec(self) -> E {
        self.let_evaluator
    }

    /// The registered patterns.
    pub closed spec fn pattern_seq(self) -> Seq<Pattern<L, V>> {
        self.patterns@
    }

    /// The stored partial matches.
    pub closed spec fn pm_seq(self) -> Seq<PartialMatch<N, V, i64>> {
        self.partial_matches@
    }

    /// The enabled flag of each pattern.
    pub closed spec fn enabled_seq(self) -> Seq<bool> {
        self.enabled@
    }

    /// The tick counter.
    pub closed spec fn tick_count(self) -> u64 {
        self.tick_counter
    }

    /// The last tick at which each pattern advanced or completed.
    pub closed spec fn last_advanced_seq(self) -> Seq<u64> {
        self.last_advanced_tick@
    }

    /// Completions of each pattern.
    pub closed spec fn completion_seq(self) -> Seq<u64> {
        self.completion_count@
    }

    /// Advancements of each pattern.
    pub closed spec fn advancement_seq(self) -> Seq<u64> {
        self.advancement_count@
    }

    /// Negations (and expirations) of each pattern.
    pub closed spec fn negation_seq(self) -> Seq<u64> {
        self.negation_count@
    }

    /// The operation counters.
    pub closed spec fn stats_spec(self) -> EngineStats {
        self.stats
    }

    /// The registered plant/payoff pairs.
    pub closed spec fn pair_seq(self) -> Seq<PlantPayoffPair> {
        self.plant_payoff_pairs@
    }

    /// The names of patterns with events in the current tick, by kind.
    pub closed spec fn tick_names(self) -> (Seq<String>, Seq<String>, Seq<String>, Seq<String>) {
        (self.tick_advanced@, self.tick_completed@, self.tick_negated@, self.tick_expired@)
    }

    /// The id the next partial match gets.
    pub closed spec fn next_id(self) -> usize {
        self.next_match_id
    }

    /// The registry with its enabled flags and per-pattern counters, the
    /// partial matches, the id counter and the per-tick name lists are as
    /// in `other`.
    pub open spec fn same_core(self, other: Self) -> bool {
        &&& self.pattern_seq() == other.pattern_seq()
        &&& self.enabled_seq() == other.enabled_seq()
        &&& self.last_advanced_seq() == other.last_advanced_seq()
        &&& self.completion_seq() == other.completion_seq()
        &&& self.advancement_seq() == other.advancement_seq()
        &&& self.negation_seq() == other.negation_seq()
        &&& self.pm_seq() == other.pm_seq()
        &&& self.next_id() == other.next_id()
        &&& self.tick_names() == other.tick_names()
    }

    /// The engine's internal consistency: one entry of each per-pattern
    /// table per pattern, every partial match belongs to a registered
    /// pattern and is active or complete, every pattern's unordered groups
    /// name its stages, and the per-tick name lists hold no duplicates.
    pub closed spec fn wf(self) -> bool {
        &&& self.enabled@.len() == self.patterns@.len()
        &&& self.last_advanced_tick@.len() == self.patterns@.len()
        &&& self.completion_count@.len() == self.patterns@.len()
        &&& self.advancement_count@.len() == self.patterns@.len()
        &&& self.negation_count@.len() == self.patterns@.len()
        &&& forall|i: int| 0 <= i < self.partial_matches@.len() ==> (#[trigger] self.partial_matches@[i]).pattern_idx
            < self.patterns@.len()
        &&& forall|i: int| 0 <= i < self.partial_matches@.len() ==> (#[trigger] self.partial_matches@[i]).state
            != MatchState::Dead
        &&& forall|i: int| 0 <= i < self.partial_matches@.len() ==> (#[trigger] self.partial_matches@[i]).last_advanced_tick
            <= self.tick_counter
        &&& forall|i: int| 0 <= i < self.partial_matches@.len() ==> (#[trigger] self.partial_matches@[i]).created_at_tick
            <= self.tick_counter
        &&& forall|i: int| 0 <= i < self.partial_matches@.len() ==> (#[trigger] self.partial_matches@[i]).id
            < self.next_match_id
        &&& ids_distinct(self.partial_matches@)
        &&& past_end(self.partial_matches@, self.patterns@)
        &&& forall|p: int| 0 <= p < self.patterns@.len() ==> engine_ready(#[trigger] self.patterns@[p])
        &&& distinct_names(self.tick_advanced@)
        &&& distinct_names(self.tick_completed@)
        &&& distinct_names(self.tick_negated@)
        &&& distinct_names(self.tick_expired@)
    }

    /// A well-formed engine has one enabled flag per registered pattern.
    pub proof fn lemma_enabled_per_pattern(self)
        requires
            self.wf(),
        ensures
            self.enabled_seq().len() == self.pattern_seq().len(),
    {
    }

    /// Create a new empty engine with the given let evaluator.
    pub fn new(let_evaluator: E) -> (r: Self)
        ensures
            r.wf(),
            r.pattern_seq().len() == 0,
            r.pm_seq().len() == 0,
            r.tick_count() == 0,
            r.next_id() == 0,
            r.pair_seq().len() == 0,
            r.stats_spec() == (EngineStats {
                total_on_edge_added: 0,
                total_fingerprints: 0,
                total_negation_checks: 0,
                peak_active_pms: 0,
            }),
    {
        SiftEngine {
            patterns: Vec::new(),
            partial_matches: Vec::new(),
            next_match_id: 0,
            stats: EngineStats::default(),
            enabled: Vec::new(),
            last_advanced_tick: Vec::new(),
            completion_count: Vec::new(),
            advancement_count: Vec::new(),
            negation_count: Vec::new(),
            tick_counter: 0,
            plant_payoff_pairs: Vec::new(),
            tick_advanced: Vec::new(),
            tick_completed: Vec::new(),
            tick_negated: Vec::new(),
            tick_expired: Vec::new(),
            let_evaluator,
        }
    }

    /// Register a pattern. Returns its index.
    pub fn register(&mut self, pattern: Pattern<L, V>) -> (r: usize)
        requires
            old(self).wf(),
            engine_ready(pattern),
            old(self).pattern_seq().len() < usize::MAX,
        ensures
            final(self).wf(),
            r == old(self).pattern_seq().len(),
            final(self).pattern_seq() == old(self).pattern_seq().push(pattern),
            final(self).enabled_seq() == old(self).enabled_seq().push(true),
            final(self).last_advanced_seq() == old(self).last_advanced_seq().push(0),
            final(self).completion_seq() == old(self).completion_seq().push(0),
            final(self).advancement_seq() == old(self).advancement_seq().push(0),
            final(self).negation_seq() == old(self).negation_seq().push(0),
            final(self).pm_seq() == old(self).pm_seq(),
            final(self).tick_count() == old(self).tick_count(),
            final(self).pair_seq() == old(self).pair_seq(),
            final(self).next_id() == old(self).next_id(),
            final(self).stats_spec() == old(self).stats_spec(),
            final(self).tick_names() == old(self).tick_names(),
    {
        let idx = self.patterns.len();
        self.patterns.push(pattern);
        self.enabled.push(true);
        self.last_advanced_tick.push(0);
        self.completion_count.push(0);
        self.advancement_count.push(0);
        self.negation_count.push(0);
        proof {
            assert forall|p: int| 0 <= p < self.patterns@.len() implies engine_ready(#[trigger] self.patterns@[p]) by {
                if p < idx {
                    assert(self.patterns@[p] == old(self).patterns@[p]);
                }
            }
        }
        idx
    }

    /// All registered patterns.
    pub fn patterns(&self) -> (r: &[Pattern<L, V>])
        ensures
            r@ == self.pattern_seq(),
    {
        self.patterns.as_slice()
    }

    /// All stored partial matches (active and completed).
    pub fn partial_matches(&self) -> (r: &[PartialMatch<N, V, i64>])
        ensures
            r@ == self.pm_seq(),
    {
        self.partial_matches.as_slice()
    }

    /// Cumulative operation counters.
    pub fn stats(&self) -> (r: &EngineStats)
        ensures
            *r == self.stats_spec(),
    {
        &self.stats
    }

    /// Reset all counters to zero.
    pub fn reset_stats(&mut self)
        requires
            old(self).wf(),
        ensures
            final(self).wf(),
            final(self).stats_spec() == (EngineStats {
                total_on_edge_added: 0,
                total_fingerprints: 0,
                total_negation_checks: 0,
                peak_active_pms: 0,
            }),
            final(self).same_core(*old(self)),
            final(self).pair_seq() == old(self).pair_seq(),
            final(self).tick_count() == old(self).tick_count(),
    {
        self.stats = EngineStats::default();
    }

    /// Is the pattern at `idx` enabled? (`false` for an unknown index.)
    pub fn is_pattern_enabled(&self, idx: usize) -> (r: bool)
        requires
            self.wf(),
        ensures
            r == (idx < self.pattern_seq().len() && self.enabled_seq()[idx as int]),
    {
        if idx < self.enabled.len() {
            self.enabled[idx]
        } else {
            false
        }
    }

    /// Current tick counter.
    pub fn current_tick(&self) -> (r: u64)
        ensures
            r == self.tick_count(),
    {
        self.tick_counter
    }

    /// Advance the tick counter. Call once per simulation step.
    pub fn tick(&mut self)
        requires
            old(self).wf(),
            old(self).tick_count() < u64::MAX,
        ensures
            final(self).wf(),
            final(self).tick_count() == old(self).tick_count() + 1,
            final(self).same_core(*old(self)),
            final(self).pair_seq() == old(self).pair_seq(),
            final(self).stats_spec() == old(self).stats_spec(),
    {
        self.tick_counter = self.tick_counter + 1;
    }

    /// Register a plant/payoff pair for Chekhov's gun tracking: the plant
    /// pattern is narrative setup, the payoff pattern its resolution.
    pub fn register_plant_payoff(&mut self, plant_idx: usize, payoff_idx: usize, shared_binding: Option<String>)
        requires
            old(self).wf(),
        ensures
            final(self).wf(),
            final(self).pair_seq().len() == old(self).pair_seq().len() + 1,
            final(self).pair_seq().drop_last() == old(self).pair_seq(),
            final(self).pair_seq().last().plant_idx == plant_idx,
            final(self).pair_seq().last().payoff_idx == payoff_idx,
            final(self).pair_seq().last().shared_binding == shared_binding,
            final(self).same_core(*old(self)),
            final(self).tick_count() == old(self).tick_count(),
            final(self).stats_spec() == old(self).stats_spec(),
    {
        self.plant_payoff_pairs.push(PlantPayoffPair { plant_idx, payoff_idx, shared_binding });
        proof {
            assert(self.plant_payoff_pairs@.drop_last() =~= old(self).plant_payoff_pairs@);
        }
    }

    /// All registered plant/payoff pairs.
    pub fn plant_payoff_pairs(&self) -> (r: &[PlantPayoffPair])
        ensures
            r@ == self.pair_seq(),
    {
        self.plant_payoff_pairs.as_slice()
    }
}

/// A partial match with its state replaced.
pub open spec fn with_state<N, V>(pm: PartialMatch<N, V, i64>, s: MatchState) -> PartialMatch<N, V, i64> {
    PartialMatch {
        pattern_idx: pm.pattern_idx,
        bindings: pm.bindings,
        intervals: pm.intervals,
        next_stage: pm.next_stage,
        state: s,
        id: pm.id,
        created_at: pm.created_at,
        fingerprint: pm.fingerprint,
        created_at_tick: pm.created_at_tick,
        last_advanced_tick: pm.last_advanced_tick,
        repetition_count: pm.repetition_count,
        matched_stages: pm.matched_stages,
    }
}

/// Set the state of the `i`-th partial match.
pub(crate) fn set_pm_state<N, V>(pms: &mut Vec<PartialMatch<N, V, i64>>, i: usize, s: MatchState)
    requires
        i < old(pms)@.len(),
    ensures
        final(pms)@ == old(pms)@.update(i as int, with_state(old(pms)@[i as int], s)),
{
    let mut pm = pms.remove(i);
    pm.state = s;
    pms.insert(i, pm);
    proof {
        assert(pms@ =~= old(pms)@.update(i as int, with_state(old(pms)@[i as int], s)));
    }
}

/// The partial match is not dead.
pub open spec fn live<N, V>() -> spec_fn(PartialMatch<N, V, i64>) -> bool {
    |pm: PartialMatch<N, V, i64>| pm.state != MatchState::Dead
}

/// Remove the dead partial matches, keeping the others in order.
pub(crate) fn retain_live<N, V>(pms: &mut Vec<PartialMatch<N, V, i64>>)
    ensures
        final(pms)@ == old(pms)@.filter(live::<N, V>()),
{
    let ghost orig = pms@;
    let mut kept: Vec<PartialMatch<N, V, i64>> = Vec::new();
    let ghost mut c: int = 0;
    while pms.len() > 0
        invariant
            0 <= c <= orig.len(),
            pms@ == orig.subrange(c, orig.len() as int),
            kept@ == orig.subrange(0, c).filter(live::<N, V>()),
        decreases pms@.len(),
    {
        let pm = pms.remove(0);
        proof {
            assert(orig.subrange(0, c + 1) =~= orig.subrange(0, c).push(orig[c]));
            orig.subrange(0, c).lemma_filter_push(orig[c], live::<N, V>());
            assert(pms@ =~= orig.subrange(c + 1, orig.len() as int));
        }
        if pm.state != MatchState::Dead {
            kept.push(pm);
        }
        proof {
            c = c + 1;
        }
    }
    proof {
        assert(orig.subrange(0, c) =~= orig);
    }
    *pms = kept;
}

impl<N, L, V, E> SiftEngine<N, L, V, E> {
    /// Enable or disable a pattern (an unknown index is ignored). Disabling
    /// kills all of the pattern's active partial matches.
    pub fn set_pattern_enabled(&mut self, idx: usize, enabled: bool)
        requires
            old(self).wf(),
        ensures
            final(self).wf(),
            final(self).pattern_seq() == old(self).pattern_seq(),
            idx < old(self).pattern_seq().len() ==> final(self).enabled_seq() == old(self).enabled_seq().update(
                idx as int,
                enabled,
            ),
            idx >= old(self).pattern_seq().len() ==> final(self).enabled_seq() == old(self).enabled_seq(),
            idx < old(self).pattern_seq().len() && !enabled ==> final(self).pm_seq() == old(self).pm_seq().filter(
                |pm: PartialMatch<N, V, i64>| !active_of(pm, idx),
            ),
            idx >= old(self).pattern_seq().len() || enabled ==> final(self).pm_seq() == old(self).pm_seq(),
            final(self).tick_count() == old(self).tick_count(),
            final(self).next_id() == old(self).next_id(),
    {
        if idx < self.enabled.len() {
            self.enabled.set(idx, enabled);
            if !enabled {
                let mut pms: Vec<PartialMatch<N, V, i64>> = Vec::new();
                std::mem::swap(&mut pms, &mut self.partial_matches);
                let ghost orig = pms@;
                let mut i: usize = 0;
                while i < pms.len()
                    invariant
                        i <= pms@.len(),
                        pms@.len() == orig.len(),
                        forall|j: int|
                            0 <= j < i ==> #[trigger] pms@[j] == if active_of(orig[j], idx) {
                                with_state(orig[j], MatchState::Dead)
                            } else {
                                orig[j]
                            },
                        forall|j: int| i <= j < orig.len() ==> #[trigger] pms@[j] == orig[j],
                    decreases pms@.len() - i,
                {
                    if pms[i].pattern_idx == idx && pms[i].state == MatchState::Active {
                        set_pm_state(&mut pms, i, MatchState::Dead);
                    }
                    i = i + 1;
                }
                let ghost marked = pms@;
                retain_live(&mut pms);
                proof {
                    lemma_filter_marked(orig, marked, idx);
                    lemma_filter_sub(orig, |pm: PartialMatch<N, V, i64>| !active_of(pm, idx));
                    lemma_filter_ids_distinct(orig, |pm: PartialMatch<N, V, i64>| !active_of(pm, idx));
                }
                self.partial_matches = pms;
            }
        }
    }

    /// Soft-delete a pattern: disable it and kill its partial matches. The
    /// pattern keeps its index but never matches again.
    pub fn deregister(&mut self, idx: usize)
        requires
            old(self).wf(),
        ensures
            final(self).wf(),
            final(self).pattern_seq() == old(self).pattern_seq(),
            idx < old(self).enabled_seq().len() ==> final(self).enabled_seq() == old(self).enabled_seq().update(
                idx as int,
                false,
            ),
            idx < old(self).enabled_seq().len() ==> final(self).pm_seq() == old(self).pm_seq().filter(
                |pm: PartialMatch<N, V, i64>| !active_of(pm, idx),
            ),
            idx >= old(self).enabled_seq().len() ==> final(self).pm_seq() == old(self).pm_seq(),
            idx >= old(self).enabled_seq().len() ==> final(self).enabled_seq() == old(self).enabled_seq(),
            final(self).tick_count() == old(self).tick_count(),
            final(self).next_id() == old(self).next_id(),
    {
        self.set_pattern_enabled(idx, false);
    }
}

/// Every element of a filtered sequence satisfies the filter and is an
/// element of the unfiltered sequence.
pub proof fn lemma_filter_sub<A>(s: Seq<A>, f: spec_fn(A) -> bool)
    ensures
        forall|i: int| 0 <= i < s.filter(f).len() ==> f(#[trigger] s.filter(f)[i]) && s.contains(s.filter(f)[i]),
{
    broadcast use vstd::seq_lib::group_filter_ensures;

    assert forall|i: int| 0 <= i < s.filter(f).len() implies f(#[trigger] s.filter(f)[i]) && s.contains(s.filter(f)[i]) by {
        assert(s.filter(f).contains(s.filter(f)[i]));
        s.lemma_filter_contains_rev(f, s.filter(f)[i]);
    }
}

/// Filtering keeps a sequence whose elements all pass.
proof fn lemma_filter_keeps_all<A>(s: Seq<A>, f: spec_fn(A) -> bool)
    requires
        forall|i: int| 0 <= i < s.len() ==> f(#[trigger] s[i]),
    ensures
        s.filter(f) == s,
    decreases s.len(),
{
    reveal(Seq::filter);
    if s.len() > 0 {
        lemma_filter_keeps_all(s.drop_last(), f);
        assert(s.drop_last().push(s.last()) =~= s);
    }
}

/// Filtering empties a sequence whose elements all fail.
proof fn lemma_filter_drops_all<A>(s: Seq<A>, f: spec_fn(A) -> bool)
    requires
        forall|i: int| 0 <= i < s.len() ==> !f(#[trigger] s[i]),
    ensures
        s.filter(f).len() == 0,
    decreases s.len(),
{
    reveal(Seq::filter);
    if s.len() > 0 {
        lemma_filter_drops_all(s.drop_last(), f);
    }
}

/// Draining completed matches twice: the second drain reports nothing and
/// leaves the partial matches as the first one left them.
pub proof fn law_drain_twice<N, L, V, E>(e: SiftEngine<N, L, V, E>)
    ensures
        e.pm_seq().filter(not_complete::<N, V>()).filter(not_complete::<N, V>()) == e.pm_seq().filter(not_complete::<N, V>()),
        e.pm_seq().filter(not_complete::<N, V>()).filter(reported_pred::<N, L, V>(e.pattern_seq())).len() == 0,
{
    let t = e.pm_seq().filter(not_complete::<N, V>());
    lemma_filter_sub(e.pm_seq(), not_complete::<N, V>());
    assert forall|i: int| 0 <= i < t.len() implies (not_complete::<N, V>())(#[trigger] t[i]) by {}
    lemma_filter_keeps_all(t, not_complete::<N, V>());
    assert forall|i: int| 0 <= i < t.len() implies !(reported_pred::<N, L, V>(e.pattern_seq()))(#[trigger] t[i]) by {
        assert((not_complete::<N, V>())(t[i]));
    }
    lemma_filter_drops_all(t, reported_pred::<N, L, V>(e.pattern_seq()));
}

/// The partial matches that the engine holds belong to registered patterns,
/// are never dead, carry distinct ids below the next id to hand out, and
/// were created and last advanced no later than the current tick.
pub proof fn law_held_partial_matches<N, L, V, E>(e: SiftEngine<N, L, V, E>)
    requires
        e.wf(),
    ensures
        ids_distinct(e.pm_seq()),
        forall|i: int|
            0 <= i < e.pm_seq().len() ==> {
                let pm = #[trigger] e.pm_seq()[i];
                &&& pm.pattern_idx < e.pattern_seq().len()
                &&& pm.state != MatchState::Dead
                &&& pm.id < e.next_id()
                &&& pm.created_at_tick <= e.tick_count()
                &&& pm.last_advanced_tick <= e.tick_count()
            },
{
}

/// Every partial match that the engine holds as complete has passed the last
/// stage of its pattern.
pub proof fn law_complete_past_end<N, L, V, E>(e: SiftEngine<N, L, V, E>)
    requires
        e.wf(),
    ensures
        forall|i: int|
            0 <= i < e.pm_seq().len() && (#[trigger] e.pm_seq()[i]).state == MatchState::Complete ==> e.pm_seq()[i].pattern_idx
                < e.pattern_seq().len() && e.pm_seq()[i].next_stage >= e.pattern_seq()[e.pm_seq()[i].pattern_idx as int].stages@.len(),
{
}

/// A completion that `on_edge_added` reports is returned by the next
/// `drain_completed`: among the partial matches that drain reports, in
/// order, one has the event's id and pattern name, and the event carries
/// clones of its bindings.
pub proof fn law_completion_event_drained<N: Clone, L, V: Clone, E>(e: SiftEngine<N, L, V, E>, ev: SiftEvent<N, V>)
    requires
        ev is Completed,
        !hidden(e.pattern_seq(), event_pattern(ev)),
        crate::engine::eval::completion_reported(ev, e.pm_seq(), e.pattern_seq()),
    ensures
        exists|i: int|
            0 <= i < e.pm_seq().filter(reported_pred::<N, L, V>(e.pattern_seq())).len()
                && crate::engine::eval::reports_completion(
                ev,
                #[trigger] e.pm_seq().filter(reported_pred::<N, L, V>(e.pattern_seq()))[i],
                event_pattern(ev),
            ),
{
    let s = e.pm_seq();
    let ps = e.pattern_seq();
    let f = reported_pred::<N, L, V>(ps);
    let j = choose|j: int|
        0 <= j < s.len() && (#[trigger] s[j]).pattern_idx < ps.len() && crate::engine::eval::reports_completion(
            ev,
            s[j],
            ps[s[j].pattern_idx as int].name@,
        );
    assert(f(s[j]));
    s.lemma_filter_contains(f, j);
    let t = s.filter(f);
    let w = choose|w: int| 0 <= w < t.len() && t[w] == s[j];
    assert(crate::engine::eval::reports_completion(ev, t[w], event_pattern(ev)));
}

/// Marking some live partial matches dead and removing the dead ones keeps
/// exactly the unmarked ones.
proof fn lemma_filter_marked<N, V>(orig: Seq<PartialMatch<N, V, i64>>, marked: Seq<PartialMatch<N, V, i64>>, idx: usize)
    requires
        marked.len() == orig.len(),
        forall|j: int| 0 <= j < orig.len() ==> (#[trigger] orig[j]).state != MatchState::Dead,
        forall|j: int|
            0 <= j < orig.len() ==> #[trigger] marked[j] == if active_of(orig[j], idx) {
                with_state(orig[j], MatchState::Dead)
            } else {
                orig[j]
            },
    ensures
        marked.filter(live::<N, V>()) == orig.filter(|pm: PartialMatch<N, V, i64>| !active_of(pm, idx)),
    decreases orig.len(),
{
    let f = |pm: PartialMatch<N, V, i64>| !active_of(pm, idx);
    if orig.len() == 0 {
        assert(marked.filter(live::<N, V>()) =~= Seq::<PartialMatch<N, V, i64>>::empty());
        assert(orig.filter(f) =~= Seq::<PartialMatch<N, V, i64>>::empty());
    } else {
        let n = orig.len() - 1;
        lemma_filter_marked(orig.drop_last(), marked.drop_last(), idx);
        assert(orig =~= orig.drop_last().push(orig[n]));
        assert(marked =~= marked.drop_last().push(marked[n]));
        orig.drop_last().lemma_filter_push(orig[n], f);
        marked.drop_last().lemma_filter_push(marked[n], live::<N, V>());
        assert(marked.drop_last().filter(live::<N, V>()) == orig.drop_last().filter(f));
    }
}

/// The partial match binds some variable to `node`.
pub open spec fn involves<N: PartialEq, V>(pm: PartialMatch<N, V, i64>, node: N) -> bool {
    exists|k: Seq<char>|
        #[trigger] pm.bindings@.contains_key(k) && (pm.bindings@[k] matches BoundValue::Node(n) && n.eq_spec(&node))
}

/// The partial match is active and involves `node`.
pub open spec fn active_involving<N: PartialEq, V>(node: N) -> spec_fn(PartialMatch<N, V, i64>) -> bool {
    |pm: PartialMatch<N, V, i64>| pm.state == MatchState::Active && involves(pm, node)
}

/// Does the partial match bind some variable to `node`?
fn binds_node<N: PartialEq, V>(pm: &PartialMatch<N, V, i64>, node: &N) -> (r: bool)
    ensures
        N::obeys_eq_spec() ==> r == involves(*pm, *node),
{
    let n = pm.bindings.len();
    let mut i: usize = 0;
    while i < n
        invariant
            n == pm.bindings.entries().len(),
            i <= n,
            pm.bindings@ == crate::strmap::map_of(pm.bindings.entries()),
            N::obeys_eq_spec() ==> forall|j: int|
                0 <= j < i ==> !((#[trigger] pm.bindings.entries()[j]).1 matches BoundValue::Node(x) && x.eq_spec(node)),
        decreases n - i,
    {
        let (k, v) = pm.bindings.entry_at(i);
        match v {
            BoundValue::Node(x) => {
                if *x == *node {
                    return true;
                }
            },
            BoundValue::Value(_) => {},
        }
        i = i + 1;
    }
    proof {
        if N::obeys_eq_spec() && involves(*pm, *node) {
            let k = choose|k: Seq<char>|
                #[trigger] pm.bindings@.contains_key(k) && (pm.bindings@[k] matches BoundValue::Node(x) && x.eq_spec(node));
            let j = crate::strmap::pos_of(pm.bindings.entries(), k);
            assert(pm.bindings.entries()[j].0@ == k);
        }
    }
    false
}

impl<N, L, V, E> SiftEngine<N, L, V, E> {
    /// Kill all active partial matches whose bindings contain `node` (an
    /// entity that left the simulation). Returns how many were killed.
    pub fn kill_pms_involving(&mut self, node: &N) -> (r: usize) where N: PartialEq
        requires
            old(self).wf(),
        ensures
            final(self).wf(),
            final(self).pattern_seq() == old(self).pattern_seq(),
            final(self).enabled_seq() == old(self).enabled_seq(),
            final(self).tick_count() == old(self).tick_count(),
            N::obeys_eq_spec() ==> final(self).pm_seq() == old(self).pm_seq().filter(
                |pm: PartialMatch<N, V, i64>| !active_involving::<N, V>(*node)(pm),
            ),
            N::obeys_eq_spec() ==> r == old(self).pm_seq().filter(active_involving::<N, V>(*node)).len(),
    {
        let mut pms: Vec<PartialMatch<N, V, i64>> = Vec::new();
        std::mem::swap(&mut pms, &mut self.partial_matches);
        let n0 = pms.len();
        let ghost orig = pms@;
        let ghost f = active_involving::<N, V>(*node);
        let ghost g = |pm: PartialMatch<N, V, i64>| !active_involving::<N, V>(*node)(pm);
        let mut killed: usize = 0;
        let mut kept: Vec<PartialMatch<N, V, i64>> = Vec::new();
        let ghost mut c: int = 0;
        while pms.len() > 0
            invariant
                0 <= c <= orig.len(),
                f == active_involving::<N, V>(*node),
                g == (|pm: PartialMatch<N, V, i64>| !active_involving::<N, V>(*node)(pm)),
                pms@ == orig.subrange(c, orig.len() as int),
                orig.len() <= usize::MAX,
                killed <= c,
                N::obeys_eq_spec() ==> killed == orig.subrange(0, c).filter(f).len(),
                N::obeys_eq_spec() ==> kept@ == orig.subrange(0, c).filter(g),
                forall|j: int| 0 <= j < kept@.len() ==> orig.subrange(0, c).contains(#[trigger] kept@[j]),
                ids_distinct(orig),
                ids_distinct(kept@),
            decreases pms@.len(),
        {
            let pm = pms.remove(0);
            proof {
                assert(orig.subrange(0, c + 1) =~= orig.subrange(0, c).push(orig[c]));
                orig.subrange(0, c).lemma_filter_len_push(f, orig[c]);
                orig.subrange(0, c).lemma_filter_push(orig[c], g);
                assert(pms@ =~= orig.subrange(c + 1, orig.len() as int));
                assert forall|j: int| 0 <= j < kept@.len() implies orig.subrange(0, c + 1).contains(#[trigger] kept@[j]) by {
                    let w = choose|w: int| 0 <= w < c && orig.subrange(0, c)[w] == kept@[j];
                    assert(orig.subrange(0, c + 1)[w] == kept@[j]);
                }
            }
            let hit = pm.state == MatchState::Active && binds_node(&pm, node);
            if hit {
                killed = killed + 1;
            } else {
                proof {
                    assert(orig.subrange(0, c + 1)[c] == pm);
                    assert forall|j: int| 0 <= j < kept@.len() implies (#[trigger] kept@[j]).id != pm.id by {
                        let w = choose|w: int| 0 <= w < c && orig.subrange(0, c)[w] == kept@[j];
                        assert(orig[w] == kept@[j]);
                    }
                }
                let ghost kb = kept@;
                kept.push(pm);
                proof {
                    assert forall|i: int, j: int| 0 <= i < kept@.len() && 0 <= j < kept@.len() && i != j implies (#[trigger] kept@[i]).id
                        != (#[trigger] kept@[j]).id by {
                        if i < kb.len() && j < kb.len() {
                            assert(kept@[i] == kb[i] && kept@[j] == kb[j]);
                        } else if i < kb.len() {
                            assert(kept@[i] == kb[i]);
                        } else if j < kb.len() {
                            assert(kept@[j] == kb[j]);
                        }
                    }
                }
            }
            proof {
                c = c + 1;
            }
        }
        proof {
            assert(orig.subrange(0, c) =~= orig);
        }
        self.partial_matches = kept;
        killed
    }

    /// Active partial matches of the patterns named `name`.
    pub fn active_matches_for(&self, name: &str) -> (r: Vec<&PartialMatch<N, V, i64>>)
        requires
            self.wf(),
        ensures
            forall|i: int| 0 <= i < r@.len() ==> self.pm_seq().contains(*#[trigger] r@[i]),
            forall|i: int|
                0 <= i < r@.len() ==> (#[trigger] r@[i]).state == MatchState::Active && self.pattern_seq()[r@[i].pattern_idx as int].name@
                    == name@,
            r@.len() == self.pm_seq().filter(
                |pm: PartialMatch<N, V, i64>| pm.state == MatchState::Active && self.pattern_seq()[pm.pattern_idx as int].name@ == name@,
            ).len(),
            forall|i: int|
                0 <= i < r@.len() ==> *#[trigger] r@[i] == self.pm_seq().filter(
                    |pm: PartialMatch<N, V, i64>| pm.state == MatchState::Active && self.pattern_seq()[pm.pattern_idx as int].name@ == name@,
                )[i],
    {
        let ghost f = |pm: PartialMatch<N, V, i64>| pm.state == MatchState::Active && self.patterns@[pm.pattern_idx as int].name@ == name@;
        let target: String = name.to_string();
        let mut out: Vec<&PartialMatch<N, V, i64>> = Vec::new();
        let mut i: usize = 0;
        while i < self.partial_matches.len()
            invariant
                i <= self.partial_matches@.len(),
                self.wf(),
                target@ == name@,
                f == (|pm: PartialMatch<N, V, i64>| pm.state == MatchState::Active && self.patterns@[pm.pattern_idx as int].name@ == name@),
                out@.len() == self.partial_matches@.take(i as int).filter(f).len(),
                forall|j: int| 0 <= j < out@.len() ==> *#[trigger] out@[j] == self.partial_matches@.take(i as int).filter(f)[j],
                forall|j: int| 0 <= j < out@.len() ==> self.partial_matches@.contains(*#[trigger] out@[j]),
                forall|j: int|
                    0 <= j < out@.len() ==> (#[trigger] out@[j]).state == MatchState::Active && self.patterns@[out@[j].pattern_idx as int].name@
                        == name@,
            decreases self.partial_matches@.len() - i,
        {
            proof {
                assert(self.partial_matches@.take(i + 1) =~= self.partial_matches@.take(i as int).push(self.partial_matches@[i as int]));
                self.partial_matches@.take(i as int).lemma_filter_len_push(f, self.partial_matches@[i as int]);
                self.partial_matches@.take(i as int).lemma_filter_push(self.partial_matches@[i as int], f);
            }
            let pm = &self.partial_matches[i];
            if pm.state == MatchState::Active && self.patterns[pm.pattern_idx].name == target {
                out.push(pm);
            }
            i = i + 1;
        }
        proof {
            assert(self.partial_matches@.take(self.partial_matches@.len() as int) =~= self.partial_matches@);
        }
        out
    }

    /// Per-pattern lifecycle metrics; `None` for an unknown index.
    pub fn pattern_metrics(&self, idx: usize) -> (r: Option<PatternMetrics>)
        requires
            self.wf(),
        ensures
            idx >= self.pattern_seq().len() ==> r is None,
            idx < self.pattern_seq().len() ==> r == Some(
                PatternMetrics {
                    enabled: self.enabled_seq()[idx as int],
                    last_advanced_tick: self.last_advanced_seq()[idx as int],
                    completion_count: self.completion_seq()[idx as int],
                    advancement_count: self.advancement_seq()[idx as int],
                    negation_count: self.negation_seq()[idx as int],
                    active_pm_count: active_count(self.pm_seq(), Some(idx)) as usize,
                },
            ),
    {
        if idx >= self.patterns.len() {
            return None;
        }
        let active_pm_count = count_active(&self.partial_matches, Some(idx));
        Some(
            PatternMetrics {
                enabled: self.enabled[idx],
                last_advanced_tick: self.last_advanced_tick[idx],
                completion_count: self.completion_count[idx],
                advancement_count: self.advancement_count[idx],
                negation_count: self.negation_count[idx],
                active_pm_count,
            },
        )
    }

    /// Pattern `idx` is stale: enabled, not advanced for at least
    /// `threshold` ticks, and still with active partial matches.
    pub open spec fn is_stale(self, idx: int, threshold: u64) -> bool {
        &&& self.enabled_seq()[idx]
        &&& sat_sub(self.tick_count(), self.last_advanced_seq()[idx]) >= threshold
        &&& active_count(self.pm_seq(), Some(idx as usize)) > 0
    }

    /// Find patterns that have not advanced for at least `threshold` ticks
    /// but still have active partial matches (stale plants), in index order.
    pub fn stale_patterns(&self, threshold: u64) -> (r: Vec<usize>)
        requires
            self.wf(),
        ensures
            forall|i: int| 0 <= i < r@.len() ==> #[trigger] r@[i] < self.pattern_seq().len() && self.is_stale(r@[i] as int, threshold),
            forall|i: int, j: int| 0 <= i < j < r@.len() ==> r@[i] < r@[j],
            forall|idx: int| 0 <= idx < self.pattern_seq().len() && self.is_stale(idx, threshold) ==> r@.contains(idx as usize),
    {
        let mut out: Vec<usize> = Vec::new();
        let mut idx: usize = 0;
        while idx < self.patterns.len()
            invariant
                idx <= self.patterns@.len(),
                self.wf(),
                forall|i: int| 0 <= i < out@.len() ==> #[trigger] out@[i] < idx && self.is_stale(out@[i] as int, threshold),
                forall|i: int, j: int| 0 <= i < j < out@.len() ==> out@[i] < out@[j],
                forall|k: int| 0 <= k < idx && self.is_stale(k, threshold) ==> out@.contains(k as usize),
            decreases self.patterns@.len() - idx,
        {
            let elapsed = self.tick_counter.saturating_sub(self.last_advanced_tick[idx]);
            proof {
                assert(elapsed == sat_sub(self.tick_counter, self.last_advanced_tick@[idx as int]));
            }
            let ghost before = out@;
            if self.enabled[idx] && elapsed >= threshold && count_active(&self.partial_matches, Some(idx)) > 0 {
                out.push(idx);
                proof {
                    assert(out@[out@.len() - 1] == idx);
                }
            }
            proof {
                assert forall|k: int| 0 <= k < idx + 1 && self.is_stale(k, threshold) implies out@.contains(k as usize) by {
                    if k < idx {
                        let w = choose|w: int| 0 <= w < before.len() && before[w] == k as usize;
                        assert(out@[w] == k as usize);
                    } else {
                        assert(out@[out@.len() - 1] == idx);
                    }
                }
            }
            idx = idx + 1;
        }
        out
    }

    /// Status of every plant/payoff pair whose patterns are registered: how
    /// many setups are in flight, how often the payoff completed, and
    /// whether the plant is stale.
    pub fn plant_status(&self, stale_threshold: u64) -> (r: Vec<PlantStatus>)
        requires
            self.wf(),
        ensures
            r@.len() <= self.pair_seq().len(),
            forall|i: int| 0 <= i < r@.len() ==> #[trigger] self.describes_some_pair(r@[i], stale_threshold),
            r@.len() == self.pair_seq().filter(
                |p: PlantPayoffPair| p.plant_idx < self.pattern_seq().len() && p.payoff_idx < self.pattern_seq().len(),
            ).len(),
            forall|i: int|
                0 <= i < r@.len() ==> self.describes_pair(
                    #[trigger] r@[i],
                    self.pair_seq().filter(
                        |p: PlantPayoffPair| p.plant_idx < self.pattern_seq().len() && p.payoff_idx < self.pattern_seq().len(),
                    )[i],
                    stale_threshold,
                ),
    {
        let ghost f = |p: PlantPayoffPair| p.plant_idx < self.patterns@.len() && p.payoff_idx < self.patterns@.len();
        let ghost mut wit: Seq<int> = Seq::empty();
        let mut out: Vec<PlantStatus> = Vec::new();
        let mut k: usize = 0;
        while k < self.plant_payoff_pairs.len()
            invariant
                k <= self.plant_payoff_pairs@.len(),
                self.wf(),
                f == (|p: PlantPayoffPair| p.plant_idx < self.patterns@.len() && p.payoff_idx < self.patterns@.len()),
                out@.len() == self.plant_payoff_pairs@.take(k as int).filter(f).len(),
                forall|i: int|
                    0 <= i < out@.len() ==> self.describes_pair(
                        #[trigger] out@[i],
                        self.plant_payoff_pairs@.take(k as int).filter(f)[i],
                        stale_threshold,
                    ),
                out@.len() <= k,
                wit.len() == out@.len(),
                forall|i: int|
                    0 <= i < out@.len() ==> 0 <= #[trigger] wit[i] < self.plant_payoff_pairs@.len() && self.describes_pair(
                        out@[i],
                        self.plant_payoff_pairs@[wit[i]],
                        stale_threshold,
                    ),
            decreases self.plant_payoff_pairs@.len() - k,
        {
            proof {
                assert(self.plant_payoff_pairs@.take(k + 1) =~= self.plant_payoff_pairs@.take(k as int).push(self.plant_payoff_pairs@[k as int]));
                self.plant_payoff_pairs@.take(k as int).lemma_filter_len_push(f, self.plant_payoff_pairs@[k as int]);
                self.plant_payoff_pairs@.take(k as int).lemma_filter_push(self.plant_payoff_pairs@[k as int], f);
            }
            let pair = &self.plant_payoff_pairs[k];
            if pair.plant_idx < self.patterns.len() && pair.payoff_idx < self.patterns.len() {
                let active_plants = count_active(&self.partial_matches, Some(pair.plant_idx));
                let ticks_since = self.tick_counter.saturating_sub(self.last_advanced_tick[pair.plant_idx]);
                let stale = active_plants > 0 && ticks_since >= stale_threshold;
                let st = PlantStatus {
                    plant_pattern: self.patterns[pair.plant_idx].name.clone(),
                    payoff_pattern: self.patterns[pair.payoff_idx].name.clone(),
                    active_plants,
                    payoff_completions: self.completion_count[pair.payoff_idx],
                    ticks_since_plant_advanced: ticks_since,
                    stale,
                };
                proof {
                    assert(self.describes_pair(st, self.plant_payoff_pairs@[k as int], stale_threshold));
                }
                out.push(st);
                proof {
                    wit = wit.push(k as int);
                }
            }
            k = k + 1;
        }
        proof {
            assert(self.plant_payoff_pairs@.take(self.plant_payoff_pairs@.len() as int) =~= self.plant_payoff_pairs@);
            assert forall|i: int| 0 <= i < out@.len() implies #[trigger] self.describes_some_pair(out@[i], stale_threshold) by {
                assert(self.describes_pair(out@[i], self.plant_payoff_pairs@[wit[i]], stale_threshold));
            }
        }
        out
    }

    /// `st` is the status of some registered pair.
    pub open spec fn describes_some_pair(self, st: PlantStatus, stale_threshold: u64) -> bool {
        exists|j: int| 0 <= j < self.pair_seq().len() && #[trigger] self.describes_pair(st, self.pair_seq()[j], stale_threshold)
    }

    /// `st` is the status of the registered pair `pair`.
    pub open spec fn describes_pair(self, st: PlantStatus, pair: PlantPayoffPair, stale_threshold: u64) -> bool {
        &&& pair.plant_idx < self.pattern_seq().len()
        &&& pair.payoff_idx < self.pattern_seq().len()
        &&& st.plant_pattern == self.pattern_seq()[pair.plant_idx as int].name
        &&& st.payoff_pattern == self.pattern_seq()[pair.payoff_idx as int].name
        &&& st.active_plants == active_count(self.pm_seq(), Some(pair.plant_idx))
        &&& st.payoff_completions == self.completion_seq()[pair.payoff_idx as int]
        &&& st.ticks_since_plant_advanced == sat_sub(self.tick_count(), self.last_advanced_seq()[pair.plant_idx as int])
        &&& st.stale == (st.active_plants > 0 && st.ticks_since_plant_advanced >= stale_threshold)
    }
}

/// A completed partial match is reported by `drain_completed` unless a
/// pattern with its pattern's name is private.
pub open spec fn reported_pred<N, L, V>(patterns: Seq<Pattern<L, V>>) -> spec_fn(PartialMatch<N, V, i64>) -> bool {
    |pm: PartialMatch<N, V, i64>| pm.state == MatchState::Complete && !hidden(patterns, patterns[pm.pattern_idx as int].name@)
}

/// The partial match is not complete.
pub open spec fn not_complete<N, V>() -> spec_fn(PartialMatch<N, V, i64>) -> bool {
    |pm: PartialMatch<N, V, i64>| pm.state != MatchState::Complete
}

/// `m` is the match reported for the completed partial match `pm`.
pub open spec fn match_of<N, L, V>(patterns: Seq<Pattern<L, V>>, pm: PartialMatch<N, V, i64>, m: Match<N, V, i64>) -> bool {
    &&& m.pattern == patterns[pm.pattern_idx as int].name
    &&& m.pattern_idx == Some(pm.pattern_idx)
    &&& m.bindings == pm.bindings
    &&& m.intervals == pm.intervals
    &&& m.metadata@ == patterns[pm.pattern_idx as int].metadata@
}

impl<N, L, V, E> SiftEngine<N, L, V, E> {
    /// Remove the completed partial matches and return them as matches, in
    /// order, leaving out those of private patterns.
    pub fn drain_completed(&mut self) -> (r: Vec<Match<N, V, i64>>)
        requires
            old(self).wf(),
        ensures
            final(self).wf(),
            final(self).pattern_seq() == old(self).pattern_seq(),
            final(self).enabled_seq() == old(self).enabled_seq(),
            final(self).tick_count() == old(self).tick_count(),
            final(self).pm_seq() == old(self).pm_seq().filter(not_complete::<N, V>()),
            r@.len() == old(self).pm_seq().filter(reported_pred::<N, L, V>(old(self).pattern_seq())).len(),
            forall|i: int|
                0 <= i < r@.len() ==> match_of(
                    old(self).pattern_seq(),
                    old(self).pm_seq().filter(reported_pred::<N, L, V>(old(self).pattern_seq()))[i],
                    #[trigger] r@[i],
                ),
    {
        let mut pms: Vec<PartialMatch<N, V, i64>> = Vec::new();
        std::mem::swap(&mut pms, &mut self.partial_matches);
        let ghost orig = pms@;
        let ghost f = reported_pred::<N, L, V>(self.patterns@);
        let ghost g = not_complete::<N, V>();
        let mut kept: Vec<PartialMatch<N, V, i64>> = Vec::new();
        let mut out: Vec<Match<N, V, i64>> = Vec::new();
        let ghost mut c: int = 0;
        while pms.len() > 0
            invariant
                0 <= c <= orig.len(),
                self.patterns@ == old(self).patterns@,
                self.enabled@.len() == self.patterns@.len(),
                f == reported_pred::<N, L, V>(self.patterns@),
                g == not_complete::<N, V>(),
                forall|j: int| 0 <= j < orig.len() ==> (#[trigger] orig[j]).pattern_idx < self.patterns@.len(),
                pms@ == orig.subrange(c, orig.len() as int),
                kept@ == orig.subrange(0, c).filter(g),
                out@.len() == orig.subrange(0, c).filter(f).len(),
                forall|i: int| 0 <= i < out@.len() ==> match_of(self.patterns@, orig.subrange(0, c).filter(f)[i], #[trigger] out@[i]),
            decreases pms@.len(),
        {
            let pm = pms.remove(0);
            proof {
                assert(orig.subrange(0, c + 1) =~= orig.subrange(0, c).push(orig[c]));
                orig.subrange(0, c).lemma_filter_push(orig[c], g);
                orig.subrange(0, c).lemma_filter_push(orig[c], f);
                assert(pms@ =~= orig.subrange(c + 1, orig.len() as int));
                assert(pm == orig[c]);
            }
            if pm.state == MatchState::Complete {
                let idx = pm.pattern_idx;
                let hide = name_hidden(&self.patterns, &self.patterns[idx].name);
                if !hide {
                    let m = Match {
                        pattern: self.patterns[idx].name.clone(),
                        pattern_idx: Some(idx),
                        bindings: pm.bindings,
                        intervals: pm.intervals,
                        metadata: crate::engine::free::copy_strings(&self.patterns[idx].metadata),
                    };
                    out.push(m);
                }
            } else {
                kept.push(pm);
            }
            proof {
                c = c + 1;
            }
        }
        proof {
            assert(orig.subrange(0, c) =~= orig);
            lemma_filter_sub(orig, g);
            lemma_filter_ids_distinct(orig, g);
        }
        self.partial_matches = kept;
        out
    }
}

/// Which kind of event: advanced, completed, negated or expired.
pub open spec fn event_kind<N, V>(e: SiftEvent<N, V>) -> int {
    match e {
        SiftEvent::Advanced { .. } => 0,
        SiftEvent::Completed { .. } => 1,
        SiftEvent::Negated { .. } => 2,
        SiftEvent::Expired { .. } => 3,
    }
}

/// The pattern an event is about.
pub open spec fn event_pattern<N, V>(e: SiftEvent<N, V>) -> Seq<char> {
    match e {
        SiftEvent::Advanced { pattern, .. } => pattern@,
        SiftEvent::Completed { pattern, .. } => pattern@,
        SiftEvent::Negated { pattern, .. } => pattern@,
        SiftEvent::Expired { pattern, .. } => pattern@,
    }
}

/// The pattern names of the events of kind `k`, in order.
pub open spec fn kind_names<N, V>(events: Seq<SiftEvent<N, V>>, k: int) -> Seq<Seq<char>>
    decreases events.len(),
{
    if events.len() == 0 {
        Seq::empty()
    } else {
        kind_names(events.drop_last(), k) + if event_kind(events.last()) == k {
            seq![event_pattern(events.last())]
        } else {
            Seq::empty()
        }
    }
}

/// Each name once, in order of first occurrence.
pub open spec fn first_names(s: Seq<Seq<char>>) -> Seq<Seq<char>>
    decreases s.len(),
{
    if s.len() == 0 {
        Seq::empty()
    } else {
        let r = first_names(s.drop_last());
        if r.contains(s.last()) {
            r
        } else {
            r.push(s.last())
        }
    }
}

/// Append `name` unless the list already holds it.
fn push_new(list: &mut Vec<String>, name: &String)
    ensures
        views(final(list)@) == if views(old(list)@).contains(name@) {
            views(old(list)@)
        } else {
            views(old(list)@).push(name@)
        },
{
    let mut i: usize = 0;
    while i < list.len()
        invariant
            i <= list@.len(),
            forall|j: int| 0 <= j < i ==> (#[trigger] list@[j])@ != name@,
        decreases list@.len() - i,
    {
        if list[i] == *name {
            proof {
                assert(views(list@)[i as int] == name@);
            }
            return;
        }
        i = i + 1;
    }
    proof {
        assert(!views(list@).contains(name@)) by {
            if views(list@).contains(name@) {
                let w = choose|w: int| 0 <= w < views(list@).len() && #[trigger] views(list@)[w] == name@;
                assert(list@[w]@ == name@);
            }
        }
    }
    list.push(name.clone());
    proof {
        assert(views(list@) =~= views(old(list)@).push(name@));
    }
}

/// Add `name` to a list of distinct names unless it is there already.
pub(crate) fn push_name(list: &mut Vec<String>, name: &String)
    requires
        distinct_names(old(list)@),
    ensures
        distinct_names(final(list)@),
        views(final(list)@) == if views(old(list)@).contains(name@) {
            views(old(list)@)
        } else {
            views(old(list)@).push(name@)
        },
{
    proof {
        lemma_distinct_views(list@);
    }
    push_new(list, name);
    proof {
        lemma_distinct_views(list@);
        if !views(old(list)@).contains(name@) {
            assert forall|i: int, j: int|
                0 <= i < views(list@).len() && 0 <= j < views(list@).len() && i != j implies #[trigger] views(list@)[i]
                != #[trigger] views(list@)[j] by {
                if i < old(list)@.len() && j < old(list)@.len() {
                    assert(views(list@)[i] == views(old(list)@)[i]);
                    assert(views(list@)[j] == views(old(list)@)[j]);
                } else if i < old(list)@.len() {
                    assert(views(list@)[i] == views(old(list)@)[i]);
                } else if j < old(list)@.len() {
                    assert(views(list@)[j] == views(old(list)@)[j]);
                }
            }
            lemma_distinct_views(list@);
        }
    }
}

impl<N, L, V, E> SiftEngine<N, L, V, E> {
    /// Names of the non-private stale patterns among the first `n`, in
    /// index order.
    pub open spec fn stalled_upto(self, threshold: u64, n: int) -> Seq<Seq<char>>
        decreases n,
    {
        if n <= 0 {
            Seq::empty()
        } else {
            self.stalled_upto(threshold, n - 1) + if self.is_stale(n - 1, threshold) && !self.pattern_seq()[n - 1].private {
                seq![self.pattern_seq()[n - 1].name@]
            } else {
                Seq::empty()
            }
        }
    }

    /// Names of the non-private stale patterns, in index order.
    fn stalled_names(&self, threshold: u64) -> (r: Vec<String>)
        requires
            self.wf(),
        ensures
            views(r@) == self.stalled_upto(threshold, self.pattern_seq().len() as int),
    {
        let mut out: Vec<String> = Vec::new();
        let mut idx: usize = 0;
        while idx < self.patterns.len()
            invariant
                idx <= self.patterns@.len(),
                self.wf(),
                views(out@) == self.stalled_upto(threshold, idx as int),
            decreases self.patterns@.len() - idx,
        {
            let elapsed = self.tick_counter.saturating_sub(self.last_advanced_tick[idx]);
            proof {
                assert(elapsed == sat_sub(self.tick_counter, self.last_advanced_tick@[idx as int]));
            }
            if self.enabled[idx] && elapsed >= threshold && count_active(&self.partial_matches, Some(idx)) > 0
                && !self.patterns[idx].private {
                out.push(self.patterns[idx].name.clone());
            }
            proof {
                assert(views(out@) =~= self.stalled_upto(threshold, idx + 1));
            }
            idx = idx + 1;
        }
        out
    }

    /// Summarize a tick's events: the patterns that advanced, completed,
    /// were negated or expired (each once, in order of first event), the
    /// stalled patterns, and the number of active partial matches.
    pub fn tick_delta(&self, events: &[SiftEvent<N, V>], stale_threshold: u64) -> (r: TickDelta)
        requires
            self.wf(),
        ensures
            views(r.advanced@) == first_names(kind_names(events@, 0)),
            views(r.completed@) == first_names(kind_names(events@, 1)),
            views(r.negated@) == first_names(kind_names(events@, 2)),
            views(r.expired@) == first_names(kind_names(events@, 3)),
            views(r.stalled@) == self.stalled_upto(stale_threshold, self.pattern_seq().len() as int),
            r.active_pm_count == active_count(self.pm_seq(), None),
    {
        let mut advanced: Vec<String> = Vec::new();
        let mut completed: Vec<String> = Vec::new();
        let mut negated: Vec<String> = Vec::new();
        let mut expired: Vec<String> = Vec::new();
        let mut i: usize = 0;
        while i < events.len()
            invariant
                i <= events@.len(),
                views(advanced@) == first_names(kind_names(events@.take(i as int), 0)),
                views(completed@) == first_names(kind_names(events@.take(i as int), 1)),
                views(negated@) == first_names(kind_names(events@.take(i as int), 2)),
                views(expired@) == first_names(kind_names(events@.take(i as int), 3)),
            decreases events@.len() - i,
        {
            proof {
                let t = events@.take(i + 1);
                assert(t.drop_last() =~= events@.take(i as int));
                assert(t.last() == events@[i as int]);
                let e = events@[i as int];
                let k = event_kind(e);
                assert forall|q: int| 0 <= q < 4 && q != k implies kind_names(t, q) =~= kind_names(events@.take(i as int), q) by {}
                assert(kind_names(t, k) =~= kind_names(events@.take(i as int), k).push(event_pattern(e)));
                assert(kind_names(t, k).drop_last() =~= kind_names(events@.take(i as int), k));
            }
            match &events[i] {
                SiftEvent::Advanced { pattern, .. } => push_new(&mut advanced, pattern),
                SiftEvent::Completed { pattern, .. } => push_new(&mut completed, pattern),
                SiftEvent::Negated { pattern, .. } => push_new(&mut negated, pattern),
                SiftEvent::Expired { pattern, .. } => push_new(&mut expired, pattern),
            }
            i = i + 1;
        }
        proof {
            assert(events@.take(events@.len() as int) =~= events@);
        }
        let stalled = self.stalled_names(stale_threshold);
        let active_pm_count = count_active(&self.partial_matches, None);
        TickDelta { advanced, completed, negated, expired, stalled, active_pm_count }
    }
}

/// The partial match is active and its pattern's deadline has passed at
/// tick `t`.
pub open spec fn expires<N, L, V>(patterns: Seq<Pattern<L, V>>, t: u64, pm: PartialMatch<N, V, i64>) -> bool {
    &&& pm.state == MatchState::Active
    &&& patterns[pm.pattern_idx as int].deadline_ticks matches Some(d) && sat_sub(t, pm.created_at_tick) > d
}

/// The partial match is active and has not advanced for its pattern's
/// inactivity threshold at tick `t`.
pub open spec fn idles<N, L, V>(patterns: Seq<Pattern<L, V>>, t: u64, pm: PartialMatch<N, V, i64>) -> bool {
    &&& pm.state == MatchState::Active
    &&& patterns[pm.pattern_idx as int].inactivity_threshold matches Some(th) && t - pm.last_advanced_tick >= th
}

/// The partial match survives the end of a tick.
pub open spec fn survives<N, L, V>(patterns: Seq<Pattern<L, V>>, t: u64) -> spec_fn(PartialMatch<N, V, i64>) -> bool {
    |pm: PartialMatch<N, V, i64>| !expires(patterns, t, pm) && !idles(patterns, t, pm)
}

/// The partial match expires and its expiry is reported.
pub open spec fn reported_expiry<N, L, V>(patterns: Seq<Pattern<L, V>>, t: u64) -> spec_fn(PartialMatch<N, V, i64>) -> bool {
    |pm: PartialMatch<N, V, i64>| expires(patterns, t, pm) && !hidden(patterns, patterns[pm.pattern_idx as int].name@)
}

/// Some partial match among the first `n` of `pms` expires at tick `t` and
/// its pattern is named `x`.
pub open spec fn expired_name_in<N, L, V>(
    patterns: Seq<Pattern<L, V>>,
    t: u64,
    pms: Seq<PartialMatch<N, V, i64>>,
    n: int,
    x: Seq<char>,
) -> bool {
    exists|j: int| 0 <= j < n && expires(patterns, t, #[trigger] pms[j]) && patterns[pms[j].pattern_idx as int].name@ == x
}

proof fn lemma_expired_name_step<N, L, V>(
    patterns: Seq<Pattern<L, V>>,
    t: u64,
    pms: Seq<PartialMatch<N, V, i64>>,
    n: int,
    x: Seq<char>,
)
    requires
        0 <= n,
    ensures
        expired_name_in(patterns, t, pms, n + 1, x) == (expired_name_in(patterns, t, pms, n, x) || (expires(
            patterns,
            t,
            pms[n],
        ) && patterns[pms[n].pattern_idx as int].name@ == x)),
{
    if expired_name_in(patterns, t, pms, n + 1, x) {
        let j = choose|j: int| 0 <= j < n + 1 && expires(patterns, t, #[trigger] pms[j]) && patterns[pms[j].pattern_idx as int].name@ == x;
        if j < n {
            assert(expired_name_in(patterns, t, pms, n, x));
        }
    }
    if expired_name_in(patterns, t, pms, n, x) {
        let j = choose|j: int| 0 <= j < n && expires(patterns, t, #[trigger] pms[j]) && patterns[pms[j].pattern_idx as int].name@ == x;
        assert(expired_name_in(patterns, t, pms, n + 1, x));
    }
    if expires(patterns, t, pms[n]) && patterns[pms[n].pattern_idx as int].name@ == x {
        assert(expired_name_in(patterns, t, pms, n + 1, x));
    }
}

/// `e` reports the expiry of `pm` at tick `t`.
pub open spec fn expiry_event_of<N: Clone, L, V: Clone>(
    patterns: Seq<Pattern<L, V>>,
    t: u64,
    pm: PartialMatch<N, V, i64>,
    e: SiftEvent<N, V>,
) -> bool {
    e matches SiftEvent::Expired { pattern, match_id, bindings, stage_reached, ticks_elapsed, metadata } && {
        &&& pattern == patterns[pm.pattern_idx as int].name
        &&& match_id == pm.id
        &&& bindings@.dom() == pm.bindings@.dom()
        &&& forall|k: Seq<char>| #[trigger] bindings@.contains_key(k) ==> cloned(pm.bindings@[k], bindings@[k])
        &&& stage_reached == pm.next_stage
        &&& ticks_elapsed == sat_sub(t, pm.created_at_tick)
        &&& metadata@ == patterns[pm.pattern_idx as int].metadata@
    }
}

/// Appending `a` adds exactly `a` to what a sequence contains.
pub proof fn lemma_contains_push<A>(s: Seq<A>, a: A, x: A)
    ensures
        s.push(a).contains(x) <==> (s.contains(x) || x == a),
{
    if s.push(a).contains(x) {
        let w = choose|w: int| 0 <= w < s.push(a).len() && #[trigger] s.push(a)[w] == x;
        if w < s.len() {
            assert(s[w] == x);
        }
    }
    if s.contains(x) {
        let w = choose|w: int| 0 <= w < s.len() && #[trigger] s[w] == x;
        assert(s.push(a)[w] == x);
    }
    if x == a {
        assert(s.push(a)[s.len() as int] == x);
    }
}

proof fn lemma_distinct_views(s: Seq<String>)
    ensures
        distinct_names(s) == all_distinct(views(s)),
{
    if distinct_names(s) {
        assert forall|i: int, j: int| 0 <= i < views(s).len() && 0 <= j < views(s).len() && i != j implies #[trigger] views(s)[i]
            != #[trigger] views(s)[j] by {
            assert(s[i]@ != s[j]@);
        }
    }
    if all_distinct(views(s)) {
        assert forall|i: int, j: int| 0 <= i < s.len() && 0 <= j < s.len() && i != j implies (#[trigger] s[i])@ != (#[trigger] s[j])@ by {
            assert(views(s)[i] != views(s)[j]);
        }
    }
}

/// The names of `list` that belong to no private pattern, sorted; `list`
/// is left empty.
fn take_visible<L, V>(list: &mut Vec<String>, patterns: &Vec<Pattern<L, V>>) -> (r: Vec<String>)
    requires
        distinct_names(old(list)@),
    ensures
        final(list)@.len() == 0,
        sorted_strictly(views(r@)),
        forall|x: Seq<char>| views(r@).contains(x) <==> (views(old(list)@).contains(x) && !hidden(patterns@, x)),
{
    let mut taken: Vec<String> = Vec::new();
    std::mem::swap(&mut taken, list);
    let mut out: Vec<String> = Vec::new();
    let mut i: usize = 0;
    while i < taken.len()
        invariant
            i <= taken@.len(),
            distinct_names(taken@),
            all_distinct(views(out@)),
            forall|x: Seq<char>| views(out@).contains(x) <==> (views(taken@.take(i as int)).contains(x) && !hidden(patterns@, x)),
        decreases taken@.len() - i,
    {
        let ghost before = out@;
        proof {
            assert(views(taken@.take(i + 1)) =~= views(taken@.take(i as int)).push(taken@[i as int]@));
        }
        if !name_hidden(patterns, &taken[i]) {
            proof {
                assert(!views(before).contains(taken@[i as int]@)) by {
                    if views(before).contains(taken@[i as int]@) {
                        let w = choose|w: int| 0 <= w < views(taken@.take(i as int)).len() && #[trigger] views(taken@.take(i as int))[w]
                            == taken@[i as int]@;
                        assert(taken@[w]@ == taken@[i as int]@);
                    }
                }
            }
            out.push(taken[i].clone());
            proof {
                assert(views(out@) =~= views(before).push(taken@[i as int]@));
            }
        }
        proof {
            assert forall|x: Seq<char>| views(out@).contains(x) <==> (views(taken@.take(i + 1)).contains(x) && !hidden(patterns@, x)) by {
                lemma_contains_push(views(taken@.take(i as int)), taken@[i as int]@, x);
                lemma_contains_push(views(before), taken@[i as int]@, x);
            }
        }
        i = i + 1;
    }
    proof {
        assert(taken@.take(taken@.len() as int) =~= taken@);
    }
    sort_strings(out)
}

impl<N: Clone, L, V: Clone, E> SiftEngine<N, L, V, E> {
    /// End the current tick: advance the tick counter, expire partial
    /// matches whose pattern's deadline has passed and drop those idle for
    /// their pattern's inactivity threshold, and summarize the tick's events
    /// (each list sorted, private patterns left out). Returns the summary
    /// and the expiry events.
    pub fn end_tick(&mut self, stale_threshold: u64) -> (r: (TickDelta, Vec<SiftEvent<N, V>>))
        requires
            old(self).wf(),
            old(self).tick_count() < u64::MAX,
        ensures
            final(self).wf(),
            final(self).tick_count() == old(self).tick_count() + 1,
            final(self).pattern_seq() == old(self).pattern_seq(),
            final(self).enabled_seq() == old(self).enabled_seq(),
            final(self).pm_seq() == old(self).pm_seq().filter(survives::<N, L, V>(old(self).pattern_seq(), final(self).tick_count())),
            r.1@.len() == old(self).pm_seq().filter(reported_expiry::<N, L, V>(old(self).pattern_seq(), final(self).tick_count())).len(),
            forall|i: int|
                0 <= i < r.1@.len() ==> expiry_event_of(
                    old(self).pattern_seq(),
                    final(self).tick_count(),
                    old(self).pm_seq().filter(reported_expiry::<N, L, V>(old(self).pattern_seq(), final(self).tick_count()))[i],
                    #[trigger] r.1@[i],
                ),
            final(self).tick_names().0.len() == 0,
            final(self).tick_names().1.len() == 0,
            final(self).tick_names().2.len() == 0,
            final(self).tick_names().3.len() == 0,
            sorted_strictly(views(r.0.advanced@)),
            sorted_strictly(views(r.0.completed@)),
            sorted_strictly(views(r.0.negated@)),
            sorted_strictly(views(r.0.expired@)),
            forall|x: Seq<char>|
                views(r.0.advanced@).contains(x) <==> (views(old(self).tick_names().0).contains(x) && !hidden(old(self).pattern_seq(), x)),
            forall|x: Seq<char>|
                views(r.0.completed@).contains(x) <==> (views(old(self).tick_names().1).contains(x) && !hidden(old(self).pattern_seq(), x)),
            forall|x: Seq<char>|
                views(r.0.negated@).contains(x) <==> (views(old(self).tick_names().2).contains(x) && !hidden(old(self).pattern_seq(), x)),
            forall|x: Seq<char>|
                views(r.0.expired@).contains(x) <==> ((views(old(self).tick_names().3).contains(x) || expired_name_in(
                    old(self).pattern_seq(),
                    final(self).tick_count(),
                    old(self).pm_seq(),
                    old(self).pm_seq().len() as int,
                    x,
                )) && !hidden(old(self).pattern_seq(), x)),
            views(r.0.stalled@) == final(self).stalled_upto(stale_threshold, final(self).pattern_seq().len() as int),
            r.0.active_pm_count == active_count(final(self).pm_seq(), None),
    {
        self.tick_counter = self.tick_counter + 1;
        let t = self.tick_counter;
        let mut pms: Vec<PartialMatch<N, V, i64>> = Vec::new();
        std::mem::swap(&mut pms, &mut self.partial_matches);
        let ghost orig = pms@;
        let ghost f = survives::<N, L, V>(self.patterns@, t);
        let ghost g = reported_expiry::<N, L, V>(self.patterns@, t);
        let ghost old_exp = self.tick_expired@;
        let mut kept: Vec<PartialMatch<N, V, i64>> = Vec::new();
        let mut events: Vec<SiftEvent<N, V>> = Vec::new();
        let ghost mut c: int = 0;
        while pms.len() > 0
            invariant
                0 <= c <= orig.len(),
                self.patterns@ == old(self).patterns@,
                self.tick_counter == t,
                t == old(self).tick_counter + 1,
                f == survives::<N, L, V>(self.patterns@, t),
                g == reported_expiry::<N, L, V>(self.patterns@, t),
                old_exp == old(self).tick_expired@,
                self.tick_advanced@ == old(self).tick_advanced@,
                self.tick_completed@ == old(self).tick_completed@,
                self.tick_negated@ == old(self).tick_negated@,
                self.enabled@ == old(self).enabled@,
                self.last_advanced_tick@ == old(self).last_advanced_tick@,
                self.completion_count@ == old(self).completion_count@,
                self.advancement_count@ == old(self).advancement_count@,
                self.negation_count@ == old(self).negation_count@,
                self.next_match_id == old(self).next_match_id,
                forall|j: int| 0 <= j < orig.len() ==> (#[trigger] orig[j]).id < self.next_match_id,
                forall|j: int| 0 <= j < orig.len() ==> (#[trigger] orig[j]).created_at_tick < t,
                ids_distinct(orig),
                forall|p: int| 0 <= p < self.patterns@.len() ==> engine_ready(#[trigger] self.patterns@[p]),
                forall|j: int| 0 <= j < orig.len() ==> (#[trigger] orig[j]).pattern_idx < self.patterns@.len(),
                forall|j: int| 0 <= j < orig.len() ==> (#[trigger] orig[j]).last_advanced_tick < t,
                forall|j: int| 0 <= j < orig.len() ==> (#[trigger] orig[j]).state != MatchState::Dead,
                pms@ == orig.subrange(c, orig.len() as int),
                kept@ == orig.subrange(0, c).filter(f),
                events@.len() == orig.subrange(0, c).filter(g).len(),
                forall|i: int| 0 <= i < events@.len() ==> expiry_event_of(self.patterns@, t, orig.subrange(0, c).filter(g)[i], #[trigger] events@[i]),
                distinct_names(self.tick_expired@),
                forall|x: Seq<char>|
                    #[trigger] views(self.tick_expired@).contains(x) <==> (views(old_exp).contains(x) || expired_name_in(
                        self.patterns@,
                        t,
                        orig,
                        c,
                        x,
                    )),
            decreases pms@.len(),
        {
            let pm = pms.remove(0);
            proof {
                assert(orig.subrange(0, c + 1) =~= orig.subrange(0, c).push(orig[c]));
                orig.subrange(0, c).lemma_filter_push(orig[c], f);
                orig.subrange(0, c).lemma_filter_push(orig[c], g);
                assert(pms@ =~= orig.subrange(c + 1, orig.len() as int));
                assert(pm == orig[c]);
            }
            let ghost exp_before = self.tick_expired@;
            let mut ends = false;
            if pm.state == MatchState::Active {
                let idx = pm.pattern_idx;
                match self.patterns[idx].deadline_ticks {
                    Some(deadline) => {
                        let elapsed = t.saturating_sub(pm.created_at_tick);
                        if elapsed > deadline {
                            ends = true;
                            let name = &self.patterns[idx].name;
                            if !name_hidden(&self.patterns, name) {
                                let e = SiftEvent::Expired {
                                    pattern: name.clone(),
                                    match_id: pm.id,
                                    bindings: pm.bindings.duplicate(),
                                    stage_reached: pm.next_stage,
                                    ticks_elapsed: elapsed,
                                    metadata: crate::engine::free::copy_strings(&self.patterns[idx].metadata),
                                };
                                events.push(e);
                            }
                            let mut exp = Vec::new();
                            std::mem::swap(&mut exp, &mut self.tick_expired);
                            push_new(&mut exp, name);
                            proof {
                                lemma_distinct_views(exp_before);
                                lemma_distinct_views(exp@);
                            }
                            self.tick_expired = exp;
                        }
                    },
                    None => {},
                }
                if !ends {
                    match self.patterns[idx].inactivity_threshold {
                        Some(th) => {
                            if t - pm.last_advanced_tick >= th {
                                ends = true;
                            }
                        },
                        None => {},
                    }
                }
            }
            proof {
                assert(ends == !f(pm));
                assert forall|x: Seq<char>|
                    #[trigger] views(self.tick_expired@).contains(x) <==> (views(old_exp).contains(x) || expired_name_in(
                        self.patterns@,
                        t,
                        orig,
                        c + 1,
                        x,
                    )) by {
                    let nm = self.patterns@[orig[c].pattern_idx as int].name@;
                    lemma_contains_push(views(exp_before), nm, x);
                    lemma_expired_name_step(self.patterns@, t, orig, c, x);
                    assert(views(exp_before).contains(x) <==> (views(old_exp).contains(x) || expired_name_in(
                        self.patterns@,
                        t,
                        orig,
                        c,
                        x,
                    )));
                }
            }
            if !ends {
                kept.push(pm);
            }
            proof {
                c = c + 1;
            }
        }
        proof {
            assert(orig.subrange(0, c) =~= orig);
            lemma_filter_sub(orig, f);
            lemma_filter_ids_distinct(orig, f);
        }
        self.partial_matches = kept;
        let advanced = take_visible(&mut self.tick_advanced, &self.patterns);
        let completed = take_visible(&mut self.tick_completed, &self.patterns);
        let negated = take_visible(&mut self.tick_negated, &self.patterns);
        let expired = take_visible(&mut self.tick_expired, &self.patterns);
        let stalled = self.stalled_names(stale_threshold);
        let active_pm_count = count_active(&self.partial_matches, None);
        (TickDelta { advanced, completed, negated, expired, stalled, active_pm_count }, events)
    }
}

/// Which per-step record an event goes to: advancements, completions, or
/// negations and expiries together.
pub open spec fn record_slot<N, V>(e: SiftEvent<N, V>) -> int {
    if event_kind(e) < 2 {
        event_kind(e)
    } else {
        2
    }
}

/// The pattern names of the events of record slot `k`, in order.
pub open spec fn slot_names<N, V>(events: Seq<SiftEvent<N, V>>, k: int) -> Seq<Seq<char>>
    decreases events.len(),
{
    if events.len() == 0 {
        Seq::empty()
    } else {
        slot_names(events.drop_last(), k) + if record_slot(events.last()) == k {
            seq![event_pattern(events.last())]
        } else {
            Seq::empty()
        }
    }
}

/// `base` with the names of `names` appended, each unless already there.
pub open spec fn names_added(base: Seq<Seq<char>>, names: Seq<Seq<char>>) -> Seq<Seq<char>>
    decreases names.len(),
{
    if names.len() == 0 {
        base
    } else {
        let r = names_added(base, names.drop_last());
        if r.contains(names.last()) {
            r
        } else {
            r.push(names.last())
        }
    }
}

/// The counters `v` after one saturating increment, at the position of the
/// first pattern with the event's name, for each event of record slot `k`.
pub open spec fn bumped_counts<N, V>(v: Seq<u64>, events: Seq<SiftEvent<N, V>>, k: int, names: Seq<Seq<char>>) -> Seq<u64>
    decreases events.len(),
{
    if events.len() == 0 {
        v
    } else {
        let w = bumped_counts(v, events.drop_last(), k, names);
        match position_of(names, event_pattern(events.last())) {
            Some(i) => if record_slot(events.last()) == k && 0 <= i < w.len() {
                w.update(i, sat_inc(w[i]))
            } else {
                w
            },
            None => w,
        }
    }
}

/// The last-advanced ticks `v` after each advancement or completion event
/// sets its pattern's entry to `tick`.
pub open spec fn touched_ticks<N, V>(v: Seq<u64>, events: Seq<SiftEvent<N, V>>, names: Seq<Seq<char>>, tick: u64) -> Seq<u64>
    decreases events.len(),
{
    if events.len() == 0 {
        v
    } else {
        let w = touched_ticks(v, events.drop_last(), names, tick);
        match position_of(names, event_pattern(events.last())) {
            Some(i) => if record_slot(events.last()) < 2 && 0 <= i < w.len() {
                w.update(i, tick)
            } else {
                w
            },
            None => w,
        }
    }
}

impl<N, L, V, E> SiftEngine<N, L, V, E> {
    /// Update the per-pattern metrics and the per-tick name lists from the
    /// events of one incremental step.
    fn record_events(&mut self, events: &Vec<SiftEvent<N, V>>)
        requires
            old(self).wf(),
        ensures
            final(self).wf(),
            final(self).pattern_seq() == old(self).pattern_seq(),
            final(self).evaluator_spec() == old(self).evaluator_spec(),
            final(self).pm_seq() == old(self).pm_seq(),
            final(self).enabled_seq() == old(self).enabled_seq(),
            final(self).tick_count() == old(self).tick_count(),
            final(self).next_id() == old(self).next_id(),
            final(self).stats_spec() == old(self).stats_spec(),
            final(self).pair_seq() == old(self).pair_seq(),
            final(self).advancement_seq() == bumped_counts(old(self).advancement_seq(), events@, 0, pattern_names(old(self).pattern_seq())),
            final(self).completion_seq() == bumped_counts(old(self).completion_seq(), events@, 1, pattern_names(old(self).pattern_seq())),
            final(self).negation_seq() == bumped_counts(old(self).negation_seq(), events@, 2, pattern_names(old(self).pattern_seq())),
            final(self).last_advanced_seq() == touched_ticks(
                old(self).last_advanced_seq(),
                events@,
                pattern_names(old(self).pattern_seq()),
                old(self).tick_count(),
            ),
            views(final(self).tick_names().0) == names_added(views(old(self).tick_names().0), slot_names(events@, 0)),
            views(final(self).tick_names().1) == names_added(views(old(self).tick_names().1), slot_names(events@, 1)),
            views(final(self).tick_names().2) == names_added(views(old(self).tick_names().2), slot_names(events@, 2)),
            final(self).tick_names().3 == old(self).tick_names().3,
    {
        let ghost names = pattern_names(self.patterns@);
        let mut i: usize = 0;
        while i < events.len()
            invariant
                i <= events@.len(),
                self.wf(),
                names == pattern_names(self.patterns@),
                self.let_evaluator == old(self).let_evaluator,
                self.advancement_count@ == bumped_counts(old(self).advancement_count@, events@.take(i as int), 0, names),
                self.completion_count@ == bumped_counts(old(self).completion_count@, events@.take(i as int), 1, names),
                self.negation_count@ == bumped_counts(old(self).negation_count@, events@.take(i as int), 2, names),
                self.last_advanced_tick@ == touched_ticks(old(self).last_advanced_tick@, events@.take(i as int), names, self.tick_counter),
                views(self.tick_advanced@) == names_added(views(old(self).tick_advanced@), slot_names(events@.take(i as int), 0)),
                views(self.tick_completed@) == names_added(views(old(self).tick_completed@), slot_names(events@.take(i as int), 1)),
                views(self.tick_negated@) == names_added(views(old(self).tick_negated@), slot_names(events@.take(i as int), 2)),
                self.tick_expired@ == old(self).tick_expired@,
                self.patterns@ == old(self).patterns@,
                self.partial_matches@ == old(self).partial_matches@,
                self.enabled@ == old(self).enabled@,
                self.tick_counter == old(self).tick_counter,
                self.next_match_id == old(self).next_match_id,
                self.stats == old(self).stats,
                self.plant_payoff_pairs@ == old(self).plant_payoff_pairs@,
            decreases events@.len() - i,
        {
            proof {
                let t = events@.take(i + 1);
                assert(t.drop_last() =~= events@.take(i as int));
                assert(t.last() == events@[i as int]);
                let slot0 = slot_names(events@.take(i as int), 0);
                let slot1 = slot_names(events@.take(i as int), 1);
                let slot2 = slot_names(events@.take(i as int), 2);
                assert(slot0.push(event_pattern(events@[i as int])).drop_last() =~= slot0);
                assert(slot1.push(event_pattern(events@[i as int])).drop_last() =~= slot1);
                assert(slot2.push(event_pattern(events@[i as int])).drop_last() =~= slot2);
                assert(slot0 + Seq::<Seq<char>>::empty() =~= slot0);
                assert(slot1 + Seq::<Seq<char>>::empty() =~= slot1);
                assert(slot2 + Seq::<Seq<char>>::empty() =~= slot2);
                assert(slot0 + seq![event_pattern(events@[i as int])] =~= slot0.push(event_pattern(events@[i as int])));
                assert(slot1 + seq![event_pattern(events@[i as int])] =~= slot1.push(event_pattern(events@[i as int])));
                assert(slot2 + seq![event_pattern(events@[i as int])] =~= slot2.push(event_pattern(events@[i as int])));
            }
            match &events[i] {
                SiftEvent::Advanced { pattern, .. } => {
                    match crate::engine::eval::pattern_by_name(&self.patterns, pattern) {
                        Some(idx) => {
                            crate::engine::eval::bump_at(&mut self.advancement_count, idx);
                            self.last_advanced_tick.set(idx, self.tick_counter);
                        },
                        None => {},
                    }
                    let mut list = Vec::new();
                    std::mem::swap(&mut list, &mut self.tick_advanced);
                    push_name(&mut list, pattern);
                    self.tick_advanced = list;
                },
                SiftEvent::Completed { pattern, .. } => {
                    match crate::engine::eval::pattern_by_name(&self.patterns, pattern) {
                        Some(idx) => {
                            crate::engine::eval::bump_at(&mut self.completion_count, idx);
                            self.last_advanced_tick.set(idx, self.tick_counter);
                        },
                        None => {},
                    }
                    let mut list = Vec::new();
                    std::mem::swap(&mut list, &mut self.tick_completed);
                    push_name(&mut list, pattern);
                    self.tick_completed = list;
                },
                SiftEvent::Negated { pattern, .. } | SiftEvent::Expired { pattern, .. } => {
                    match crate::engine::eval::pattern_by_name(&self.patterns, pattern) {
                        Some(idx) => {
                            crate::engine::eval::bump_at(&mut self.negation_count, idx);
                        },
                        None => {},
                    }
                    let mut list = Vec::new();
                    std::mem::swap(&mut list, &mut self.tick_negated);
                    push_name(&mut list, pattern);
                    self.tick_negated = list;
                },
            }
            i = i + 1;
        }
        proof {
            assert(events@.take(events@.len() as int) =~= events@);
        }
    }
}

/// The partial matches of `new` that are not in `old` have pairwise
/// distinct fingerprints, none of them the fingerprint of a partial match of
/// `old`.
pub open spec fn fingerprints_fresh<N, V>(old: Seq<PartialMatch<N, V, i64>>, new: Seq<PartialMatch<N, V, i64>>) -> bool {
    &&& forall|i: int, j: int|
        0 <= i < new.len() && 0 <= j < old.len() && !old.contains(#[trigger] new[i]) ==> (#[trigger] old[j]).fingerprint
            != new[i].fingerprint
    &&& forall|i: int, j: int|
        0 <= i < j < new.len() && !old.contains(#[trigger] new[i]) && !old.contains(#[trigger] new[j])
            ==> new[i].fingerprint != new[j].fingerprint
}

/// Kept partial matches that are not old ones came from a run of fresh
/// fingerprints recorded after every old one.
proof fn lemma_fingerprints_fresh<N, V>(
    old_pms: Seq<PartialMatch<N, V, i64>>,
    kept: Seq<PartialMatch<N, V, i64>>,
    fresh: Seq<PartialMatch<N, V, i64>>,
    s0: Seq<u64>,
    s2: Seq<u64>,
)
    requires
        forall|i: int| 0 <= i < kept.len() ==> old_pms.contains(#[trigger] kept[i]) || fresh.contains(kept[i]),
        ids_distinct(kept),
        forall|j: int| 0 <= j < old_pms.len() ==> s0.contains(#[trigger] old_pms[j].fingerprint),
        crate::engine::eval::fps_fresh(fresh, s0, s2),
    ensures
        fingerprints_fresh(old_pms, kept),
{
    assert forall|i: int, j: int|
        0 <= i < kept.len() && 0 <= j < old_pms.len() && !old_pms.contains(#[trigger] kept[i]) implies (#[trigger] old_pms[j]).fingerprint
        != kept[i].fingerprint by {
        let k = choose|k: int| 0 <= k < fresh.len() && fresh[k] == kept[i];
        assert(!s0.contains(fresh[k].fingerprint));
        assert(s0.contains(old_pms[j].fingerprint));
    }
    assert forall|i: int, j: int|
        0 <= i < j < kept.len() && !old_pms.contains(#[trigger] kept[i]) && !old_pms.contains(#[trigger] kept[j]) implies kept[i].fingerprint
        != kept[j].fingerprint by {
        let a = choose|a: int| 0 <= a < fresh.len() && fresh[a] == kept[i];
        let b = choose|b: int| 0 <= b < fresh.len() && fresh[b] == kept[j];
        assert(kept[i].id != kept[j].id);
        assert(a != b);
        if a < b {
            assert(fresh[a].fingerprint != fresh[b].fingerprint);
        } else {
            assert(fresh[b].fingerprint != fresh[a].fingerprint);
        }
    }
}

/// The storage after one incremental step is the old partial matches (some
/// active ones marked dead) followed by the fresh ones, some active ones of
/// all of them marked dead again, without the dead ones. Then: everything
/// kept is live and consistent; every kept partial match is an old one or a
/// fresh one; old partial matches that were not active are kept; old ones
/// marked dead are gone.
proof fn lemma_step_storage<N, V>(
    old_pms: Seq<PartialMatch<N, V, i64>>,
    c: Seq<PartialMatch<N, V, i64>>,
    d: Seq<PartialMatch<N, V, i64>>,
    fresh: Seq<PartialMatch<N, V, i64>>,
    lo: usize,
    hi: usize,
    enabled: Seq<bool>,
    tick: u64,
)
    requires
        forall|i: int| 0 <= i < old_pms.len() ==> (#[trigger] old_pms[i]).state != MatchState::Dead,
        ids_distinct(old_pms),
        forall|i: int| 0 <= i < old_pms.len() ==> (#[trigger] old_pms[i]).id < lo,
        forall|i: int| 0 <= i < old_pms.len() ==> (#[trigger] old_pms[i]).pattern_idx < enabled.len(),
        forall|i: int|
            0 <= i < old_pms.len() ==> (#[trigger] old_pms[i]).last_advanced_tick <= tick && old_pms[i].created_at_tick <= tick,
        c.len() == old_pms.len() + fresh.len(),
        forall|i: int|
            0 <= i < old_pms.len() ==> #[trigger] c[i] == old_pms[i] || c[i] == with_state(old_pms[i], MatchState::Dead),
        forall|i: int| 0 <= i < old_pms.len() && old_pms[i].state != MatchState::Active ==> #[trigger] c[i] == old_pms[i],
        forall|i: int| 0 <= i < fresh.len() ==> #[trigger] c[old_pms.len() + i] == fresh[i],
        crate::engine::eval::fresh_pms(fresh, lo, hi, enabled, tick),
        crate::engine::eval::marks_active(c, d),
        lo <= hi,
    ensures
        forall|i: int| 0 <= i < d.filter(live::<N, V>()).len() ==> {
            let x = #[trigger] d.filter(live::<N, V>())[i];
            &&& x.state != MatchState::Dead
            &&& x.pattern_idx < enabled.len()
            &&& x.id < hi
            &&& x.last_advanced_tick <= tick
            &&& x.created_at_tick <= tick
            &&& (old_pms.contains(x) || (x.id >= lo && x.last_advanced_tick == tick && enabled[x.pattern_idx as int]))
            &&& (old_pms.contains(x) || fresh.contains(x))
        },
        ids_distinct(d.filter(live::<N, V>())),
        forall|i: int| 0 <= i < old_pms.len() && old_pms[i].state != MatchState::Active ==> d.filter(live::<N, V>()).contains(
            #[trigger] old_pms[i],
        ),
        forall|i: int|
            0 <= i < old_pms.len() && (#[trigger] c[i]).state == MatchState::Dead ==> !d.filter(live::<N, V>()).contains(old_pms[i]),
{
    let n = old_pms.len();
    let f = d.filter(live::<N, V>());
    assert forall|i: int| 0 <= i < d.len() implies (#[trigger] d[i]).id == c[i].id by {}
    assert forall|i: int| 0 <= i < n implies #[trigger] d[i] == old_pms[i] || d[i] == with_state(old_pms[i], MatchState::Dead) by {
        assert(d[i] == c[i] || d[i] == with_state(c[i], MatchState::Dead));
    }
    assert forall|k: int| 0 <= k < fresh.len() implies #[trigger] d[n + k] == fresh[k] || d[n + k] == with_state(fresh[k], MatchState::Dead) by {
        assert(c[n + k] == fresh[k]);
        assert(d[n + k] == c[n + k] || d[n + k] == with_state(c[n + k], MatchState::Dead));
    }
    assert(ids_distinct(d)) by {
        assert forall|i: int, j: int| 0 <= i < d.len() && 0 <= j < d.len() && i != j implies (#[trigger] d[i]).id != (#[trigger] d[j]).id by {
            if i < n && j < n {
                assert(d[i].id == old_pms[i].id);
                assert(d[j].id == old_pms[j].id);
            } else if i < n {
                assert(d[i].id == old_pms[i].id);
                assert(d[n + (j - n)] == fresh[j - n] || d[n + (j - n)] == with_state(fresh[j - n], MatchState::Dead));
            } else if j < n {
                assert(d[j].id == old_pms[j].id);
                assert(d[n + (i - n)] == fresh[i - n] || d[n + (i - n)] == with_state(fresh[i - n], MatchState::Dead));
            } else {
                assert(d[n + (i - n)] == fresh[i - n] || d[n + (i - n)] == with_state(fresh[i - n], MatchState::Dead));
                assert(d[n + (j - n)] == fresh[j - n] || d[n + (j - n)] == with_state(fresh[j - n], MatchState::Dead));
                if i < j {
                    assert(fresh[i - n].id < fresh[j - n].id);
                } else {
                    assert(fresh[j - n].id < fresh[i - n].id);
                }
            }
        }
    }
    lemma_filter_sub(d, live::<N, V>());
    lemma_filter_ids_distinct(d, live::<N, V>());
    assert forall|i: int| 0 <= i < f.len() implies {
        let x = #[trigger] f[i];
        &&& x.state != MatchState::Dead
        &&& x.pattern_idx < enabled.len()
        &&& x.id < hi
        &&& x.last_advanced_tick <= tick
        &&& x.created_at_tick <= tick
        &&& (old_pms.contains(x) || (x.id >= lo && x.last_advanced_tick == tick && enabled[x.pattern_idx as int]))
        &&& (old_pms.contains(x) || fresh.contains(x))
    } by {
        let x = f[i];
        assert(d.contains(x));
        let j = choose|j: int| 0 <= j < d.len() && d[j] == x;
        assert(x.state != MatchState::Dead);
        if j < n {
            assert(d[j] == old_pms[j]);
            assert(old_pms.contains(x));
        } else {
            let k = j - n;
            assert(d[n + k] == fresh[k]);
            assert(fresh.contains(x));
        }
    }
    assert forall|i: int| 0 <= i < n && old_pms[i].state != MatchState::Active implies f.contains(#[trigger] old_pms[i]) by {
        assert(c[i] == old_pms[i]);
        assert(d[i] == c[i]);
        d.lemma_filter_contains(live::<N, V>(), i);
    }
    assert forall|i: int| 0 <= i < n && (#[trigger] c[i]).state == MatchState::Dead implies !f.contains(old_pms[i]) by {
        if f.contains(old_pms[i]) {
            let w = choose|w: int| 0 <= w < f.len() && f[w] == old_pms[i];
            assert(d.contains(f[w]));
            let j = choose|j: int| 0 <= j < d.len() && d[j] == f[w];
            assert(d[j].state != MatchState::Dead);
            assert(d[i].state == MatchState::Dead);
            if j < n {
                assert(d[j] == old_pms[j]);
                assert(old_pms[j].id == old_pms[i].id);
            } else {
                assert(d[n + (j - n)] == fresh[j - n]);
            }
        }
    }
}

impl<N, L, V, E> SiftEngine<N, L, V, E> where
    N: PartialEq + Clone + Hash + Debug,
    L: PartialEq + Clone + Debug,
    V: PartialOrd + Clone + Hash + Debug,
    E: LetEvaluator<N, V>,
 {
    /// Incremental matching: a new edge `source --label--> value` during
    /// `interval` was added to the graph. Active partial matches whose
    /// negation window the edge violates die; new partial matches start
    /// from the edge; active partial matches advance by it; partial
    /// matches of a pattern in an exclusive choice group die when another
    /// pattern of the group completes. Returns the events, without those of
    /// private patterns.
    ///
    /// The events are the `Negated` ones first, then one `Advanced` or
    /// `Completed` event per partial match made, in the order they were made;
    /// the pattern counters and tick name lists count them. When the graph's
    /// types compare and clone by their specifications and either no pattern
    /// has `let` bindings or the engine's `let` evaluator follows its
    /// specification, which partial matches die, which are made (each
    /// candidate unless its fingerprint was already seen) and which remain
    /// is stated exactly.
    #[verifier::rlimit(100)]
    #[verifier::spinoff_prover]
    pub fn on_edge_added<DS: DataSource<N = N, L = L, V = V>>(
        &mut self,
        ds: &DS,
        source: &N,
        label: &L,
        value: &V,
        interval: &Interval<i64>,
    ) -> (r: Vec<SiftEvent<N, V>>)
        requires
            old(self).wf(),
        ensures
            final(self).wf(),
            final(self).pattern_seq() == old(self).pattern_seq(),
            final(self).enabled_seq() == old(self).enabled_seq(),
            final(self).tick_count() == old(self).tick_count(),
            final(self).pair_seq() == old(self).pair_seq(),
            final(self).next_id() >= old(self).next_id(),
            forall|i: int| 0 <= i < r@.len() ==> !hidden(old(self).pattern_seq(), event_pattern(#[trigger] r@[i])),
            forall|i: int|
                0 <= i < final(self).pm_seq().len() ==> old(self).pm_seq().contains(#[trigger] final(self).pm_seq()[i]) || (
                final(self).pm_seq()[i].id >= old(self).next_id() && final(self).pm_seq()[i].last_advanced_tick == old(
                    self,
                ).tick_count() && old(self).enabled_seq()[final(self).pm_seq()[i].pattern_idx as int]),
            forall|i: int|
                0 <= i < old(self).pm_seq().len() && (#[trigger] old(self).pm_seq()[i]).state == MatchState::Complete
                    ==> final(self).pm_seq().contains(old(self).pm_seq()[i]),
            lawful::<DS>() ==> forall|i: int|
                0 <= i < old(self).pm_seq().len() && (#[trigger] old(self).pm_seq()[i]).state == MatchState::Active && crate::engine::negation::kills(
                    *ds,
                    old(self).pattern_seq()[old(self).pm_seq()[i].pattern_idx as int],
                    old(self).pm_seq()[i].bindings@,
                    old(self).pm_seq()[i].intervals@,
                    *source,
                    *label,
                    *value,
                    interval.start,
                    ds.now_spec(),
                ) ==> !final(self).pm_seq().contains(old(self).pm_seq()[i]),
            fingerprints_fresh(old(self).pm_seq(), final(self).pm_seq()),
            forall|i: int|
                0 <= i < final(self).pm_seq().len() && !old(self).pm_seq().contains(#[trigger] final(self).pm_seq()[i])
                    ==> crate::engine::eval::took_edge(
                    final(self).pm_seq()[i],
                    old(self).pattern_seq()[final(self).pm_seq()[i].pattern_idx as int],
                    *interval,
                ),
            forall|i: int|
                0 <= i < r@.len() ==> crate::engine::eval::completion_reported(
                    #[trigger] r@[i],
                    final(self).pm_seq(),
                    old(self).pattern_seq(),
                ),
            forall|i: int|
                0 <= i < r@.len() ==> crate::engine::eval::negation_reported(
                    #[trigger] r@[i],
                    old(self).pm_seq(),
                    final(self).pm_seq(),
                    old(self).pattern_seq(),
                ),
            final(self).stats_spec().total_on_edge_added == crate::engine::eval::sat_inc(old(self).stats_spec().total_on_edge_added),
            old(self).stats_spec().total_fingerprints <= final(self).stats_spec().total_fingerprints,
            old(self).stats_spec().total_negation_checks <= final(self).stats_spec().total_negation_checks,
            final(self).stats_spec().peak_active_pms == if active_count(final(self).pm_seq(), None) > old(self).stats_spec().peak_active_pms {
                active_count(final(self).pm_seq(), None)
            } else {
                old(self).stats_spec().peak_active_pms as nat
            },
            exists|ev: Seq<SiftEvent<N, V>>|
                #![trigger ev.filter(crate::engine::eval::visible_pred::<N, L, V>(old(self).pattern_seq()))]
                {
                    &&& r@ == ev.filter(crate::engine::eval::visible_pred::<N, L, V>(old(self).pattern_seq()))
                    &&& final(self).advancement_seq() == bumped_counts(
                        old(self).advancement_seq(),
                        ev,
                        0,
                        pattern_names(old(self).pattern_seq()),
                    )
                    &&& final(self).completion_seq() == bumped_counts(
                        old(self).completion_seq(),
                        ev,
                        1,
                        pattern_names(old(self).pattern_seq()),
                    )
                    &&& final(self).negation_seq() == bumped_counts(
                        old(self).negation_seq(),
                        ev,
                        2,
                        pattern_names(old(self).pattern_seq()),
                    )
                    &&& final(self).last_advanced_seq() == touched_ticks(
                        old(self).last_advanced_seq(),
                        ev,
                        pattern_names(old(self).pattern_seq()),
                        old(self).tick_count(),
                    )
                    &&& views(final(self).tick_names().0) == names_added(views(old(self).tick_names().0), slot_names(ev, 0))
                    &&& views(final(self).tick_names().1) == names_added(views(old(self).tick_names().1), slot_names(ev, 1))
                    &&& views(final(self).tick_names().2) == names_added(views(old(self).tick_names().2), slot_names(ev, 2))
                    &&& final(self).tick_names().3 == old(self).tick_names().3
                    &&& lawful::<DS>() && (all_let_free(old(self).pattern_seq()) || old(self).evaluator_spec().obeys_evaluate_spec()) ==> exists|
                        a: Seq<PartialMatch<N, V, i64>>,
                        s0: Seq<u64>,
                        fi: Seq<u64>,
                        ni: Seq<PartialMatch<N, V, i64>>,
                        s1: Seq<u64>,
                        id1: usize,
                        fa: Seq<u64>,
                        na: Seq<PartialMatch<N, V, i64>>,
                        s2: Seq<u64>,
                        cons: Seq<usize>,
                        e1: Seq<SiftEvent<N, V>>,
                    |
                        #![trigger crate::engine::eval::edge_outcome(*ds, old(self).evaluator_spec(), old(self).pattern_seq(), old(self).enabled_seq(), old(self).pm_seq(), old(self).next_id(), old(self).tick_count(), *source, *label, *value, *interval, a, s0, fi, ni, s1, id1, fa, na, s2, final(self).next_id(), cons), crate::engine::eval::made_events(e1, ev, ni, na, old(self).pattern_seq())]
                        {
                            &&& crate::engine::eval::edge_outcome(
                                *ds,
                                old(self).evaluator_spec(),
                                old(self).pattern_seq(),
                                old(self).enabled_seq(),
                                old(self).pm_seq(),
                                old(self).next_id(),
                                old(self).tick_count(),
                                *source,
                                *label,
                                *value,
                                *interval,
                                a,
                                s0,
                                fi,
                                ni,
                                s1,
                                id1,
                                fa,
                                na,
                                s2,
                                final(self).next_id(),
                                cons,
                            )
                            &&& crate::engine::eval::made_events(e1, ev, ni, na, old(self).pattern_seq())
                            &&& crate::engine::eval::kills_reported(e1, old(self).pm_seq(), a, old(self).pattern_seq(), *source)
                            &&& forall|w: int| 0 <= w < e1.len() ==> cloned(*source, (#[trigger] e1[w])->Negated_trigger_source)
                            &&& final(self).pm_seq() == crate::engine::eval::excluded_seq(
                                crate::engine::eval::consumed_seq(a, cons) + ni + na,
                                old(self).pattern_seq(),
                                ev,
                            ).filter(live::<N, V>())
                        }
                },
    {
        let ghost old_pms = self.partial_matches@;
        self.stats.total_on_edge_added = crate::engine::eval::bump(self.stats.total_on_edge_added);
        let mut st = crate::engine::eval::StepState {
            next_id: self.next_match_id,
            stats: self.stats,
            seen: crate::engine::fingerprint::SeenSet::new(),
            events: Vec::new(),
        };
        let mut i: usize = 0;
        while i < self.partial_matches.len()
            invariant
                i <= self.partial_matches@.len(),
                st.next_id == self.next_match_id,
                st.events@.len() == 0,
                self.partial_matches@ == old_pms,
                st.stats == self.stats,
                self.stats.total_on_edge_added == crate::engine::eval::sat_inc(old(self).stats.total_on_edge_added),
                self.stats.total_fingerprints == old(self).stats.total_fingerprints,
                self.stats.total_negation_checks == old(self).stats.total_negation_checks,
                self.stats.peak_active_pms == old(self).stats.peak_active_pms,
                forall|j: int| 0 <= j < i ==> st.seen@.contains(#[trigger] old_pms[j].fingerprint),
                forall|f: u64| #[trigger] st.seen@.contains(f) ==> exists|j: int| 0 <= j < i && (#[trigger] old_pms[j]).fingerprint == f,
            decreases self.partial_matches@.len() - i,
        {
            let ghost seen_before = st.seen@;
            st.seen.insert(self.partial_matches[i].fingerprint);
            proof {
                assert forall|f: u64| #[trigger] st.seen@.contains(f) implies exists|j: int| 0 <= j < i + 1 && (#[trigger] old_pms[j]).fingerprint == f by {
                    lemma_contains_push(seen_before, old_pms[i as int].fingerprint, f);
                    if f == old_pms[i as int].fingerprint {
                        assert(old_pms[i as int].fingerprint == f);
                    } else {
                        let j = choose|j: int| 0 <= j < i && (#[trigger] old_pms[j]).fingerprint == f;
                        assert(old_pms[j].fingerprint == f);
                    }
                }
                assert forall|j: int| 0 <= j < i + 1 implies st.seen@.contains(#[trigger] old_pms[j].fingerprint) by {
                    if j < i {
                        lemma_contains_push(seen_before, self.partial_matches@[i as int].fingerprint, old_pms[j].fingerprint);
                    }
                }
            }
            i = i + 1;
        }
        let ghost s0 = st.seen@;
        let seen_count = st.seen.len() as u64;
        st.stats.total_fingerprints = st.stats.total_fingerprints.saturating_add(seen_count);
        let ghost stats0 = st.stats;
        proof {
            assert(stats0.total_on_edge_added == crate::engine::eval::sat_inc(old(self).stats.total_on_edge_added));
            assert(old(self).stats.total_fingerprints <= stats0.total_fingerprints);
        }
        crate::engine::eval::negation_phase(
            ds,
            &self.patterns,
            &mut self.partial_matches,
            source,
            label,
            value,
            interval,
            &mut st,
        );
        proof {
            assert forall|i: int| 0 <= i < st.events@.len() implies crate::engine::eval::completion_reported(
                #[trigger] st.events@[i],
                Seq::<PartialMatch<N, V, i64>>::empty(),
                self.patterns@,
            ) by {
                assert(!(st.events@[i] is Completed));
            }
        }
        let ghost e1 = st.events@;
        let ghost stats1 = st.stats;
        let ghost a = self.partial_matches@;
        let ghost lo = st.next_id;
        let mut new_matches = crate::engine::eval::initiation_phase(
            ds,
            &self.patterns,
            &self.enabled,
            self.tick_counter,
            &self.let_evaluator,
            source,
            label,
            value,
            interval,
            &mut st,
            Ghost(Seq::empty()),
        );
        proof {
            assert(Seq::<PartialMatch<N, V, i64>>::empty() + new_matches@ =~= new_matches@);
        }
        let ghost mid = st.next_id;
        let ghost stats2 = st.stats;
        let ghost s1 = st.seen@;
        let ghost e2 = st.events@;
        let mut consume: Vec<usize> = Vec::new();
        proof {
            assert(crate::engine::eval::consumable(consume@, self.partial_matches@));
        }
        let mut advanced = crate::engine::eval::advancement_phase(
            ds,
            &self.patterns,
            &self.enabled,
            &self.partial_matches,
            self.tick_counter,
            &self.let_evaluator,
            source,
            label,
            value,
            interval,
            &mut st,
            &mut consume,
            Ghost(new_matches@),
        );
        let ghost fresh = new_matches@ + advanced@;
        let ghost ni = new_matches@;
        let ghost na = advanced@;
        let ghost cons = consume@;
        proof {
            crate::engine::eval::lemma_fresh_concat(new_matches@, advanced@, lo, mid, st.next_id, self.enabled@, self.tick_counter);
            crate::engine::eval::lemma_fps_concat(new_matches@, advanced@, s0, s1, st.seen@);
            crate::engine::eval::lemma_caused_concat(new_matches@, advanced@, self.patterns@, *interval);
            lemma_past_end_concat(new_matches@, advanced@, self.patterns@);
        }
        let ghost s2 = st.seen@;
        crate::engine::eval::apply_consume(&mut self.partial_matches, &consume);
        let ghost b = self.partial_matches@;
        proof {
            crate::engine::eval::lemma_marks_trans(old_pms, a, b);
        }
        self.partial_matches.append(&mut new_matches);
        self.partial_matches.append(&mut advanced);
        let ghost c = self.partial_matches@;
        proof {
            assert(c =~= b + fresh);
        }
        self.next_match_id = st.next_id;
        proof {
            assert(crate::engine::eval::stats_grown(stats0, stats1));
            assert(crate::engine::eval::stats_grown(stats1, stats2));
            assert(crate::engine::eval::stats_grown(stats2, st.stats));
        }
        self.stats = st.stats;
        let events = st.events;
        crate::engine::eval::exclude_choice_groups(&mut self.partial_matches, &self.patterns, &events);
        let ghost d = self.partial_matches@;
        retain_live(&mut self.partial_matches);
        proof {
            assert forall|k: int| 0 <= k < old_pms.len() implies #[trigger] c[k] == old_pms[k] || c[k] == with_state(
                old_pms[k],
                MatchState::Dead,
            ) by {
                assert(c[k] == b[k]);
            }
            assert forall|k: int| 0 <= k < old_pms.len() && old_pms[k].state != MatchState::Active implies #[trigger] c[k]
                == old_pms[k] by {
                assert(c[k] == b[k]);
            }
            assert forall|k: int| 0 <= k < fresh.len() implies #[trigger] c[old_pms.len() + k] == fresh[k] by {
                assert(c[old_pms.len() + k] == fresh[k]);
            }
            lemma_step_storage(old_pms, c, d, fresh, lo, st.next_id, self.enabled@, self.tick_counter);
            let kept = d.filter(live::<N, V>());
            assert forall|i: int| 0 <= i < kept.len() implies old_pms.contains(#[trigger] kept[i]) || fresh.contains(kept[i]) by {
                let x = kept[i];
            }
            lemma_fingerprints_fresh(old_pms, kept, fresh, s0, s2);
            assert forall|k: int| 0 <= k < fresh.len() && (#[trigger] fresh[k]).state == MatchState::Complete implies kept.contains(
                fresh[k],
            ) by {
                let n = old_pms.len() as int;
                assert(c[n + k] == fresh[k]);
                assert(d[n + k] == c[n + k]);
                d.lemma_filter_contains(live::<N, V>(), n + k);
            }
            crate::engine::eval::lemma_completions_sub(events@, fresh, kept, self.patterns@);
            assert forall|i: int| 0 <= i < kept.len() && (#[trigger] kept[i]).state == MatchState::Complete implies kept[i].next_stage
                >= self.patterns@[kept[i].pattern_idx as int].stages@.len() by {
                if old_pms.contains(kept[i]) {
                    let j = choose|j: int| 0 <= j < old_pms.len() && old_pms[j] == kept[i];
                    assert(old_pms[j].state == MatchState::Complete);
                } else {
                    let j = choose|j: int| 0 <= j < fresh.len() && fresh[j] == kept[i];
                    assert(fresh[j].state == MatchState::Complete);
                }
            }
            crate::engine::eval::lemma_appends_trans(e1, e2, events@);
            let e_all = events@;
            assert forall|w: int| 0 <= w < e_all.len() implies crate::engine::eval::negation_reported(
                #[trigger] e_all[w],
                old_pms,
                kept,
                self.patterns@,
            ) by {
                if e_all[w] is Negated {
                    assert(w < e1.len());
                    assert(e_all[w] == e1[w]);
                    assert(crate::engine::eval::killed_report(e1[w], old_pms, a, self.patterns@));
                    let j = choose|j: int|
                        0 <= j < old_pms.len() && j < a.len() && (#[trigger] old_pms[j]).id == e_all[w]->Negated_match_id
                            && old_pms[j].state == MatchState::Active && a[j].state == MatchState::Dead
                            && old_pms[j].pattern_idx < self.patterns@.len() && self.patterns@[old_pms[j].pattern_idx as int].name@
                            == e_all[w]->Negated_pattern@;
                    assert(b[j] == a[j] || b[j] == with_state(a[j], MatchState::Dead));
                    assert(c[j] == b[j]);
                    assert(c[j].state == MatchState::Dead);
                    assert(!kept.contains(old_pms[j]));
                    assert forall|k: int| 0 <= k < kept.len() implies (#[trigger] kept[k]).id != e_all[w]->Negated_match_id by {
                        let x = kept[k];
                        if x.id == old_pms[j].id {
                            if old_pms.contains(x) {
                                let j2 = choose|j2: int| 0 <= j2 < old_pms.len() && old_pms[j2] == x;
                                assert(old_pms[j2].id == old_pms[j].id);
                            } else {
                                assert(old_pms[j].id < lo);
                            }
                        }
                    }
                }
            }
            assert forall|i: int| 0 <= i < kept.len() && !old_pms.contains(#[trigger] kept[i]) implies crate::engine::eval::took_edge(
                kept[i],
                self.patterns@[kept[i].pattern_idx as int],
                *interval,
            ) by {
                let j = choose|j: int| 0 <= j < fresh.len() && fresh[j] == kept[i];
                assert(crate::engine::eval::caused_by(fresh, self.patterns@, *interval));
                assert(fresh[j] == kept[i]);
            }
            if lawful::<DS>() {
                assert forall|k: int|
                    0 <= k < old_pms.len() && (#[trigger] old_pms[k]).state == MatchState::Active && crate::engine::negation::kills(
                        *ds,
                        self.patterns@[old_pms[k].pattern_idx as int],
                        old_pms[k].bindings@,
                        old_pms[k].intervals@,
                        *source,
                        *label,
                        *value,
                        interval.start,
                        ds.now_spec(),
                    ) implies !self.partial_matches@.contains(old_pms[k]) by {
                    assert(a[k].state == MatchState::Dead);
                    assert(c[k] == b[k]);
                    assert(b[k] == a[k] || b[k] == with_state(a[k], MatchState::Dead));
                    assert(c[k].state == MatchState::Dead);
                }
            }
        }
        self.record_events(&events);
        let active = count_active(&self.partial_matches, None);
        if active > self.stats.peak_active_pms {
            self.stats.peak_active_pms = active;
        }
        let ghost all = events@;
        let r = crate::engine::eval::visible_events(events, &self.patterns);
        proof {
            assert forall|i: int| 0 <= i < r@.len() implies crate::engine::eval::completion_reported(
                #[trigger] r@[i],
                self.partial_matches@,
                self.patterns@,
            ) by {
                let w = choose|w: int| 0 <= w < all.len() && all[w] == r@[i];
                assert(crate::engine::eval::completion_reported(all[w], self.partial_matches@, self.patterns@));
            }
            assert forall|i: int| 0 <= i < r@.len() implies crate::engine::eval::negation_reported(
                #[trigger] r@[i],
                old_pms,
                self.partial_matches@,
                self.patterns@,
            ) by {
                let w = choose|w: int| 0 <= w < all.len() && all[w] == r@[i];
                assert(crate::engine::eval::negation_reported(all[w], old_pms, self.partial_matches@, self.patterns@));
            }
        }
        proof {
            let pats = self.patterns@;
            if lawful::<DS>() && (all_let_free(pats) || self.let_evaluator.obeys_evaluate_spec()) {
                let tick = self.tick_counter;
                let fi = choose|fps: Seq<u64>|
                    #[trigger] crate::engine::eval::dedupe_outcome(
                        crate::engine::eval::init_cands(*ds, self.let_evaluator, pats, self.enabled@, pats.len() as int, *source, *label, *value, *interval),
                        fps,
                        s0,
                        lo,
                        ni,
                        s1,
                        mid,
                        tick,
                        interval.start,
                    );
                let fa = choose|fps: Seq<u64>|
                    #[trigger] crate::engine::eval::adv_outcome(
                        crate::engine::eval::adv_cands(*ds, self.let_evaluator, pats, self.enabled@, a, a.len() as int, *source, *label, *value, *interval),
                        fps,
                        s1,
                        mid,
                        Seq::empty(),
                        na,
                        s2,
                        self.next_match_id,
                        cons,
                        a,
                        pats,
                        tick,
                    );
                assert(crate::engine::eval::negation_outcome(*ds, pats, old_pms, *source, *label, *value, *interval, a)) by {
                    assert forall|k: int| 0 <= k < old_pms.len() implies #[trigger] a[k] == if old_pms[k].state == MatchState::Active
                        && crate::engine::negation::kills(
                        *ds,
                        pats[old_pms[k].pattern_idx as int],
                        old_pms[k].bindings@,
                        old_pms[k].intervals@,
                        *source,
                        *label,
                        *value,
                        interval.start,
                        ds.now_spec(),
                    ) {
                        with_state(old_pms[k], MatchState::Dead)
                    } else {
                        old_pms[k]
                    } by {
                        assert(a[k] == old_pms[k] || (old_pms[k].state == MatchState::Active && a[k] == with_state(old_pms[k], MatchState::Dead)));
                    }
                }
                assert(crate::engine::eval::fingerprints_of(old_pms, s0)) by {
                    assert forall|f: u64| #[trigger] s0.contains(f) <==> exists|k: int| 0 <= k < old_pms.len() && (#[trigger] old_pms[k]).fingerprint == f by {
                        if exists|k: int| 0 <= k < old_pms.len() && (#[trigger] old_pms[k]).fingerprint == f {
                            let k = choose|k: int| 0 <= k < old_pms.len() && (#[trigger] old_pms[k]).fingerprint == f;
                            assert(s0.contains(old_pms[k].fingerprint));
                        }
                    }
                }
                assert(crate::engine::eval::dedupe_outcome(
                        crate::engine::eval::init_cands(*ds, self.let_evaluator, pats, self.enabled@, pats.len() as int, *source, *label, *value, *interval),
                        fi, s0, lo, ni, s1, mid, tick, interval.start));
                assert(crate::engine::eval::adv_outcome(
                        crate::engine::eval::adv_cands(*ds, self.let_evaluator, pats, self.enabled@, a, a.len() as int, *source, *label, *value, *interval),
                        fa, s1, mid, Seq::empty(), na, s2, self.next_match_id, cons, a, pats, tick));
                assert(crate::engine::eval::edge_outcome(*ds, self.let_evaluator, pats, self.enabled@, old_pms, lo, tick, *source, *label, *value, *interval, a, s0, fi, ni, s1, mid, fa, na, s2, self.next_match_id, cons));
                crate::engine::eval::lemma_track_concat(e1, e2, all, ni, na, pats);
                assert(all.subrange(0, e1.len() as int) =~= e1);
                assert(crate::engine::eval::made_events(e1, all, ni, na, pats));
                assert(e1.subrange(0, e1.len() as int) =~= e1);
                assert(crate::engine::eval::kills_reported(e1, old_pms, a, pats, *source));
                assert(b =~= crate::engine::eval::consumed_seq(a, cons));
                assert(d =~= crate::engine::eval::excluded_seq(c, pats, all));
                assert(c =~= crate::engine::eval::consumed_seq(a, cons) + ni + na);
                assert(self.partial_matches@ == crate::engine::eval::excluded_seq(crate::engine::eval::consumed_seq(a, cons) + ni + na, pats, all).filter(live::<N, V>()));
                assert(old(self).pm_seq() == old_pms);
                assert(old(self).next_id() == lo);
                assert(old(self).tick_count() == tick);
                assert(old(self).pattern_seq() == pats);
                assert(old(self).enabled_seq() == self.enabled@);
                assert(old(self).evaluator_spec() == self.let_evaluator);
                assert(self.next_id() == self.next_match_id);
                assert(exists|
                    a2: Seq<PartialMatch<N, V, i64>>,
                    s02: Seq<u64>,
                    fi2: Seq<u64>,
                    ni2: Seq<PartialMatch<N, V, i64>>,
                    s12: Seq<u64>,
                    id12: usize,
                    fa2: Seq<u64>,
                    na2: Seq<PartialMatch<N, V, i64>>,
                    s22: Seq<u64>,
                    cons2: Seq<usize>,
                    e12: Seq<SiftEvent<N, V>>,
                |
                    #![trigger crate::engine::eval::edge_outcome(*ds, old(self).evaluator_spec(), old(self).pattern_seq(), old(self).enabled_seq(), old(self).pm_seq(), old(self).next_id(), old(self).tick_count(), *source, *label, *value, *interval, a2, s02, fi2, ni2, s12, id12, fa2, na2, s22, self.next_id(), cons2), crate::engine::eval::made_events(e12, all, ni2, na2, old(self).pattern_seq())]
                    {
                        &&& crate::engine::eval::edge_outcome(*ds, old(self).evaluator_spec(), old(self).pattern_seq(), old(self).enabled_seq(), old(self).pm_seq(), old(self).next_id(), old(self).tick_count(), *source, *label, *value, *interval, a2, s02, fi2, ni2, s12, id12, fa2, na2, s22, self.next_id(), cons2)
                        &&& crate::engine::eval::made_events(e12, all, ni2, na2, old(self).pattern_seq())
                        &&& crate::engine::eval::kills_reported(e12, old(self).pm_seq(), a2, old(self).pattern_seq(), *source)
                        &&& forall|w: int| 0 <= w < e12.len() ==> cloned(*source, (#[trigger] e12[w])->Negated_trigger_source)
                        &&& self.pm_seq() == crate::engine::eval::excluded_seq(
                            crate::engine::eval::consumed_seq(a2, cons2) + ni2 + na2,
                            old(self).pattern_seq(),
                            all,
                        ).filter(live::<N, V>())
                    });
            }
            assert(old(self).pattern_seq() == pats);
            assert(r@ == all.filter(crate::engine::eval::visible_pred::<N, L, V>(old(self).pattern_seq())));
            assert(self.completion_seq() == bumped_counts(old(self).completion_seq(), all, 1, pattern_names(pats)));
            assert(self.negation_seq() == bumped_counts(old(self).negation_seq(), all, 2, pattern_names(pats)));
            assert(views(self.tick_names().1) == names_added(views(old(self).tick_names().1), slot_names(all, 1)));
            assert(views(self.tick_names().2) == names_added(views(old(self).tick_names().2), slot_names(all, 2)));
            assert(self.advancement_seq() == bumped_counts(old(self).advancement_seq(), all, 0, pattern_names(pats)));
            assert(self.last_advanced_seq() == touched_ticks(old(self).last_advanced_seq(), all, pattern_names(pats), old(self).tick_count()));
            assert(views(self.tick_names().0) == names_added(views(old(self).tick_names().0), slot_names(all, 0)));
            assert(self.tick_names().3 == old(self).tick_names().3);
        }
        r
    }
}

/// Every pattern is let-free.
pub open spec fn all_let_free<L, V>(patterns: Seq<Pattern<L, V>>) -> bool {
    forall|i: int| 0 <= i < patterns.len() ==> crate::engine::free::let_free(#[trigger] patterns[i])
}

/// The registry index, bindings and intervals of each match.
pub open spec fn indexed_views<N, V>(ms: Seq<Match<N, V, i64>>) -> Seq<
    (Option<usize>, Map<Seq<char>, BoundValue<N, V>>, Map<Seq<char>, Interval<i64>>),
> {
    ms.map_values(|m: Match<N, V, i64>| (m.pattern_idx, m.bindings@, m.intervals@))
}

/// Match views tagged with a registry index.
pub open spec fn tag_views<N, V>(vs: Seq<(Map<Seq<char>, BoundValue<N, V>>, Map<Seq<char>, Interval<i64>>)>, idx: usize) -> Seq<
    (Option<usize>, Map<Seq<char>, BoundValue<N, V>>, Map<Seq<char>, Interval<i64>>),
> {
    vs.map_values(|v: (Map<Seq<char>, BoundValue<N, V>>, Map<Seq<char>, Interval<i64>>)| (Some(idx), v.0, v.1))
}

/// What batch evaluation of the first `k` registered patterns reports at
/// time `now`: for each enabled pattern whose name is not private, in
/// registry order, its matches tagged with its index.
pub open spec fn evaluation_spec<DS: DataSource, E: LetEvaluator<DS::N, DS::V>>(
    ds: DS,
    e: E,
    patterns: Seq<Pattern<DS::L, DS::V>>,
    enabled: Seq<bool>,
    now: i64,
    k: int,
) -> Seq<(Option<usize>, Map<Seq<char>, BoundValue<DS::N, DS::V>>, Map<Seq<char>, Interval<i64>>)>
    decreases k,
{
    if k <= 0 {
        Seq::empty()
    } else {
        let prev = evaluation_spec(ds, e, patterns, enabled, now, k - 1);
        if enabled[k - 1] && !hidden(patterns, patterns[k - 1].name@) {
            prev + tag_views(crate::engine::free::pattern_matches_spec(ds, e, patterns[k - 1], now), (k - 1) as usize)
        } else {
            prev
        }
    }
}

/// A match reported by `evaluate`: found for a registered, enabled,
/// non-private pattern, carrying its index, name and metadata, and passing
/// its temporal constraints (and, for a lawful graph, its negations).
pub open spec fn engine_match<DS: DataSource>(
    ds: DS,
    patterns: Seq<Pattern<DS::L, DS::V>>,
    enabled: Seq<bool>,
    m: Match<DS::N, DS::V, i64>,
) -> bool {
    exists|idx: int|
        #![trigger patterns[idx]]
        0 <= idx < patterns.len() && enabled[idx] && m.pattern_idx == Some(idx as usize) && !hidden(patterns, m.pattern@)
            && m.pattern@ == patterns[idx].name@ && m.metadata@ == patterns[idx].metadata@ && crate::engine::steps::temporal_holds(
            patterns[idx],
            m.intervals@,
        ) && (lawful::<DS>() ==> crate::engine::negation::negations_clear(ds, patterns[idx], m.bindings@, m.intervals@))
}

impl<N, L, V, E> SiftEngine<N, L, V, E> where
    N: PartialEq + Clone + Hash + Debug,
    L: PartialEq + Clone + Debug,
    V: PartialOrd + Clone + Hash + Debug,
    E: LetEvaluator<N, V>,
 {
    /// Batch evaluation: all complete matches of the enabled patterns in the
    /// graph's current state (private patterns' matches left out).
    pub fn evaluate<DS: DataSource<N = N, L = L, V = V>>(&self, ds: &DS) -> (r: Vec<Match<N, V, i64>>)
        requires
            self.wf(),
        ensures
            forall|i: int| 0 <= i < r@.len() ==> #[trigger] engine_match(*ds, self.pattern_seq(), self.enabled_seq(), r@[i]),
            lawful::<DS>() && (all_let_free(self.pattern_seq()) || self.evaluator_spec().obeys_evaluate_spec()) ==> indexed_views(r@) == evaluation_spec(
                *ds,
                self.evaluator_spec(),
                self.pattern_seq(),
                self.enabled_seq(),
                ds.now_spec(),
                self.pattern_seq().len() as int,
            ),
    {
        let now = ds.now();
        let mut results: Vec<Match<N, V, i64>> = Vec::new();
        let mut idx: usize = 0;
        while idx < self.patterns.len()
            invariant
                idx <= self.patterns@.len(),
                self.wf(),
                now == ds.now_spec(),
                forall|i: int| 0 <= i < results@.len() ==> #[trigger] engine_match(*ds, self.patterns@, self.enabled@, results@[i]),
                lawful::<DS>() && (all_let_free(self.patterns@) || self.let_evaluator.obeys_evaluate_spec()) ==> indexed_views(results@) == evaluation_spec(
                    *ds,
                    self.let_evaluator,
                    self.patterns@,
                    self.enabled@,
                    now,
                    idx as int,
                ),
            decreases self.patterns@.len() - idx,
        {
            if self.enabled[idx] {
                let pattern = &self.patterns[idx];
                proof {
                    assert(engine_ready(self.patterns@[idx as int]));
                }
                let mut matches = crate::engine::free::evaluate_pattern_at(ds, pattern, &now, &self.let_evaluator);
                let hide = name_hidden(&self.patterns, &pattern.name);
                let ghost all = crate::engine::free::match_views(matches@);
                let ghost n0 = matches@.len();
                let ghost base = indexed_views(results@);
                proof {
                    assert forall|i: int| 0 <= i < matches@.len() implies #[trigger] reported_match_of(*ds, *pattern, matches@[i]) by {
                        assert(crate::engine::free::reported_match(*ds, *pattern, matches@[i]));
                    }
                    assert(all.skip(0) =~= all);
                    if lawful::<DS>() && all_let_free(self.patterns@) {
                        assert(crate::engine::free::let_free(self.patterns@[idx as int]));
                    }
                }
                while matches.len() > 0
                    invariant
                        idx < self.patterns@.len(),
                        *pattern == self.patterns@[idx as int],
                        self.enabled@[idx as int],
                        hide == hidden(self.patterns@, pattern.name@),
                        self.wf(),
                        matches@.len() <= n0,
                        all.len() == n0,
                        crate::engine::free::match_views(matches@) == all.skip(n0 - matches@.len()),
                        indexed_views(results@) == base + (if hide {
                            Seq::empty()
                        } else {
                            tag_views(all.take(n0 - matches@.len()), idx)
                        }),
                        forall|i: int| 0 <= i < matches@.len() ==> #[trigger] reported_match_of(*ds, *pattern, matches@[i]),
                        forall|i: int| 0 <= i < results@.len() ==> #[trigger] engine_match(*ds, self.patterns@, self.enabled@, results@[i]),
                    decreases matches@.len(),
                {
                    let ghost before = matches@;
                    let mut m = matches.remove(0);
                    proof {
                        assert(reported_match_of(*ds, *pattern, before[0]));
                        assert forall|i: int| 0 <= i < matches@.len() implies #[trigger] reported_match_of(*ds, *pattern, matches@[i]) by {
                            assert(matches@[i] == before[i + 1]);
                        }
                        let k = n0 - before.len();
                        assert(crate::engine::free::match_views(before)[0] == all[k]);
                        assert forall|i: int| 0 <= i < matches@.len() implies #[trigger] crate::engine::free::match_views(matches@)[i]
                            == all.skip(n0 - matches@.len())[i] by {
                            assert(matches@[i] == before[i + 1]);
                            assert(crate::engine::free::match_views(before)[i + 1] == all.skip(n0 - before.len())[i + 1]);
                        }
                        assert(crate::engine::free::match_views(matches@) =~= all.skip(n0 - matches@.len()));
                        assert(all.take(k + 1) =~= all.take(k).push(all[k]));
                        assert(tag_views(all.take(k + 1), idx) =~= tag_views(all.take(k), idx).push(
                            (Some(idx), all[k].0, all[k].1),
                        ));
                    }
                    m.pattern_idx = Some(idx);
                    if !hide {
                        proof {
                            assert(engine_match(*ds, self.patterns@, self.enabled@, m)) by {
                                assert(self.patterns@[idx as int] == *pattern);
                            }
                            assert(indexed_views(results@.push(m)) =~= indexed_views(results@).push(
                                (m.pattern_idx, m.bindings@, m.intervals@),
                            ));
                        }
                        results.push(m);
                    }
                }
                proof {
                    assert(all.take(n0 as int) =~= all);
                    if lawful::<DS>() && (all_let_free(self.patterns@) || self.let_evaluator.obeys_evaluate_spec()) {
                        assert(all == crate::engine::free::pattern_matches_spec(*ds, self.let_evaluator, self.patterns@[idx as int], now));
                    }
                }
            }
            idx = idx + 1;
        }
        results
    }

    /// Gap analysis for the first pattern with this name: why hasn't it
    /// matched? `None` when no pattern has the name.
    pub fn why_not<DS: DataSource<N = N, L = L, V = V>>(&self, ds: &DS, pattern_name: &str) -> (r: Option<GapAnalysis>)
        requires
            self.wf(),
        ensures
            r is Some <==> exists|p: int| 0 <= p < self.pattern_seq().len() && (#[trigger] self.pattern_seq()[p]).name@ == pattern_name@,
            r matches Some(g) ==> g.pattern@ == pattern_name@,
            r matches Some(g) ==> exists|p: int|
                0 <= p < self.pattern_seq().len() && (#[trigger] self.pattern_seq()[p]).name@ == pattern_name@ && (forall|q: int|
                    0 <= q < p ==> (#[trigger] self.pattern_seq()[q]).name@ != pattern_name@) && crate::engine::free::gap_report(
                    self.pattern_seq()[p],
                    g,
                ),
    {
        let target: String = pattern_name.to_string();
        let mut p: usize = 0;
        while p < self.patterns.len()
            invariant
                p <= self.patterns@.len(),
                target@ == pattern_name@,
                forall|q: int| 0 <= q < p ==> (#[trigger] self.patterns@[q]).name@ != pattern_name@,
            decreases self.patterns@.len() - p,
        {
            if self.patterns[p].name == target {
                let now = ds.now();
                return Some(crate::engine::free::gap_analysis_at(ds, &self.patterns[p], &now));
            }
            p = p + 1;
        }
        None
    }
}

/// A match from standalone evaluation of `p`, before its registry index is
/// set.
pub open spec fn reported_match_of<DS: DataSource>(ds: DS, p: Pattern<DS::L, DS::V>, m: Match<DS::N, DS::V, i64>) -> bool {
    &&& m.pattern@ == p.name@
    &&& m.metadata@ == p.metadata@
    &&& crate::engine::steps::temporal_holds(p, m.intervals@)
    &&& lawful::<DS>() ==> crate::engine::negation::negations_clear(ds, p, m.bindings@, m.intervals@)
}

impl<N, L, V, E: Default> Default for SiftEngine<N, L, V, E> {
    /// An empty engine with the default let evaluator.
    fn default() -> (r: Self)
        ensures
            r.wf(),
            r.pattern_seq().len() == 0,
            r.pm_seq().len() == 0,
            r.tick_count() == 0,
    {
        Self::new(E::default())
    }
}

impl<N: Clone, L: Clone, V: Clone, E: Clone> Clone for SiftEngine<N, L, V, E> {
    /// An independent copy of the engine for speculative evaluation; the
    /// copy starts with empty per-tick event lists.
    fn clone(&self) -> (r: Self)
        ensures
            r.tick_count() == self.tick_count(),
            r.next_id() == self.next_id(),
            r.stats_spec() == self.stats_spec(),
            r.tick_names().0.len() == 0,
            r.tick_names().1.len() == 0,
            r.tick_names().2.len() == 0,
            r.tick_names().3.len() == 0,
            r.enabled_seq() == self.enabled_seq(),
            r.last_advanced_seq() == self.last_advanced_seq(),
            r.completion_seq() == self.completion_seq(),
            r.advancement_seq() == self.advancement_seq(),
            r.negation_seq() == self.negation_seq(),
            r.pattern_seq().len() == self.pattern_seq().len(),
            r.pm_seq().len() == self.pm_seq().len(),
            forall|i: int| 0 <= i < self.pm_seq().len() ==> crate::types::pm_copied(self.pm_seq()[i], #[trigger] r.pm_seq()[i]),
            r.pair_seq() == self.pair_seq(),
    {
        let enabled = self.enabled.clone();
        let last_advanced_tick = self.last_advanced_tick.clone();
        let completion_count = self.completion_count.clone();
        let advancement_count = self.advancement_count.clone();
        let negation_count = self.negation_count.clone();
        proof {
            assert(enabled@ =~= self.enabled@);
            assert(last_advanced_tick@ =~= self.last_advanced_tick@);
            assert(completion_count@ =~= self.completion_count@);
            assert(advancement_count@ =~= self.advancement_count@);
            assert(negation_count@ =~= self.negation_count@);
        }
        SiftEngine {
            patterns: self.patterns.clone(),
            partial_matches: self.partial_matches.clone(),
            next_match_id: self.next_match_id,
            stats: self.stats,
            enabled,
            last_advanced_tick,
            completion_count,
            advancement_count,
            negation_count,
            tick_counter: self.tick_counter,
            plant_payoff_pairs: self.plant_payoff_pairs.clone(),
            tick_advanced: Vec::new(),
            tick_completed: Vec::new(),
            tick_negated: Vec::new(),
            tick_expired: Vec::new(),
            let_evaluator: self.let_evaluator.clone(),
        }
    }
}

} // verus!
