//! Batch evaluation, incremental matching and gap analysis on the engine.
//!
//! Incremental matching handles one new edge in four phases: negation
//! windows of active partial matches are checked, new partial matches are
//! initiated from the first stage, active partial matches are advanced, and
//! dead ones are cleaned up.

use crate::datasource::{lawful, DataSource};
use crate::engine::fingerprint::{compute_fingerprint_full, compute_fingerprint_with_rep};
use crate::engine::free::{copy_strings, evaluate_pattern_at, extend_intervals, gap_analysis_at, reported_match};
use crate::engine::negation::{check_negation_kill, check_negations_batch, kills};
use crate::engine::sift::{
    count_active, hidden, ids_distinct, lemma_filter_ids_distinct, lemma_filter_sub, live, name_hidden, retain_live,
    set_pm_state, with_state, SiftEngine,
};
use crate::engine::stage::{copy_intervals, single_interval, try_match_stage, MatchCandidate};
use crate::engine::steps::{check_temporal, engine_ready, temporal_holds};
use crate::interval::Interval;
use crate::let_evaluator::LetEvaluator;
use crate::scoring::surprise::{pattern_names, position_of};
use crate::pattern::{contains_index, first_group_with, Pattern, RepeatRange, Stage};
use crate::strmap::StrMap;
use crate::types::{BoundValue, EngineStats, GapAnalysis, Match, MatchState, PartialMatch, SiftEvent};
use std::fmt::Debug;
use std::hash::Hash;
use vstd::prelude::*;

verus! {

/// Partial matches created during one call: ids at least `lo` and below
/// `hi`, strictly increasing, of enabled registered patterns, live, created
/// no later than tick `tick` and last advanced at it.
pub open spec fn fresh_pms<N, V>(
    s: Seq<PartialMatch<N, V, i64>>,
    lo: usize,
    hi: usize,
    enabled: Seq<bool>,
    tick: u64,
) -> bool {
    &&& forall|i: int| 0 <= i < s.len() ==> lo <= (#[trigger] s[i]).id < hi
    &&& forall|i: int, j: int| 0 <= i < j < s.len() ==> (#[trigger] s[i]).id < (#[trigger] s[j]).id
    &&& forall|i: int|
        0 <= i < s.len() ==> (#[trigger] s[i]).pattern_idx < enabled.len() && enabled[s[i].pattern_idx as int]
    &&& forall|i: int| 0 <= i < s.len() ==> (#[trigger] s[i]).state != MatchState::Dead
    &&& forall|i: int| 0 <= i < s.len() ==> (#[trigger] s[i]).last_advanced_tick == tick && s[i].created_at_tick <= tick
}

/// The partial match holds the interval `iv` for the anchor of one of its
/// pattern's stages: it took the edge that came during `iv`.
pub open spec fn took_edge<N, L, V>(pm: PartialMatch<N, V, i64>, p: Pattern<L, V>, iv: Interval<i64>) -> bool {
    exists|k: int|
        #![trigger p.stages@[k]]
        0 <= k < p.stages@.len() && pm.intervals@.contains_key(p.stages@[k].anchor.0@) && pm.intervals@[p.stages@[k].anchor.0@]
            == iv
}

/// Every partial match of `s` belongs to a registered pattern and took the
/// edge that came during `iv`.
pub open spec fn caused_by<N, L, V>(s: Seq<PartialMatch<N, V, i64>>, patterns: Seq<Pattern<L, V>>, iv: Interval<i64>) -> bool {
    forall|i: int|
        0 <= i < s.len() ==> (#[trigger] s[i]).pattern_idx < patterns.len() && took_edge(s[i], patterns[s[i].pattern_idx as int], iv)
}

proof fn lemma_caused_push<N, L, V>(
    s: Seq<PartialMatch<N, V, i64>>,
    pm: PartialMatch<N, V, i64>,
    patterns: Seq<Pattern<L, V>>,
    iv: Interval<i64>,
    k: int,
)
    requires
        caused_by(s, patterns, iv),
        pm.pattern_idx < patterns.len(),
        0 <= k < patterns[pm.pattern_idx as int].stages@.len(),
        pm.intervals@.contains_key(patterns[pm.pattern_idx as int].stages@[k].anchor.0@),
        pm.intervals@[patterns[pm.pattern_idx as int].stages@[k].anchor.0@] == iv,
    ensures
        caused_by(s.push(pm), patterns, iv),
{
    let p = patterns[pm.pattern_idx as int];
    assert(p.stages@[k] == p.stages@[k]);
    assert(took_edge(pm, p, iv));
    let t = s.push(pm);
    assert forall|i: int| 0 <= i < t.len() implies (#[trigger] t[i]).pattern_idx < patterns.len() && took_edge(
        t[i],
        patterns[t[i].pattern_idx as int],
        iv,
    ) by {
        if i < s.len() {
            assert(t[i] == s[i]);
        }
    }
}

/// `e`, if a `Completed` event, reports the complete partial match `pm` of
/// the pattern named `name`: it carries the pattern's name, the match's id
/// and clones of its bindings.
pub open spec fn reports_completion<N: Clone, V: Clone>(e: SiftEvent<N, V>, pm: PartialMatch<N, V, i64>, name: Seq<char>) -> bool {
    e matches SiftEvent::Completed { pattern, match_id, bindings, .. } ==> {
        &&& pattern@ == name
        &&& match_id == pm.id
        &&& pm.state == MatchState::Complete
        &&& bindings@.dom() == pm.bindings@.dom()
        &&& forall|k: Seq<char>| #[trigger] bindings@.contains_key(k) ==> cloned(pm.bindings@[k], bindings@[k])
    }
}

/// `e` is the event that reports the making of `pm`, a partial match of the
/// pattern named `name`: `Completed` when it is complete, else `Advanced`,
/// with its id.
pub open spec fn reports_made<N: Clone, V: Clone>(e: SiftEvent<N, V>, pm: PartialMatch<N, V, i64>, name: Seq<char>) -> bool {
    &&& crate::engine::sift::event_pattern(e) == name
    &&& match e {
        SiftEvent::Completed { match_id, .. } => pm.state == MatchState::Complete && match_id == pm.id,
        SiftEvent::Advanced { match_id, .. } => pm.state == MatchState::Active && match_id == pm.id,
        _ => false,
    }
    &&& reports_completion(e, pm, name)
}

/// `b` is `a` followed by one event per partial match of `made`, in order,
/// each reporting its making.
pub open spec fn events_track<N: Clone, L, V: Clone>(
    a: Seq<SiftEvent<N, V>>,
    b: Seq<SiftEvent<N, V>>,
    made: Seq<PartialMatch<N, V, i64>>,
    patterns: Seq<Pattern<L, V>>,
) -> bool {
    &&& b.len() == a.len() + made.len()
    &&& forall|m: int|
        0 <= m < made.len() ==> (#[trigger] made[m]).pattern_idx < patterns.len() && reports_made(
            b[a.len() + m],
            made[m],
            patterns[made[m].pattern_idx as int].name@,
        )
}

/// One more made partial match, reported by one more event.
proof fn lemma_track_push<N: Clone, L, V: Clone>(
    a: Seq<SiftEvent<N, V>>,
    b: Seq<SiftEvent<N, V>>,
    b2: Seq<SiftEvent<N, V>>,
    made: Seq<PartialMatch<N, V, i64>>,
    patterns: Seq<Pattern<L, V>>,
    pm: PartialMatch<N, V, i64>,
)
    requires
        events_track(a, b, made, patterns),
        b2.len() == b.len() + 1,
        b2.drop_last() == b,
        pm.pattern_idx < patterns.len(),
        reports_made(b2.last(), pm, patterns[pm.pattern_idx as int].name@),
    ensures
        events_track(a, b2, made.push(pm), patterns),
{
    let m2 = made.push(pm);
    assert forall|m: int| 0 <= m < m2.len() implies (#[trigger] m2[m]).pattern_idx < patterns.len() && reports_made(
        b2[a.len() + m],
        m2[m],
        patterns[m2[m].pattern_idx as int].name@,
    ) by {
        if m < made.len() {
            assert(m2[m] == made[m]);
            assert(b2[a.len() + m] == b[a.len() + m]);
        }
    }
}

/// Appending event sequences that track two runs tracks their concatenation.
pub proof fn lemma_track_concat<N: Clone, L, V: Clone>(
    a: Seq<SiftEvent<N, V>>,
    b: Seq<SiftEvent<N, V>>,
    c: Seq<SiftEvent<N, V>>,
    x: Seq<PartialMatch<N, V, i64>>,
    y: Seq<PartialMatch<N, V, i64>>,
    patterns: Seq<Pattern<L, V>>,
)
    requires
        events_track(a, b, x, patterns),
        events_track(b, c, y, patterns),
        forall|i: int| 0 <= i < b.len() ==> #[trigger] c[i] == b[i],
    ensures
        events_track(a, c, x + y, patterns),
{
    let z = x + y;
    assert forall|m: int| 0 <= m < z.len() implies (#[trigger] z[m]).pattern_idx < patterns.len() && reports_made(
        c[a.len() + m],
        z[m],
        patterns[z[m].pattern_idx as int].name@,
    ) by {
        if m < x.len() {
            assert(z[m] == x[m]);
            assert(reports_made(b[a.len() + m], x[m], patterns[x[m].pattern_idx as int].name@));
            assert(c[a.len() + m] == b[a.len() + m]);
        } else {
            assert(z[m] == y[m - x.len()]);
            assert(y[m - x.len()].pattern_idx < patterns.len());
        }
    }
}

/// Work counters only grow; the call count and the high-water mark of
/// active partial matches stay.
pub open spec fn stats_grown(a: EngineStats, b: EngineStats) -> bool {
    &&& b.total_on_edge_added == a.total_on_edge_added
    &&& b.peak_active_pms == a.peak_active_pms
    &&& a.total_fingerprints <= b.total_fingerprints
    &&& a.total_negation_checks <= b.total_negation_checks
}

/// `a` is `pms` after the negation windows were checked against the edge:
/// each active partial match whose window the edge violates is dead, every
/// other one is unchanged.
pub open spec fn negation_outcome<DS: DataSource>(
    ds: DS,
    patterns: Seq<Pattern<DS::L, DS::V>>,
    pms: Seq<PartialMatch<DS::N, DS::V, i64>>,
    source: DS::N,
    label: DS::L,
    value: DS::V,
    interval: Interval<i64>,
    a: Seq<PartialMatch<DS::N, DS::V, i64>>,
) -> bool {
    &&& a.len() == pms.len()
    &&& forall|i: int|
        0 <= i < pms.len() ==> #[trigger] a[i] == if pms[i].state == MatchState::Active && kills(
            ds,
            patterns[pms[i].pattern_idx as int],
            pms[i].bindings@,
            pms[i].intervals@,
            source,
            label,
            value,
            interval.start,
            ds.now_spec(),
        ) {
            with_state(pms[i], MatchState::Dead)
        } else {
            pms[i]
        }
}

/// `s` holds exactly the fingerprints of `pms`.
pub open spec fn fingerprints_of<N, V>(pms: Seq<PartialMatch<N, V, i64>>, s: Seq<u64>) -> bool {
    forall|f: u64| #[trigger] s.contains(f) <==> exists|i: int| 0 <= i < pms.len() && (#[trigger] pms[i]).fingerprint == f
}

/// The partial matches one edge makes: negation of `pms` gives `a`; with
/// the fingerprints of `pms` seen (`s0`) and the next id `id0`, initiation
/// makes `ni` (fingerprints `fi`), then advancement of `a` makes `na`
/// (fingerprints `fa`), marks the ids `cons` consumed and leaves the next id
/// `id2`.
pub open spec fn edge_outcome<DS: DataSource, E: LetEvaluator<DS::N, DS::V>>(
    ds: DS,
    e: E,
    patterns: Seq<Pattern<DS::L, DS::V>>,
    enabled: Seq<bool>,
    pms: Seq<PartialMatch<DS::N, DS::V, i64>>,
    id0: usize,
    tick: u64,
    source: DS::N,
    label: DS::L,
    value: DS::V,
    interval: Interval<i64>,
    a: Seq<PartialMatch<DS::N, DS::V, i64>>,
    s0: Seq<u64>,
    fi: Seq<u64>,
    ni: Seq<PartialMatch<DS::N, DS::V, i64>>,
    s1: Seq<u64>,
    id1: usize,
    fa: Seq<u64>,
    na: Seq<PartialMatch<DS::N, DS::V, i64>>,
    s2: Seq<u64>,
    id2: usize,
    cons: Seq<usize>,
) -> bool {
    &&& negation_outcome(ds, patterns, pms, source, label, value, interval, a)
    &&& fingerprints_of(pms, s0)
    &&& dedupe_outcome(
        init_cands(ds, e, patterns, enabled, patterns.len() as int, source, label, value, interval),
        fi,
        s0,
        id0,
        ni,
        s1,
        id1,
        tick,
        interval.start,
    )
    &&& adv_outcome(
        adv_cands(ds, e, patterns, enabled, a, a.len() as int, source, label, value, interval),
        fa,
        s1,
        id1,
        Seq::empty(),
        na,
        s2,
        id2,
        cons,
        a,
        patterns,
        tick,
    )
}

/// The events of one edge: the `Negated` events `e1` first, then one event
/// per made partial match of `ni` and then of `na`, in order.
pub open spec fn made_events<N: Clone, L, V: Clone>(
    e1: Seq<SiftEvent<N, V>>,
    ev: Seq<SiftEvent<N, V>>,
    ni: Seq<PartialMatch<N, V, i64>>,
    na: Seq<PartialMatch<N, V, i64>>,
    patterns: Seq<Pattern<L, V>>,
) -> bool {
    &&& forall|w: int| 0 <= w < e1.len() ==> #[trigger] e1[w] is Negated
    &&& ev.subrange(0, e1.len() as int) == e1
    &&& events_track(e1, ev, ni + na, patterns)
}

/// Each partial match that an edge makes is reported among the events
/// returned, by an `Advanced` event when it is still active and a
/// `Completed` one when it is complete, unless its pattern is private.
pub proof fn lemma_made_reported<N: Clone, L, V: Clone>(
    e1: Seq<SiftEvent<N, V>>,
    ev: Seq<SiftEvent<N, V>>,
    ni: Seq<PartialMatch<N, V, i64>>,
    na: Seq<PartialMatch<N, V, i64>>,
    patterns: Seq<Pattern<L, V>>,
    r: Seq<SiftEvent<N, V>>,
    k: int,
)
    requires
        made_events(e1, ev, ni, na, patterns),
        r == ev.filter(visible_pred::<N, L, V>(patterns)),
        0 <= k < (ni + na).len(),
        !hidden(patterns, patterns[(ni + na)[k].pattern_idx as int].name@),
    ensures
        exists|w: int|
            0 <= w < r.len() && reports_made(#[trigger] r[w], (ni + na)[k], patterns[(ni + na)[k].pattern_idx as int].name@),
{
    let made = ni + na;
    let pm = made[k];
    let name = patterns[pm.pattern_idx as int].name@;
    let x = ev[e1.len() + k];
    assert(reports_made(x, pm, name));
    assert(visible_pred::<N, L, V>(patterns)(x));
    ev.lemma_filter_contains(visible_pred::<N, L, V>(patterns), e1.len() + k);
    let w = choose|w: int| 0 <= w < r.len() && r[w] == x;
    assert(reports_made(r[w], pm, name));
}

/// `e` is a `Negated` event for `pm`, of the pattern named `name`, set off
/// by an edge from `source`.
pub open spec fn negated_for<N: Clone, V>(e: SiftEvent<N, V>, pm: PartialMatch<N, V, i64>, name: Seq<char>, source: N) -> bool {
    &&& e matches SiftEvent::Negated { pattern, match_id, trigger_source, .. }
    &&& e->Negated_pattern@ == name
    &&& e->Negated_match_id == pm.id
    &&& cloned(source, e->Negated_trigger_source)
}

/// Each partial match active in `pms` and dead in `a` has a `Negated` event
/// among `e1`, set off by an edge from `source`.
pub open spec fn kills_reported<N: Clone, L, V>(
    e1: Seq<SiftEvent<N, V>>,
    pms: Seq<PartialMatch<N, V, i64>>,
    a: Seq<PartialMatch<N, V, i64>>,
    patterns: Seq<Pattern<L, V>>,
    source: N,
) -> bool {
    forall|i: int|
        0 <= i < pms.len() && i < a.len() && (#[trigger] pms[i]).state == MatchState::Active && a[i].state == MatchState::Dead
            ==> exists|w: int| 0 <= w < e1.len() && negated_for(#[trigger] e1[w], pms[i], patterns[pms[i].pattern_idx as int].name@, source)
}

/// `pms` with each active partial match whose id is in `cons` dead.
pub open spec fn consumed_seq<N, V>(pms: Seq<PartialMatch<N, V, i64>>, cons: Seq<usize>) -> Seq<PartialMatch<N, V, i64>> {
    Seq::new(
        pms.len(),
        |j: int|
            if pms[j].state == MatchState::Active && cons.contains(pms[j].id) {
                with_state(pms[j], MatchState::Dead)
            } else {
                pms[j]
            },
    )
}

/// `pms` with each partial match excluded by a completion among `events`
/// dead.
pub open spec fn excluded_seq<N, L, V>(
    pms: Seq<PartialMatch<N, V, i64>>,
    patterns: Seq<Pattern<L, V>>,
    events: Seq<SiftEvent<N, V>>,
) -> Seq<PartialMatch<N, V, i64>> {
    Seq::new(
        pms.len(),
        |j: int|
            if excluded(pms[j], patterns, events) {
                with_state(pms[j], MatchState::Dead)
            } else {
                pms[j]
            },
    )
}

/// `e`, if a `Completed` event, reports a complete partial match of `pms`.
pub open spec fn completion_reported<N: Clone, L, V: Clone>(
    e: SiftEvent<N, V>,
    pms: Seq<PartialMatch<N, V, i64>>,
    patterns: Seq<Pattern<L, V>>,
) -> bool {
    e is Completed ==> exists|i: int|
        0 <= i < pms.len() && (#[trigger] pms[i]).pattern_idx < patterns.len() && reports_completion(
            e,
            pms[i],
            patterns[pms[i].pattern_idx as int].name@,
        )
}

/// Every `Completed` event of `events` reports a complete partial match of
/// `pms`.
pub open spec fn completions_held<N: Clone, L, V: Clone>(
    events: Seq<SiftEvent<N, V>>,
    pms: Seq<PartialMatch<N, V, i64>>,
    patterns: Seq<Pattern<L, V>>,
) -> bool {
    forall|i: int| 0 <= i < events.len() ==> completion_reported(#[trigger] events[i], pms, patterns)
}

/// A new event about a new partial match keeps the completions held.
proof fn lemma_completions_push<N: Clone, L, V: Clone>(
    events: Seq<SiftEvent<N, V>>,
    pms: Seq<PartialMatch<N, V, i64>>,
    patterns: Seq<Pattern<L, V>>,
    e: SiftEvent<N, V>,
    pm: PartialMatch<N, V, i64>,
)
    requires
        completions_held(events, pms, patterns),
        pm.pattern_idx < patterns.len(),
        reports_completion(e, pm, patterns[pm.pattern_idx as int].name@),
    ensures
        completions_held(events.push(e), pms.push(pm), patterns),
{
    let ev2 = events.push(e);
    let p2 = pms.push(pm);
    assert forall|i: int| 0 <= i < ev2.len() implies completion_reported(#[trigger] ev2[i], p2, patterns) by {
        if i < events.len() {
            assert(ev2[i] == events[i]);
            if ev2[i] is Completed {
                let j = choose|j: int|
                    0 <= j < pms.len() && (#[trigger] pms[j]).pattern_idx < patterns.len() && reports_completion(
                        events[i],
                        pms[j],
                        patterns[pms[j].pattern_idx as int].name@,
                    );
                assert(p2[j] == pms[j]);
            }
        } else {
            assert(p2[pms.len() as int] == pm);
        }
    }
}

/// `e`, if a `Negated` event, reports a partial match that was active in
/// `before`, is dead at the same place in `after`, and belongs to the
/// pattern it names.
pub open spec fn killed_report<N, L, V>(
    e: SiftEvent<N, V>,
    before: Seq<PartialMatch<N, V, i64>>,
    after: Seq<PartialMatch<N, V, i64>>,
    patterns: Seq<Pattern<L, V>>,
) -> bool {
    e matches SiftEvent::Negated { pattern, match_id, .. } ==> exists|j: int|
        0 <= j < before.len() && j < after.len() && (#[trigger] before[j]).id == match_id && before[j].state
            == MatchState::Active && after[j].state == MatchState::Dead && before[j].pattern_idx < patterns.len()
            && patterns[before[j].pattern_idx as int].name@ == pattern@
}

/// `b` is `a` with events appended, none of them a `Negated` event.
pub open spec fn appends_no_negation<N, V>(a: Seq<SiftEvent<N, V>>, b: Seq<SiftEvent<N, V>>) -> bool {
    &&& a.len() <= b.len()
    &&& forall|i: int| 0 <= i < a.len() ==> #[trigger] b[i] == a[i]
    &&& forall|i: int| a.len() <= i < b.len() ==> !(#[trigger] b[i] is Negated)
}

/// `e`, if a `Negated` event, reports a partial match of `before` that was
/// active, of the pattern it names, and whose id no partial match of `after`
/// has.
pub open spec fn negation_reported<N, L, V>(
    e: SiftEvent<N, V>,
    before: Seq<PartialMatch<N, V, i64>>,
    after: Seq<PartialMatch<N, V, i64>>,
    patterns: Seq<Pattern<L, V>>,
) -> bool {
    e matches SiftEvent::Negated { pattern, match_id, .. } ==> {
        &&& exists|j: int|
            0 <= j < before.len() && (#[trigger] before[j]).id == match_id && before[j].state == MatchState::Active
                && before[j].pattern_idx < patterns.len() && patterns[before[j].pattern_idx as int].name@ == pattern@
        &&& forall|k: int| 0 <= k < after.len() ==> (#[trigger] after[k]).id != match_id
    }
}

/// An event appended by `new_pm` keeps the appending discipline.
proof fn lemma_appends_step<N, V>(a: Seq<SiftEvent<N, V>>, b: Seq<SiftEvent<N, V>>, c: Seq<SiftEvent<N, V>>)
    requires
        appends_no_negation(a, b),
        c.len() == b.len() + 1,
        c.drop_last() == b,
        !(c.last() is Negated),
    ensures
        appends_no_negation(a, c),
{
    assert forall|i: int| 0 <= i < a.len() implies #[trigger] c[i] == a[i] by {
        assert(c[i] == c.drop_last()[i]);
    }
    assert forall|i: int| a.len() <= i < c.len() implies !(#[trigger] c[i] is Negated) by {
        if i < b.len() {
            assert(c[i] == c.drop_last()[i]);
        }
    }
}

/// The appending discipline composes.
pub proof fn lemma_appends_trans<N, V>(a: Seq<SiftEvent<N, V>>, b: Seq<SiftEvent<N, V>>, c: Seq<SiftEvent<N, V>>)
    requires
        appends_no_negation(a, b),
        appends_no_negation(b, c),
    ensures
        appends_no_negation(a, c),
{
    assert forall|i: int| 0 <= i < a.len() implies #[trigger] c[i] == a[i] by {
        assert(c[i] == b[i]);
    }
    assert forall|i: int| a.len() <= i < c.len() implies !(#[trigger] c[i] is Negated) by {
        if i < b.len() {
            assert(c[i] == b[i]);
        }
    }
}

/// `new_pm` made `pm` and its event: the completions stay held once `pm`
/// joins the run.
proof fn lemma_new_pm_completions<N: Clone, L, V: Clone>(
    ev0: Seq<SiftEvent<N, V>>,
    ev1: Seq<SiftEvent<N, V>>,
    prior: Seq<PartialMatch<N, V, i64>>,
    out: Seq<PartialMatch<N, V, i64>>,
    patterns: Seq<Pattern<L, V>>,
    pm: PartialMatch<N, V, i64>,
)
    requires
        completions_held(ev0, prior + out, patterns),
        ev1.len() == ev0.len() + 1,
        ev1.drop_last() == ev0,
        pm.pattern_idx < patterns.len(),
        reports_completion(ev1.last(), pm, patterns[pm.pattern_idx as int].name@),
    ensures
        completions_held(ev1, prior + out.push(pm), patterns),
{
    assert(ev1 =~= ev0.push(ev1.last()));
    lemma_completions_push(ev0, prior + out, patterns, ev1.last(), pm);
    assert(prior + out.push(pm) =~= (prior + out).push(pm));
}

/// The completions stay held by any sequence that keeps the complete
/// partial matches.
pub proof fn lemma_completions_sub<N: Clone, L, V: Clone>(
    events: Seq<SiftEvent<N, V>>,
    s: Seq<PartialMatch<N, V, i64>>,
    t: Seq<PartialMatch<N, V, i64>>,
    patterns: Seq<Pattern<L, V>>,
)
    requires
        completions_held(events, s, patterns),
        forall|i: int| 0 <= i < s.len() && (#[trigger] s[i]).state == MatchState::Complete ==> t.contains(s[i]),
    ensures
        completions_held(events, t, patterns),
{
    assert forall|i: int| 0 <= i < events.len() implies completion_reported(#[trigger] events[i], t, patterns) by {
        if events[i] is Completed {
            let j = choose|j: int|
                0 <= j < s.len() && (#[trigger] s[j]).pattern_idx < patterns.len() && reports_completion(
                    events[i],
                    s[j],
                    patterns[s[j].pattern_idx as int].name@,
                );
            assert(s[j].state == MatchState::Complete);
            let w = choose|w: int| 0 <= w < t.len() && t[w] == s[j];
            assert(t[w].pattern_idx < patterns.len());
        }
    }
}

/// Two runs of partial matches that took the edge form one.
pub proof fn lemma_caused_concat<N, L, V>(
    a: Seq<PartialMatch<N, V, i64>>,
    b: Seq<PartialMatch<N, V, i64>>,
    patterns: Seq<Pattern<L, V>>,
    iv: Interval<i64>,
)
    requires
        caused_by(a, patterns, iv),
        caused_by(b, patterns, iv),
    ensures
        caused_by(a + b, patterns, iv),
{
    let t = a + b;
    assert forall|i: int| 0 <= i < t.len() implies (#[trigger] t[i]).pattern_idx < patterns.len() && took_edge(
        t[i],
        patterns[t[i].pattern_idx as int],
        iv,
    ) by {
        if i < a.len() {
            assert(t[i] == a[i]);
        } else {
            assert(t[i] == b[i - a.len()]);
        }
    }
}

/// Every fingerprint in `a` is also in `b`.
pub open spec fn seen_grows(a: Seq<u64>, b: Seq<u64>) -> bool {
    forall|x: u64| #[trigger] a.contains(x) ==> b.contains(x)
}

/// The partial matches of `s` have pairwise distinct fingerprints, none of
/// them among `before` and each of them among `now`.
pub open spec fn fps_fresh<N, V>(s: Seq<PartialMatch<N, V, i64>>, before: Seq<u64>, now: Seq<u64>) -> bool {
    &&& forall|i: int| 0 <= i < s.len() ==> !before.contains((#[trigger] s[i]).fingerprint) && now.contains(s[i].fingerprint)
    &&& forall|i: int, j: int| 0 <= i < j < s.len() ==> (#[trigger] s[i]).fingerprint != (#[trigger] s[j]).fingerprint
}

/// Recording one more fingerprint keeps what was recorded.
proof fn lemma_seen_push<N, V>(s: Seq<PartialMatch<N, V, i64>>, before: Seq<u64>, now: Seq<u64>, fp: u64)
    requires
        fps_fresh(s, before, now),
        seen_grows(before, now),
    ensures
        fps_fresh(s, before, now.push(fp)),
        seen_grows(before, now.push(fp)),
        seen_grows(now, now.push(fp)),
{
    assert forall|x: u64| now.contains(x) implies now.push(fp).contains(x) by {
        let k = choose|k: int| 0 <= k < now.len() && now[k] == x;
        assert(now.push(fp)[k] == x);
    }
}

/// A partial match whose fingerprint was new when it was recorded keeps
/// the fingerprints fresh.
proof fn lemma_fps_push<N, V>(
    s: Seq<PartialMatch<N, V, i64>>,
    pm: PartialMatch<N, V, i64>,
    before: Seq<u64>,
    now: Seq<u64>,
)
    requires
        fps_fresh(s, before, now),
        seen_grows(before, now),
        !now.contains(pm.fingerprint),
    ensures
        fps_fresh(s.push(pm), before, now.push(pm.fingerprint)),
        seen_grows(before, now.push(pm.fingerprint)),
{
    lemma_seen_push(s, before, now, pm.fingerprint);
    let t = s.push(pm);
    let n2 = now.push(pm.fingerprint);
    assert(n2[now.len() as int] == pm.fingerprint);
    assert forall|i: int| 0 <= i < t.len() implies !before.contains((#[trigger] t[i]).fingerprint) && n2.contains(t[i].fingerprint) by {
        if i < s.len() {
            assert(t[i] == s[i]);
        }
    }
    assert forall|i: int, j: int| 0 <= i < j < t.len() implies (#[trigger] t[i]).fingerprint != (#[trigger] t[j]).fingerprint by {
        assert(t[i] == s[i]);
        if j < s.len() {
            assert(t[j] == s[j]);
        } else {
            assert(now.contains(s[i].fingerprint));
        }
    }
}

/// Two consecutive runs with fresh fingerprints form one.
pub proof fn lemma_fps_concat<N, V>(
    a: Seq<PartialMatch<N, V, i64>>,
    b: Seq<PartialMatch<N, V, i64>>,
    s0: Seq<u64>,
    s1: Seq<u64>,
    s2: Seq<u64>,
)
    requires
        fps_fresh(a, s0, s1),
        fps_fresh(b, s1, s2),
        seen_grows(s0, s1),
        seen_grows(s1, s2),
    ensures
        fps_fresh(a + b, s0, s2),
        seen_grows(s0, s2),
{
    let t = a + b;
    assert forall|i: int| 0 <= i < t.len() implies !s0.contains((#[trigger] t[i]).fingerprint) && s2.contains(t[i].fingerprint) by {
        if i < a.len() {
            assert(t[i] == a[i]);
            assert(s1.contains(a[i].fingerprint));
        } else {
            assert(t[i] == b[i - a.len()]);
            if s0.contains(t[i].fingerprint) {
                assert(s1.contains(t[i].fingerprint));
            }
        }
    }
    assert forall|i: int, j: int| 0 <= i < j < t.len() implies (#[trigger] t[i]).fingerprint != (#[trigger] t[j]).fingerprint by {
        if j < a.len() {
            assert(t[i] == a[i] && t[j] == a[j]);
        } else if i < a.len() {
            assert(t[i] == a[i] && t[j] == b[j - a.len()]);
            assert(s1.contains(a[i].fingerprint));
        } else {
            assert(t[i] == b[i - a.len()] && t[j] == b[j - a.len()]);
        }
    }
}

proof fn lemma_fresh_push<N, V>(
    s: Seq<PartialMatch<N, V, i64>>,
    pm: PartialMatch<N, V, i64>,
    lo: usize,
    hi: usize,
    enabled: Seq<bool>,
    tick: u64,
)
    requires
        fresh_pms(s, lo, hi, enabled, tick),
        lo <= hi,
        pm.id == hi,
        hi < usize::MAX,
        pm.pattern_idx < enabled.len() && enabled[pm.pattern_idx as int],
        pm.state != MatchState::Dead,
        pm.last_advanced_tick == tick,
        pm.created_at_tick <= tick,
    ensures
        fresh_pms(s.push(pm), lo, (hi + 1) as usize, enabled, tick),
{
    let t = s.push(pm);
    assert forall|i: int, j: int| 0 <= i < j < t.len() implies (#[trigger] t[i]).id < (#[trigger] t[j]).id by {
        if j < s.len() {
            assert(t[i] == s[i] && t[j] == s[j]);
        } else {
            assert(t[i] == s[i]);
        }
    }
    assert forall|i: int| 0 <= i < t.len() implies lo <= (#[trigger] t[i]).id < hi + 1 by {
        if i < s.len() {
            assert(t[i] == s[i]);
        }
    }
    assert forall|i: int| 0 <= i < t.len() implies (#[trigger] t[i]).pattern_idx < enabled.len() && enabled[t[i].pattern_idx as int] by {
        if i < s.len() {
            assert(t[i] == s[i]);
        }
    }
    assert forall|i: int| 0 <= i < t.len() implies (#[trigger] t[i]).state != MatchState::Dead by {
        if i < s.len() {
            assert(t[i] == s[i]);
        }
    }
    assert forall|i: int| 0 <= i < t.len() implies (#[trigger] t[i]).last_advanced_tick == tick && t[i].created_at_tick <= tick by {
        if i < s.len() {
            assert(t[i] == s[i]);
        }
    }
}

/// `a + 1`, stopping at the type's maximum.
pub(crate) fn bump(a: u64) -> (r: u64)
    ensures
        r == if a < u64::MAX {
            a + 1
        } else {
            a as int
        },
{
    a.saturating_add(1)
}

/// The bit of stage `i` in a group mask.
fn stage_bit(i: usize) -> (r: u64)
    requires
        i < 64,
    ensures
        r == 1u64 << (i as u64),
{
    1u64 << (i as u64)
}

/// Every index of the group has its bit set in `mask`.
pub open spec fn group_complete_spec(g: Seq<usize>, mask: u64) -> bool {
    forall|j: int| 0 <= j < g.len() ==> mask & (1u64 << (#[trigger] g[j] as u64)) != 0
}

/// Every stage of the group has its bit set in `mask`.
fn group_complete(group: &Vec<usize>, mask: u64) -> (r: bool)
    requires
        forall|j: int| 0 <= j < group@.len() ==> #[trigger] group@[j] < 64,
    ensures
        r == forall|j: int| 0 <= j < group@.len() ==> mask & (1u64 << (#[trigger] group@[j] as u64)) != 0,
{
    let mut j: usize = 0;
    while j < group.len()
        invariant
            j <= group@.len(),
            forall|k: int| 0 <= k < group@.len() ==> #[trigger] group@[k] < 64,
            forall|k: int| 0 <= k < j ==> mask & (1u64 << (#[trigger] group@[k] as u64)) != 0,
        decreases group@.len() - j,
    {
        if mask & stage_bit(group[j]) == 0 {
            return false;
        }
        j = j + 1;
    }
    true
}

/// The largest index of a non-empty group, plus one.
fn group_end(group: &Vec<usize>, bound: usize) -> (r: usize)
    requires
        group@.len() > 0,
        forall|j: int| 0 <= j < group@.len() ==> #[trigger] group@[j] < bound,
    ensures
        r <= bound,
        r > 0,
        forall|k: int| 0 <= k < group@.len() ==> #[trigger] group@[k] < r,
        exists|k: int| 0 <= k < group@.len() && #[trigger] group@[k] == r - 1,
{
    let mut m: usize = group[0];
    let mut j: usize = 1;
    while j < group.len()
        invariant
            1 <= j <= group@.len(),
            m < bound,
            forall|k: int| 0 <= k < group@.len() ==> #[trigger] group@[k] < bound,
            forall|k: int| 0 <= k < j ==> #[trigger] group@[k] <= m,
            exists|k: int| 0 <= k < j && #[trigger] group@[k] == m,
        decreases group@.len() - j,
    {
        if group[j] > m {
            m = group[j];
        }
        j = j + 1;
    }
    m + 1
}

/// The first stage anchored at `var`, if any.
fn stage_position<L, V>(pattern: &Pattern<L, V>, var: &String) -> (r: Option<usize>)
    ensures
        match r {
            Some(i) => first_anchored(pattern.stages@, var@, i as int),
            None => forall|j: int| 0 <= j < pattern.stages@.len() ==> (#[trigger] pattern.stages@[j]).anchor.0@ != var@,
        },
{
    let mut i: usize = 0;
    while i < pattern.stages.len()
        invariant
            i <= pattern.stages@.len(),
            forall|j: int| 0 <= j < i ==> (#[trigger] pattern.stages@[j]).anchor.0@ != var@,
        decreases pattern.stages@.len() - i,
    {
        if pattern.stages[i].anchor.0 == *var {
            return Some(i);
        }
        i = i + 1;
    }
    None
}

/// Does `names` hold `name`?
fn contains_name(names: &Vec<String>, name: &String) -> (r: bool)
    ensures
        r == exists|j: int| 0 <= j < names@.len() && (#[trigger] names@[j])@ == name@,
{
    let mut i: usize = 0;
    while i < names.len()
        invariant
            i <= names@.len(),
            forall|j: int| 0 <= j < i ==> (#[trigger] names@[j])@ != name@,
        decreases names@.len() - i,
    {
        if names[i] == *name {
            return true;
        }
        i = i + 1;
    }
    false
}

/// A new edge during `interval` may advance a partial match by stage
/// `try_idx` if every earlier stage interval starts before it, except the
/// intervals of stages in the same unordered group.
fn temporal_after<L, V>(
    pattern: &Pattern<L, V>,
    intervals: &StrMap<Interval<i64>>,
    try_idx: usize,
    interval: &Interval<i64>,
) -> (r: bool)
    ensures
        r == forall|k: Seq<char>|
            #[trigger] intervals@.contains_key(k) ==> group_exempt(*pattern, k, try_idx) || intervals@[k].start
                < interval.start,
{
    let n = intervals.len();
    let mut i: usize = 0;
    while i < n
        invariant
            n == intervals.entries().len(),
            i <= n,
            intervals@ == crate::strmap::map_of(intervals.entries()),
            forall|j: int|
                0 <= j < i ==> group_exempt(*pattern, (#[trigger] intervals.entries()[j]).0@, try_idx)
                    || intervals.entries()[j].1.start < interval.start,
        decreases n - i,
    {
        let (var, prev) = intervals.entry_at(i);
        let exempt = match stage_position(pattern, var) {
            Some(psi) => pattern.same_unordered_group(psi, try_idx),
            None => false,
        };
        proof {
            lemma_group_exempt(*pattern, var@, try_idx);
        }
        if !exempt && !(prev.start < interval.start) {
            return false;
        }
        i = i + 1;
    }
    proof {
        assert forall|k: Seq<char>| #[trigger] intervals@.contains_key(k) implies group_exempt(*pattern, k, try_idx)
            || intervals@[k].start < interval.start by {
            let e = intervals.entries();
            let p = crate::strmap::pos_of(e, k);
            assert(e[p].0@ == k);
        }
    }
    true
}

/// Stage `i` is the first stage anchored at `var`.
pub open spec fn first_anchored<L, V>(stages: Seq<Stage<L, V>>, var: Seq<char>, i: int) -> bool {
    &&& 0 <= i < stages.len()
    &&& stages[i].anchor.0@ == var
    &&& forall|j: int| 0 <= j < i ==> (#[trigger] stages[j]).anchor.0@ != var
}

/// The first stage anchored at `var` lies in an unordered group with stage
/// `try_idx`, so its interval need not precede the new edge.
pub open spec fn group_exempt<L, V>(pattern: Pattern<L, V>, var: Seq<char>, try_idx: usize) -> bool {
    exists|i: int|
        #![trigger pattern.stages@[i]]
        first_anchored(pattern.stages@, var, i) && exists|g: int|
            0 <= g < pattern.unordered_groups@.len() && (#[trigger] pattern.unordered_groups@[g])@.contains(i as usize)
                && pattern.unordered_groups@[g]@.contains(try_idx)
}

proof fn lemma_group_exempt<L, V>(pattern: Pattern<L, V>, var: Seq<char>, try_idx: usize)
    ensures
        forall|i: int|
            #![trigger pattern.stages@[i]]
            first_anchored(pattern.stages@, var, i) ==> (group_exempt(pattern, var, try_idx) <==> exists|g: int|
                0 <= g < pattern.unordered_groups@.len() && (#[trigger] pattern.unordered_groups@[g])@.contains(i as usize)
                    && pattern.unordered_groups@[g]@.contains(try_idx)),
        (forall|j: int| 0 <= j < pattern.stages@.len() ==> (#[trigger] pattern.stages@[j]).anchor.0@ != var) ==> !group_exempt(
            pattern,
            var,
            try_idx,
        ),
{
    assert forall|i: int|
        #![trigger pattern.stages@[i]]
        first_anchored(pattern.stages@, var, i) implies (group_exempt(pattern, var, try_idx) <==> exists|g: int|
        0 <= g < pattern.unordered_groups@.len() && (#[trigger] pattern.unordered_groups@[g])@.contains(i as usize)
            && pattern.unordered_groups@[g]@.contains(try_idx)) by {
        if group_exempt(pattern, var, try_idx) {
            let i2 = choose|i2: int|
                #![trigger pattern.stages@[i2]]
                first_anchored(pattern.stages@, var, i2) && exists|g: int|
                    0 <= g < pattern.unordered_groups@.len() && (#[trigger] pattern.unordered_groups@[g])@.contains(
                        i2 as usize,
                    ) && pattern.unordered_groups@[g]@.contains(try_idx);
            if i2 < i {
                assert(pattern.stages@[i2].anchor.0@ != var);
            } else if i < i2 {
                assert(pattern.stages@[i].anchor.0@ != var);
            }
        }
    }
}

/// The stage names the variable `n`: as its anchor, in a clause, or as a
/// let binding.
pub open spec fn stage_names_var<L, V>(s: Stage<L, V>, n: Seq<char>) -> bool {
    crate::pattern::stage_uses(s, n) || exists|l: int| 0 <= l < s.let_bindings@.len() && (#[trigger] s.let_bindings@[l]).name@ == n
}

/// The repeat range shares the variable `n` across repetitions.
pub open spec fn shared_var(rr: RepeatRange, n: Seq<char>) -> bool {
    exists|j: int| 0 <= j < rr.shared_vars@.len() && (#[trigger] rr.shared_vars@[j])@ == n
}

/// The variable `n` is not shared and some stage of the repeated segment
/// before `si` names it.
pub open spec fn dropped_before<L, V>(p: Pattern<L, V>, rr: RepeatRange, si: int, n: Seq<char>) -> bool {
    &&& !shared_var(rr, n)
    &&& exists|k: int| rr.stage_start <= k < si && stage_names_var(#[trigger] p.stages@[k], n)
}

/// Bindings for the next repetition: the merged bindings without the
/// variables of the repeated stages that are not shared across repetitions.
fn loop_bindings<N: Clone, L, V: Clone>(pattern: &Pattern<L, V>, merged: &StrMap<BoundValue<N, V>>) -> (r: StrMap<
    BoundValue<N, V>,
>)
    requires
        pattern.repeat_range matches Some(rr) && rr.stage_start <= rr.stage_end <= pattern.stages@.len(),
    ensures
        forall|n: Seq<char>|
            #[trigger] r@.contains_key(n) <==> merged@.contains_key(n) && !dropped_before(
                *pattern,
                pattern.repeat_range->0,
                pattern.repeat_range->0.stage_end as int,
                n,
            ),
        forall|n: Seq<char>| #[trigger] r@.contains_key(n) ==> cloned(merged@[n], r@[n]),
{
    let rr = match &pattern.repeat_range {
        Some(rr) => rr,
        None => return merged.duplicate(),
    };
    let mut b = merged.duplicate();
    let mut si = rr.stage_start;
    while si < rr.stage_end
        invariant
            pattern.repeat_range == Some(*rr),
            rr.stage_start <= si <= rr.stage_end,
            rr.stage_end <= pattern.stages@.len(),
            forall|n: Seq<char>|
                #[trigger] b@.contains_key(n) <==> merged@.contains_key(n) && !dropped_before(*pattern, *rr, si as int, n),
            forall|n: Seq<char>| #[trigger] b@.contains_key(n) ==> cloned(merged@[n], b@[n]),
        decreases rr.stage_end - si,
    {
        let stage = &pattern.stages[si];
        if !contains_name(&rr.shared_vars, &stage.anchor.0) {
            b.remove(stage.anchor.0.as_str());
        }
        let mut ci: usize = 0;
        while ci < stage.clauses.len()
            invariant
                si < pattern.stages@.len(),
                *stage == pattern.stages@[si as int],
                ci <= stage.clauses@.len(),
                forall|n: Seq<char>|
                    #[trigger] b@.contains_key(n) <==> merged@.contains_key(n) && !dropped_before(*pattern, *rr, si as int, n)
                        && !(!shared_var(*rr, n) && (stage.anchor.0@ == n || exists|c: int|
                        0 <= c < ci && crate::pattern::clause_uses(#[trigger] stage.clauses@[c], n))),
                forall|n: Seq<char>| #[trigger] b@.contains_key(n) ==> cloned(merged@[n], b@[n]),
            decreases stage.clauses@.len() - ci,
        {
            let clause = &stage.clauses[ci];
            if !contains_name(&rr.shared_vars, &clause.source.0) {
                b.remove(clause.source.0.as_str());
            }
            match &clause.target {
                crate::pattern::Target::Bind(var) => {
                    if !contains_name(&rr.shared_vars, &var.0) {
                        b.remove(var.0.as_str());
                    }
                },
                _ => {},
            }
            proof {
                assert forall|n: Seq<char>|
                    #[trigger] b@.contains_key(n) <==> merged@.contains_key(n) && !dropped_before(*pattern, *rr, si as int, n)
                        && !(!shared_var(*rr, n) && (stage.anchor.0@ == n || exists|c: int|
                        0 <= c < ci + 1 && crate::pattern::clause_uses(#[trigger] stage.clauses@[c], n))) by {
                    if crate::pattern::clause_uses(stage.clauses@[ci as int], n) {
                    }
                }
            }
            ci = ci + 1;
        }
        let mut li: usize = 0;
        while li < stage.let_bindings.len()
            invariant
                si < pattern.stages@.len(),
                *stage == pattern.stages@[si as int],
                li <= stage.let_bindings@.len(),
                forall|n: Seq<char>|
                    #[trigger] b@.contains_key(n) <==> merged@.contains_key(n) && !dropped_before(*pattern, *rr, si as int, n)
                        && !(!shared_var(*rr, n) && (crate::pattern::stage_uses(*stage, n) || exists|l: int|
                        0 <= l < li && (#[trigger] stage.let_bindings@[l]).name@ == n)),
                forall|n: Seq<char>| #[trigger] b@.contains_key(n) ==> cloned(merged@[n], b@[n]),
            decreases stage.let_bindings@.len() - li,
        {
            let cb = &stage.let_bindings[li];
            if !contains_name(&rr.shared_vars, &cb.name) {
                b.remove(cb.name.as_str());
            }
            li = li + 1;
        }
        proof {
            assert forall|n: Seq<char>|
                #[trigger] b@.contains_key(n) <==> merged@.contains_key(n) && !dropped_before(*pattern, *rr, si + 1, n) by {
                if stage_names_var(pattern.stages@[si as int], n) {
                }
                if dropped_before(*pattern, *rr, si + 1, n) && !dropped_before(*pattern, *rr, si as int, n) {
                    let k = choose|k: int| rr.stage_start <= k < si + 1 && stage_names_var(#[trigger] pattern.stages@[k], n);
                    assert(k == si);
                }
            }
        }
        si = si + 1;
    }
    b
}

/// The mutable state one incremental step threads through its phases.
pub struct StepState<N, V> {
    pub next_id: usize,
    pub stats: EngineStats,
    pub seen: crate::engine::fingerprint::SeenSet,
    pub events: Vec<SiftEvent<N, V>>,
}

/// Create a partial match (if ids are not exhausted) and record its event.
/// Returns `None` when no id is left.
fn new_pm<N: Clone, L, V: Clone>(
    st: &mut StepState<N, V>,
    pattern: &Pattern<L, V>,
    pattern_idx: usize,
    bindings: StrMap<BoundValue<N, V>>,
    intervals: StrMap<Interval<i64>>,
    created_at: i64,
    next_stage: usize,
    complete: bool,
    fingerprint: u64,
    created_at_tick: u64,
    tick: u64,
    repetition_count: u32,
    matched_stages: u64,
    stage_index: usize,
) -> (r: Option<PartialMatch<N, V, i64>>)
    ensures
        old(st).next_id < usize::MAX ==> r is Some && final(st).next_id == old(st).next_id + 1,
        old(st).next_id == usize::MAX ==> r is None && final(st).next_id == old(st).next_id,
        r matches Some(pm) ==> {
            &&& pm.id == old(st).next_id
            &&& pm.pattern_idx == pattern_idx
            &&& pm.state == if complete {
                MatchState::Complete
            } else {
                MatchState::Active
            }
            &&& pm.last_advanced_tick == tick
            &&& pm.created_at_tick == created_at_tick
            &&& pm.next_stage == next_stage
            &&& pm.fingerprint == fingerprint
            &&& pm.intervals == intervals
            &&& pm.bindings == bindings
            &&& pm.created_at == created_at
            &&& pm.repetition_count == repetition_count
            &&& pm.matched_stages == matched_stages
            &&& final(st).events@.len() == old(st).events@.len() + 1
            &&& final(st).events@.drop_last() == old(st).events@
            &&& reports_completion(final(st).events@.last(), pm, pattern.name@)
            &&& reports_made(final(st).events@.last(), pm, pattern.name@)
            &&& !(final(st).events@.last() is Negated)
        },
        r is None ==> final(st).events@ == old(st).events@,
        final(st).seen == old(st).seen,
        final(st).stats == old(st).stats,
{
    if st.next_id == usize::MAX {
        return None;
    }
    let id = st.next_id;
    st.next_id = st.next_id + 1;
    let metadata = copy_strings(&pattern.metadata);
    if complete {
        st.events.push(
            SiftEvent::Completed { pattern: pattern.name.clone(), match_id: id, bindings: bindings.duplicate(), metadata },
        );
    } else {
        st.events.push(SiftEvent::Advanced { pattern: pattern.name.clone(), match_id: id, stage_index, metadata });
    }
    Some(
        PartialMatch {
            pattern_idx,
            bindings,
            intervals,
            next_stage,
            state: if complete {
                MatchState::Complete
            } else {
                MatchState::Active
            },
            id,
            created_at,
            fingerprint,
            created_at_tick,
            last_advanced_tick: tick,
            repetition_count,
            matched_stages,
        },
    )
}

/// Phase 1: check the negation windows of the active partial matches
/// against the new edge; those it violates die, with a `Negated` event.
pub(crate) fn negation_phase<DS: DataSource>(
    ds: &DS,
    patterns: &Vec<Pattern<DS::L, DS::V>>,
    pms: &mut Vec<PartialMatch<DS::N, DS::V, i64>>,
    source: &DS::N,
    label: &DS::L,
    value: &DS::V,
    interval: &Interval<i64>,
    st: &mut StepState<DS::N, DS::V>,
)
    requires
        forall|i: int| 0 <= i < old(pms)@.len() ==> (#[trigger] old(pms)@[i]).pattern_idx < patterns@.len(),
    ensures
        final(pms)@.len() == old(pms)@.len(),
        forall|i: int|
            0 <= i < old(pms)@.len() ==> #[trigger] final(pms)@[i] == old(pms)@[i] || (old(pms)@[i].state == MatchState::Active
                && final(pms)@[i] == with_state(old(pms)@[i], MatchState::Dead)),
        lawful::<DS>() ==> forall|i: int|
            0 <= i < old(pms)@.len() && old(pms)@[i].state == MatchState::Active && kills(
                *ds,
                patterns@[old(pms)@[i].pattern_idx as int],
                old(pms)@[i].bindings@,
                old(pms)@[i].intervals@,
                *source,
                *label,
                *value,
                interval.start,
                ds.now_spec(),
            ) ==> (#[trigger] final(pms)@[i]).state == MatchState::Dead,
        lawful::<DS>() ==> forall|i: int|
            0 <= i < old(pms)@.len() && !(old(pms)@[i].state == MatchState::Active && kills(
                *ds,
                patterns@[old(pms)@[i].pattern_idx as int],
                old(pms)@[i].bindings@,
                old(pms)@[i].intervals@,
                *source,
                *label,
                *value,
                interval.start,
                ds.now_spec(),
            )) ==> #[trigger] final(pms)@[i] == old(pms)@[i],
        final(st).next_id == old(st).next_id,
        final(st).seen == old(st).seen,
        stats_grown(old(st).stats, final(st).stats),
        old(st).events@.len() <= final(st).events@.len(),
        forall|i: int| 0 <= i < old(st).events@.len() ==> final(st).events@[i] == old(st).events@[i],
        forall|i: int|
            old(st).events@.len() <= i < final(st).events@.len() ==> !(#[trigger] final(st).events@[i] is Completed),
        forall|i: int| old(st).events@.len() <= i < final(st).events@.len() ==> #[trigger] final(st).events@[i] is Negated,
        forall|i: int|
            old(st).events@.len() <= i < final(st).events@.len() ==> cloned(*source, (#[trigger] final(st).events@[i])->Negated_trigger_source),
        kills_reported(final(st).events@.subrange(old(st).events@.len() as int, final(st).events@.len() as int), old(pms)@, final(pms)@, patterns@, *source),
        forall|i: int|
            old(st).events@.len() <= i < final(st).events@.len() ==> killed_report(
                #[trigger] final(st).events@[i],
                old(pms)@,
                final(pms)@,
                patterns@,
            ),
{
    let ghost orig = pms@;
    let mut i: usize = 0;
    while i < pms.len()
        invariant
            i <= pms@.len(),
            pms@.len() == orig.len(),
            orig == old(pms)@,
            st.next_id == old(st).next_id,
            st.seen == old(st).seen,
            stats_grown(old(st).stats, st.stats),
            old(st).events@.len() <= st.events@.len(),
            forall|j: int| 0 <= j < old(st).events@.len() ==> st.events@[j] == old(st).events@[j],
            forall|j: int| old(st).events@.len() <= j < st.events@.len() ==> !(#[trigger] st.events@[j] is Completed),
            forall|j: int| old(st).events@.len() <= j < st.events@.len() ==> #[trigger] st.events@[j] is Negated,
            forall|j: int| old(st).events@.len() <= j < st.events@.len() ==> cloned(*source, (#[trigger] st.events@[j])->Negated_trigger_source),
            forall|j: int|
                0 <= j < i && (#[trigger] orig[j]).state == MatchState::Active && pms@[j].state == MatchState::Dead ==> exists|w: int|
                    old(st).events@.len() <= w < st.events@.len() && negated_for(#[trigger] st.events@[w], orig[j], patterns@[orig[j].pattern_idx as int].name@, *source),
            forall|j: int| old(st).events@.len() <= j < st.events@.len() ==> killed_report(#[trigger] st.events@[j], orig, pms@, patterns@),
            forall|j: int| 0 <= j < orig.len() ==> (#[trigger] orig[j]).pattern_idx < patterns@.len(),
            forall|j: int| i <= j < orig.len() ==> #[trigger] pms@[j] == orig[j],
            forall|j: int|
                0 <= j < i ==> #[trigger] pms@[j] == orig[j] || (orig[j].state == MatchState::Active && pms@[j] == with_state(
                    orig[j],
                    MatchState::Dead,
                )),
            lawful::<DS>() ==> forall|j: int|
                0 <= j < i && orig[j].state == MatchState::Active && kills(
                    *ds,
                    patterns@[orig[j].pattern_idx as int],
                    orig[j].bindings@,
                    orig[j].intervals@,
                    *source,
                    *label,
                    *value,
                    interval.start,
                    ds.now_spec(),
                ) ==> (#[trigger] pms@[j]).state == MatchState::Dead,
            lawful::<DS>() ==> forall|j: int|
                0 <= j < i && !(orig[j].state == MatchState::Active && kills(
                    *ds,
                    patterns@[orig[j].pattern_idx as int],
                    orig[j].bindings@,
                    orig[j].intervals@,
                    *source,
                    *label,
                    *value,
                    interval.start,
                    ds.now_spec(),
                )) ==> #[trigger] pms@[j] == orig[j],
        decreases pms@.len() - i,
    {
        if pms[i].state == MatchState::Active {
            let pattern = &patterns[pms[i].pattern_idx];
            st.stats.total_negation_checks = bump(st.stats.total_negation_checks);
            match check_negation_kill(ds, pattern, &pms[i], source, label, value, interval) {
                Some(neg_label) => {
                    let e = SiftEvent::Negated {
                        pattern: pattern.name.clone(),
                        match_id: pms[i].id,
                        clause_label: neg_label,
                        trigger_source: source.clone(),
                        metadata: copy_strings(&pattern.metadata),
                    };
                    let ghost ev_before = st.events@;
                    st.events.push(e);
                    set_pm_state(pms, i, MatchState::Dead);
                    proof {
                        let base = old(st).events@.len();
                        assert forall|j: int|
                            0 <= j < i + 1 && (#[trigger] orig[j]).state == MatchState::Active && pms@[j].state == MatchState::Dead implies exists|w: int|
                                base <= w < st.events@.len() && negated_for(#[trigger] st.events@[w], orig[j], patterns@[orig[j].pattern_idx as int].name@, *source) by {
                            if j < i {
                                let w = choose|w: int|
                                    base <= w < ev_before.len() && negated_for(#[trigger] ev_before[w], orig[j], patterns@[orig[j].pattern_idx as int].name@, *source);
                                assert(st.events@[w] == ev_before[w]);
                            } else {
                                assert(negated_for(st.events@[ev_before.len() as int], orig[j], patterns@[orig[j].pattern_idx as int].name@, *source));
                            }
                        }
                    }
                },
                None => {},
            }
        }
        i = i + 1;
    }
    proof {
        let base = old(st).events@.len();
        let sub = st.events@.subrange(base as int, st.events@.len() as int);
        assert forall|k: int|
            0 <= k < orig.len() && k < pms@.len() && (#[trigger] orig[k]).state == MatchState::Active && pms@[k].state == MatchState::Dead implies exists|w: int|
                0 <= w < sub.len() && negated_for(#[trigger] sub[w], orig[k], patterns@[orig[k].pattern_idx as int].name@, *source) by {
            let w = choose|w: int|
                base <= w < st.events@.len() && negated_for(#[trigger] st.events@[w], orig[k], patterns@[orig[k].pattern_idx as int].name@, *source);
            assert(sub[w - base] == st.events@[w]);
        }
    }
}

/// A partial match to be made: pattern index, bindings, intervals, next
/// stage, whether it is complete, and the matched-stage mask.
pub type InitCand<N, V> = (usize, Map<Seq<char>, BoundValue<N, V>>, Map<Seq<char>, Interval<i64>>, usize, bool, u64);

/// The stages by which an edge can start a partial match of `p`: its first
/// stage, or the whole (first) unordered group that holds it.
pub open spec fn init_stage_list<L, V>(p: Pattern<L, V>) -> Seq<usize> {
    match first_group_with(p.unordered_groups@, 0) {
        Some(g) => p.unordered_groups@[g]@,
        None => seq![0usize],
    }
}

/// The partial match that the edge starts for pattern `pidx` (that is `p`)
/// by its stage `k`, when the stage accepts the edge and, should the match
/// be complete at once, no negation window of the pattern is violated.
pub open spec fn init_cand_of<DS: DataSource, E: LetEvaluator<DS::N, DS::V>>(
    ds: DS,
    e: E,
    p: Pattern<DS::L, DS::V>,
    pidx: usize,
    k: usize,
    source: DS::N,
    label: DS::L,
    value: DS::V,
    interval: Interval<i64>,
) -> Option<InitCand<DS::N, DS::V>> {
    match crate::engine::stage::stage_result(ds, e, p.stages@[k as int], source, label, value, interval, Map::empty()) {
        Some(b) => {
            let nm: (usize, u64) = match first_group_with(p.unordered_groups@, 0) {
                Some(g) => (
                    if p.unordered_groups@[g]@.len() == 1 {
                        (p.unordered_groups@[g]@[0] + 1) as usize
                    } else {
                        p.unordered_groups@[g]@[0]
                    },
                    1u64 << (k as u64),
                ),
                None => (1usize, 0u64),
            };
            let is_last = nm.0 >= p.stages@.len();
            let ivs = single_interval(p.stages@[k as int].anchor.0@, interval);
            if is_last && !crate::engine::negation::negations_clear(ds, p, b, ivs) {
                None
            } else {
                Some((pidx, b, ivs, if is_last { p.stages@.len() as usize } else { nm.0 }, is_last, nm.1))
            }
        },
        None => None,
    }
}

/// The option as a sequence of at most one element.
pub open spec fn opt_seq<A>(o: Option<A>) -> Seq<A> {
    match o {
        Some(a) => seq![a],
        None => Seq::empty(),
    }
}

/// The candidates started by the first `j` stages of `list` for pattern
/// `pidx`, in order.
pub open spec fn stage_cands<DS: DataSource, E: LetEvaluator<DS::N, DS::V>>(
    ds: DS,
    e: E,
    p: Pattern<DS::L, DS::V>,
    pidx: usize,
    list: Seq<usize>,
    j: int,
    source: DS::N,
    label: DS::L,
    value: DS::V,
    interval: Interval<i64>,
) -> Seq<InitCand<DS::N, DS::V>>
    decreases j,
{
    if j <= 0 {
        Seq::empty()
    } else {
        stage_cands(ds, e, p, pidx, list, j - 1, source, label, value, interval) + opt_seq(
            init_cand_of(ds, e, p, pidx, list[j - 1], source, label, value, interval),
        )
    }
}

/// The candidates that the edge starts for the first `n` registered
/// patterns, in registry order (enabled patterns with stages only).
pub open spec fn init_cands<DS: DataSource, E: LetEvaluator<DS::N, DS::V>>(
    ds: DS,
    e: E,
    patterns: Seq<Pattern<DS::L, DS::V>>,
    enabled: Seq<bool>,
    n: int,
    source: DS::N,
    label: DS::L,
    value: DS::V,
    interval: Interval<i64>,
) -> Seq<InitCand<DS::N, DS::V>>
    decreases n,
{
    if n <= 0 {
        Seq::empty()
    } else {
        init_cands(ds, e, patterns, enabled, n - 1, source, label, value, interval) + if enabled[n - 1] && patterns[n
            - 1].stages@.len() > 0 {
            let p = patterns[n - 1];
            stage_cands(ds, e, p, (n - 1) as usize, init_stage_list(p), init_stage_list(p).len() as int, source, label, value, interval)
        } else {
            Seq::empty()
        }
    }
}

/// Deduplication of candidates whose fingerprints are `fps`, from the seen
/// fingerprints `seen0` and next id `id0`: the made ones with their ids and
/// fingerprints, and the seen fingerprints and next id after.
pub open spec fn dedupe_run<C>(cands: Seq<C>, fps: Seq<u64>, seen0: Seq<u64>, id0: usize) -> (Seq<(C, usize, u64)>, Seq<u64>, usize)
    decreases cands.len(),
{
    if cands.len() == 0 || fps.len() == 0 {
        (Seq::empty(), seen0, id0)
    } else {
        let d = dedupe_run(cands.drop_last(), fps.drop_last(), seen0, id0);
        let st = dedupe_step(true, d.1, d.2, fps.last());
        (if st.0 {
            d.0.push((cands.last(), d.2, fps.last()))
        } else {
            d.0
        }, st.1, st.2)
    }
}

/// `x` is the partial match made from candidate `m.0` with id `m.1` and
/// fingerprint `m.2`, created now at time `start` and tick `tick`.
pub open spec fn pm_of_cand<N, V>(x: PartialMatch<N, V, i64>, m: (InitCand<N, V>, usize, u64), tick: u64, start: i64) -> bool {
    &&& x.pattern_idx == m.0.0
    &&& x.bindings@ == m.0.1
    &&& x.intervals@ == m.0.2
    &&& x.next_stage == m.0.3
    &&& x.state == if m.0.4 {
        MatchState::Complete
    } else {
        MatchState::Active
    }
    &&& x.matched_stages == m.0.5
    &&& x.id == m.1
    &&& x.fingerprint == m.2
    &&& x.created_at == start
    &&& x.created_at_tick == tick
    &&& x.last_advanced_tick == tick
    &&& x.repetition_count == 0
}

/// The partial matches `r`, seen fingerprints `seen` and next id `id` are
/// what deduplicating `cands` with fingerprints `fps` gives.
pub open spec fn dedupe_outcome<N, V>(
    cands: Seq<InitCand<N, V>>,
    fps: Seq<u64>,
    seen0: Seq<u64>,
    id0: usize,
    r: Seq<PartialMatch<N, V, i64>>,
    seen: Seq<u64>,
    id: usize,
    tick: u64,
    start: i64,
) -> bool {
    let d = dedupe_run(cands, fps, seen0, id0);
    &&& fps.len() == cands.len()
    &&& d.1 == seen
    &&& d.2 == id
    &&& r.len() == d.0.len()
    &&& forall|m: int| 0 <= m < r.len() ==> pm_of_cand(#[trigger] r[m], d.0[m], tick, start)
}

/// One more candidate with fingerprint `f`: deduplication skips it or
/// makes the partial match `x` from it.
proof fn lemma_dedupe_extend<N, V>(
    cands: Seq<InitCand<N, V>>,
    fps: Seq<u64>,
    seen0: Seq<u64>,
    id0: usize,
    out: Seq<PartialMatch<N, V, i64>>,
    seen: Seq<u64>,
    id: usize,
    tick: u64,
    start: i64,
    c: InitCand<N, V>,
    f: u64,
    x: PartialMatch<N, V, i64>,
)
    requires
        dedupe_outcome(cands, fps, seen0, id0, out, seen, id, tick, start),
    ensures
        !dedupe_step(true, seen, id, f).0 ==> dedupe_outcome(
            cands.push(c),
            fps.push(f),
            seen0,
            id0,
            out,
            dedupe_step(true, seen, id, f).1,
            dedupe_step(true, seen, id, f).2,
            tick,
            start,
        ),
        dedupe_step(true, seen, id, f).0 && pm_of_cand(x, (c, id, f), tick, start) ==> dedupe_outcome(
            cands.push(c),
            fps.push(f),
            seen0,
            id0,
            out.push(x),
            dedupe_step(true, seen, id, f).1,
            dedupe_step(true, seen, id, f).2,
            tick,
            start,
        ),
{
    assert(cands.push(c).drop_last() =~= cands);
    assert(fps.push(f).drop_last() =~= fps);
    let d = dedupe_run(cands, fps, seen0, id0);
    let d2 = dedupe_run(cands.push(c), fps.push(f), seen0, id0);
    if dedupe_step(true, seen, id, f).0 && pm_of_cand(x, (c, id, f), tick, start) {
        let o2 = out.push(x);
        assert forall|m: int| 0 <= m < o2.len() implies pm_of_cand(#[trigger] o2[m], d2.0[m], tick, start) by {
            if m < out.len() {
                assert(o2[m] == out[m]);
                assert(d2.0[m] == d.0[m]);
            }
        }
    }
}

/// Phase 2: try to initiate new partial matches from the new edge, for
/// every enabled pattern, by its first stage (or, when that stage is in an
/// unordered group, by any stage of the group).
pub(crate) fn initiation_phase<DS: DataSource, E: LetEvaluator<DS::N, DS::V>>(
    ds: &DS,
    patterns: &Vec<Pattern<DS::L, DS::V>>,
    enabled: &Vec<bool>,
    tick: u64,
    evaluator: &E,
    source: &DS::N,
    label: &DS::L,
    value: &DS::V,
    interval: &Interval<i64>,
    st: &mut StepState<DS::N, DS::V>,
    Ghost(prior): Ghost<Seq<PartialMatch<DS::N, DS::V, i64>>>,
) -> (r: Vec<PartialMatch<DS::N, DS::V, i64>>)
    requires
        enabled@.len() == patterns@.len(),
        forall|p: int| 0 <= p < patterns@.len() ==> engine_ready(#[trigger] patterns@[p]),
        completions_held(old(st).events@, prior, patterns@),
    ensures
        old(st).next_id <= final(st).next_id,
        fresh_pms(r@, old(st).next_id, final(st).next_id, enabled@, tick),
        fps_fresh(r@, old(st).seen@, final(st).seen@),
        seen_grows(old(st).seen@, final(st).seen@),
        caused_by(r@, patterns@, *interval),
        crate::engine::sift::past_end(r@, patterns@),
        completions_held(final(st).events@, prior + r@, patterns@),
        appends_no_negation(old(st).events@, final(st).events@),
        stats_grown(old(st).stats, final(st).stats),
        events_track(old(st).events@, final(st).events@, r@, patterns@),
        lawful::<DS>() && (crate::engine::sift::all_let_free(patterns@) || evaluator.obeys_evaluate_spec()) ==> exists|fps: Seq<u64>|
            #[trigger] dedupe_outcome(
                init_cands(*ds, *evaluator, patterns@, enabled@, patterns@.len() as int, *source, *label, *value, *interval),
                fps,
                old(st).seen@,
                old(st).next_id,
                r@,
                final(st).seen@,
                final(st).next_id,
                tick,
                interval.start,
            ),
{
    proof {
        assert(prior + Seq::<PartialMatch<DS::N, DS::V, i64>>::empty() =~= prior);
    }
    let ghost s0 = st.seen@;
    let ghost id0 = st.next_id;
    let ghost mut done: Seq<InitCand<DS::N, DS::V>> = Seq::empty();
    let ghost mut fps: Seq<u64> = Seq::empty();
    let mut out: Vec<PartialMatch<DS::N, DS::V, i64>> = Vec::new();
    let mut pat_idx: usize = 0;
    while pat_idx < patterns.len()
        invariant
            pat_idx <= patterns@.len(),
            enabled@.len() == patterns@.len(),
            forall|p: int| 0 <= p < patterns@.len() ==> engine_ready(#[trigger] patterns@[p]),
            old(st).next_id <= st.next_id,
            fresh_pms(out@, old(st).next_id, st.next_id, enabled@, tick),
            fps_fresh(out@, old(st).seen@, st.seen@),
            seen_grows(old(st).seen@, st.seen@),
            caused_by(out@, patterns@, *interval),
            crate::engine::sift::past_end(out@, patterns@),
            completions_held(st.events@, prior + out@, patterns@),
            appends_no_negation(old(st).events@, st.events@),
            stats_grown(old(st).stats, st.stats),
                    events_track(old(st).events@, st.events@, out@, patterns@),
            fps.len() == done.len(),
            s0 == old(st).seen@,
            id0 == old(st).next_id,
            lawful::<DS>() && (crate::engine::sift::all_let_free(patterns@) || evaluator.obeys_evaluate_spec()) ==> dedupe_outcome(done, fps, s0, id0, out@, st.seen@, st.next_id, tick, interval.start),
            lawful::<DS>() && (crate::engine::sift::all_let_free(patterns@) || evaluator.obeys_evaluate_spec()) ==> done == init_cands(*ds, *evaluator, patterns@, enabled@, pat_idx as int, *source, *label, *value, *interval),
        decreases patterns@.len() - pat_idx,
    {
        let pattern = &patterns[pat_idx];
        if enabled[pat_idx] && pattern.stages.len() > 0 {
            proof {
                assert(engine_ready(patterns@[pat_idx as int]));
            }
            let group0 = pattern.unordered_group_for(0);
            let init_stages: Vec<usize> = match group0 {
                Some(g) => crate::pattern::copy_indices(g),
                None => {
                    let mut v: Vec<usize> = Vec::new();
                    v.push(0);
                    v
                },
            };
            proof {
                crate::engine::steps::lemma_first_group_with(pattern.unordered_groups@, 0);
                assert(init_stages@ =~= init_stage_list(*pattern));
            }
            let mut k: usize = 0;
            while k < init_stages.len()
                invariant
                    k <= init_stages@.len(),
                    pat_idx < patterns@.len(),
                    *pattern == patterns@[pat_idx as int],
                    enabled@.len() == patterns@.len(),
                    enabled@[pat_idx as int],
                    engine_ready(*pattern),
                    pattern.stages@.len() > 0,
                    forall|j: int| 0 <= j < init_stages@.len() ==> #[trigger] init_stages@[j] < pattern.stages@.len()
                        && init_stages@[j] < 64,
                    group0 matches Some(g) ==> init_stages@ == g@ && forall|j: int| 0 <= j < g@.len() ==> #[trigger] g@[j]
                        < pattern.stages@.len() && g@[j] < 64,
                    group0 is Some ==> init_stages@.len() > 0,
                    old(st).next_id <= st.next_id,
                    fresh_pms(out@, old(st).next_id, st.next_id, enabled@, tick),
                    fps_fresh(out@, old(st).seen@, st.seen@),
                    seen_grows(old(st).seen@, st.seen@),
                    caused_by(out@, patterns@, *interval),
                    crate::engine::sift::past_end(out@, patterns@),
                    completions_held(st.events@, prior + out@, patterns@),
                    appends_no_negation(old(st).events@, st.events@),
                    stats_grown(old(st).stats, st.stats),
                    events_track(old(st).events@, st.events@, out@, patterns@),
                    init_stages@ == init_stage_list(*pattern),
                    group0 matches Some(g) ==> first_group_with(pattern.unordered_groups@, 0) matches Some(gi) && *g
                        == pattern.unordered_groups@[gi],
                    group0 is None ==> first_group_with(pattern.unordered_groups@, 0) is None,
                    fps.len() == done.len(),
                    s0 == old(st).seen@,
                    id0 == old(st).next_id,
                    lawful::<DS>() && (crate::engine::sift::all_let_free(patterns@) || evaluator.obeys_evaluate_spec()) ==> dedupe_outcome(done, fps, s0, id0, out@, st.seen@, st.next_id, tick, interval.start),
                    lawful::<DS>() && (crate::engine::sift::all_let_free(patterns@) || evaluator.obeys_evaluate_spec()) ==> done == init_cands(*ds, *evaluator, patterns@, enabled@, pat_idx as int, *source, *label, *value, *interval) + stage_cands(
                        *ds,
                        *evaluator,
                        *pattern,
                        pat_idx,
                        init_stages@,
                        k as int,
                        *source, *label, *value, *interval,
                    ),
                decreases init_stages@.len() - k,
            {
                let init_idx = init_stages[k];
                let results = try_match_stage(
                    ds,
                    &pattern.stages[init_idx],
                    source,
                    label,
                    value,
                    interval,
                    &StrMap::new(),
                    evaluator,
                );
                let ghost base_done = done;
                proof {
                    if lawful::<DS>() && (crate::engine::sift::all_let_free(patterns@) || evaluator.obeys_evaluate_spec()) {
                        if crate::engine::sift::all_let_free(patterns@) {
                            assert(crate::engine::free::let_free(patterns@[pat_idx as int]));
                            assert(pattern.stages@[init_idx as int].let_bindings@.len() == 0);
                        }
                    }
                }
                match results {
                    Some(cands) => {
                        let mut cands = cands;
                        while cands.len() > 0
                            invariant
                                pat_idx < patterns@.len(),
                                *pattern == patterns@[pat_idx as int],
                                enabled@.len() == patterns@.len(),
                                enabled@[pat_idx as int],
                                engine_ready(*pattern),
                                init_idx < pattern.stages@.len(),
                                init_idx < 64,
                                forall|j: int|
                                    0 <= j < cands@.len() ==> (#[trigger] cands@[j]).1@ == single_interval(
                                        pattern.stages@[init_idx as int].anchor.0@,
                                        *interval,
                                    ),
                                group0 matches Some(g) ==> g@.len() > 0 && forall|j: int| 0 <= j < g@.len() ==> #[trigger] g@[j]
                                    < pattern.stages@.len(),
                                old(st).next_id <= st.next_id,
                                fresh_pms(out@, old(st).next_id, st.next_id, enabled@, tick),
                                fps_fresh(out@, old(st).seen@, st.seen@),
                                seen_grows(old(st).seen@, st.seen@),
                                caused_by(out@, patterns@, *interval),
                                crate::engine::sift::past_end(out@, patterns@),
                                completions_held(st.events@, prior + out@, patterns@),
                                appends_no_negation(old(st).events@, st.events@),
                                stats_grown(old(st).stats, st.stats),
                    events_track(old(st).events@, st.events@, out@, patterns@),
                                fps.len() == done.len(),
                                s0 == old(st).seen@,
                                id0 == old(st).next_id,
                                lawful::<DS>() && (crate::engine::sift::all_let_free(patterns@) || evaluator.obeys_evaluate_spec()) ==> dedupe_outcome(done, fps, s0, id0, out@, st.seen@, st.next_id, tick, interval.start),
                                lawful::<DS>() && (crate::engine::sift::all_let_free(patterns@) || evaluator.obeys_evaluate_spec()) ==> base_done == init_cands(*ds, *evaluator, patterns@, enabled@, pat_idx as int, *source, *label, *value, *interval) + stage_cands(
                                    *ds,
                                    *evaluator,
                                    *pattern,
                                    pat_idx,
                                    init_stage_list(*pattern),
                                    k as int,
                                    *source, *label, *value, *interval,
                                ),
                                lawful::<DS>() && (crate::engine::sift::all_let_free(patterns@) || evaluator.obeys_evaluate_spec()) && cands@.len() == 0 ==> done == base_done + opt_seq(
                                    init_cand_of(*ds, *evaluator, *pattern, pat_idx, init_idx, *source, *label, *value, *interval),
                                ),
                                lawful::<DS>() && (crate::engine::sift::all_let_free(patterns@) || evaluator.obeys_evaluate_spec()) && cands@.len() > 0 ==> done == base_done && cands@.len() == 1
                                    && crate::engine::stage::stage_result(
                                    *ds,
                                    *evaluator,
                                    pattern.stages@[init_idx as int],
                                    *source,
                                    *label,
                                    *value,
                                    *interval,
                                    Map::empty(),
                                ) == Some(cands@[0].0@),
                                group0 matches Some(g) ==> first_group_with(pattern.unordered_groups@, 0) matches Some(gi) && *g
                                    == pattern.unordered_groups@[gi],
                                group0 is None ==> first_group_with(pattern.unordered_groups@, 0) is None,
                                k < init_stages@.len(),
                                init_stages@[k as int] == init_idx,
                                init_stages@ == init_stage_list(*pattern),
                            decreases cands@.len(),
                        {
                            let ghost cands_before = cands@;
                            let (bindings, intervals) = cands.remove(0);
                            let (next, init_mask) = match group0 {
                                Some(group) => {
                                    let mask = stage_bit(init_idx);
                                    if group.len() == 1 {
                                        (group_end(group, pattern.stages.len()), mask)
                                    } else {
                                        (group[0], mask)
                                    }
                                },
                                None => (1, 0),
                            };
                            let is_last = next >= pattern.stages.len();
                            if is_last && !check_negations_batch(ds, pattern, &bindings, &intervals) {
                                proof {
                                    if lawful::<DS>() && (crate::engine::sift::all_let_free(patterns@) || evaluator.obeys_evaluate_spec()) {
                                        assert(init_cand_of(*ds, *evaluator, *pattern, pat_idx, init_idx, *source, *label, *value, *interval) is None);
                                        assert(base_done + Seq::<InitCand<DS::N, DS::V>>::empty() =~= base_done);
                                    }
                                }
                                continue;
                            }
                            let final_next = if is_last {
                                pattern.stages.len()
                            } else {
                                next
                            };
                            st.stats.total_fingerprints = bump(st.stats.total_fingerprints);
                            let fp = compute_fingerprint_full(pat_idx, final_next, &bindings, &intervals, 0, init_mask);
                            let ghost cand: InitCand<DS::N, DS::V> = (pat_idx, bindings@, intervals@, final_next, is_last, init_mask);
                            let ghost done_before = done;
                            let ghost fps_before = fps;
                            proof {
                                if lawful::<DS>() && (crate::engine::sift::all_let_free(patterns@) || evaluator.obeys_evaluate_spec()) {
                                    assert(init_cand_of(*ds, *evaluator, *pattern, pat_idx, init_idx, *source, *label, *value, *interval) == Some(cand));
                                    assert(base_done + opt_seq(Some(cand)) =~= base_done.push(cand));
                                }
                                done = done.push(cand);
                                fps = fps.push(fp);
                            }
                            let ghost seen_before = st.seen@;
                            if !st.seen.insert(fp) {
                                proof {
                                    if lawful::<DS>() && (crate::engine::sift::all_let_free(patterns@) || evaluator.obeys_evaluate_spec()) {
                                        lemma_dedupe_extend(done_before, fps_before, s0, id0, out@, seen_before, st.next_id, tick, interval.start, cand, fp, vstd::pervasive::arbitrary());
                                    }
                                }
                                continue;
                            }
                            proof {
                                lemma_seen_push(out@, old(st).seen@, seen_before, fp);
                            }
                            let ghost before = st.next_id;
                            let ghost ev0 = st.events@;
                            match new_pm(
                                st,
                                pattern,
                                pat_idx,
                                bindings,
                                intervals,
                                interval.start,
                                final_next,
                                is_last,
                                fp,
                                tick,
                                tick,
                                0,
                                init_mask,
                                init_idx,
                            ) {
                                Some(pm) => {
                                    proof {
                                        lemma_fresh_push(out@, pm, old(st).next_id, before, enabled@, tick);
                                        lemma_fps_push(out@, pm, old(st).seen@, seen_before);
                                        lemma_caused_push(out@, pm, patterns@, *interval, init_idx as int);
                                        crate::engine::sift::lemma_past_end_push(out@, pm, patterns@);
                                        lemma_new_pm_completions(ev0, st.events@, prior, out@, patterns@, pm);
                                        lemma_appends_step(old(st).events@, ev0, st.events@);
                                        lemma_track_push(old(st).events@, ev0, st.events@, out@, patterns@, pm);
                                        if lawful::<DS>() && (crate::engine::sift::all_let_free(patterns@) || evaluator.obeys_evaluate_spec()) {
                                            lemma_dedupe_extend(done_before, fps_before, s0, id0, out@, seen_before, before, tick, interval.start, cand, fp, pm);
                                        }
                                    }
                                    out.push(pm);
                                },
                                None => {
                                    proof {
                                        if lawful::<DS>() && (crate::engine::sift::all_let_free(patterns@) || evaluator.obeys_evaluate_spec()) {
                                            lemma_dedupe_extend(done_before, fps_before, s0, id0, out@, seen_before, before, tick, interval.start, cand, fp, vstd::pervasive::arbitrary());
                                        }
                                    }
                                },
                            }
                        }
                    },
                    None => {
                        proof {
                            if lawful::<DS>() && (crate::engine::sift::all_let_free(patterns@) || evaluator.obeys_evaluate_spec()) {
                                assert(init_cand_of(*ds, *evaluator, *pattern, pat_idx, init_idx, *source, *label, *value, *interval) is None);
                                assert(base_done + Seq::<InitCand<DS::N, DS::V>>::empty() =~= base_done);
                            }
                        }
                    },
                }
                proof {
                    if lawful::<DS>() && (crate::engine::sift::all_let_free(patterns@) || evaluator.obeys_evaluate_spec()) {
                        let a = init_cands(*ds, *evaluator, patterns@, enabled@, pat_idx as int, *source, *label, *value, *interval);
                        let b = stage_cands(*ds, *evaluator, *pattern, pat_idx, init_stages@, k as int, *source, *label, *value, *interval);
                        let c = opt_seq(init_cand_of(*ds, *evaluator, *pattern, pat_idx, init_idx, *source, *label, *value, *interval));
                        assert(a + b + c =~= a + (b + c));
                    }
                }
                k = k + 1;
            }
        }
        proof {
            if lawful::<DS>() && (crate::engine::sift::all_let_free(patterns@) || evaluator.obeys_evaluate_spec()) {
                let a = init_cands(*ds, *evaluator, patterns@, enabled@, pat_idx as int, *source, *label, *value, *interval);
                assert(a + Seq::<InitCand<DS::N, DS::V>>::empty() =~= a);
            }
        }
        pat_idx = pat_idx + 1;
    }
    proof {
        if lawful::<DS>() && (crate::engine::sift::all_let_free(patterns@) || evaluator.obeys_evaluate_spec()) {
            assert(dedupe_outcome(
                init_cands(*ds, *evaluator, patterns@, enabled@, patterns@.len() as int, *source, *label, *value, *interval),
                fps,
                old(st).seen@,
                old(st).next_id,
                out@,
                st.seen@,
                st.next_id,
                tick,
                interval.start,
            ));
        }
    }
    out
}

/// Every id in `consume` is the id of an active partial match of `pms`.
pub open spec fn consumable<N, V>(consume: Seq<usize>, pms: Seq<PartialMatch<N, V, i64>>) -> bool {
    forall|k: int|
        0 <= k < consume.len() ==> exists|i: int|
            0 <= i < pms.len() && (#[trigger] pms[i]).state == MatchState::Active && pms[i].id == #[trigger] consume[k]
}

/// One past the largest index of a non-empty group.
pub open spec fn group_top(g: Seq<usize>) -> int {
    choose|r: int| #[trigger] is_top(g, r)
}

/// `r` is one past the largest index of `g`.
pub open spec fn is_top(g: Seq<usize>, r: int) -> bool {
    (forall|k: int| 0 <= k < g.len() ==> #[trigger] g[k] < r) && exists|k: int| 0 <= k < g.len() && #[trigger] g[k] == r - 1
}

proof fn lemma_group_top(g: Seq<usize>, r: int)
    requires
        forall|k: int| 0 <= k < g.len() ==> #[trigger] g[k] < r,
        exists|k: int| 0 <= k < g.len() && #[trigger] g[k] == r - 1,
    ensures
        group_top(g) == r,
{
    assert(is_top(g, r));
    let t = group_top(g);
    let k1 = choose|k: int| 0 <= k < g.len() && #[trigger] g[k] == r - 1;
    let k2 = choose|k: int| 0 <= k < g.len() && #[trigger] g[k] == t - 1;
    assert(g[k1] < t);
    assert(g[k2] < r);
}

/// A candidate advancement: the index of the advancing partial match, the
/// kind (0 a plain advancement, 1 a repetition's completion, 2 its loop
/// back), the stage tried, the stage's bindings and interval, the next
/// stage, the group mask, the repetition count, whether it is doomed by the
/// final temporal check, and whether it consumes the advancing match.
pub type AdvCand<N, V> = (int, int, usize, Map<Seq<char>, BoundValue<N, V>>, Map<Seq<char>, Interval<i64>>, usize, u64, int, bool, bool);

/// The stages a partial match may advance by: its next stage, or the
/// stages of the next stage's group not matched yet.
pub open spec fn try_list<N, L, V>(p: Pattern<L, V>, pm: PartialMatch<N, V, i64>) -> Seq<usize> {
    match first_group_with(p.unordered_groups@, pm.next_stage) {
        Some(g) => p.unordered_groups@[g]@.filter(|x: usize| pm.matched_stages & (1u64 << (x as u64)) == 0),
        None => seq![pm.next_stage],
    }
}

/// The next stage and group mask after `pm` matches stage `t`.
pub open spec fn adv_next_mask<N, L, V>(p: Pattern<L, V>, pm: PartialMatch<N, V, i64>, t: usize) -> (usize, u64) {
    match first_group_with(p.unordered_groups@, pm.next_stage) {
        Some(g) => {
            let gs = p.unordered_groups@[g]@;
            let mask = pm.matched_stages | (1u64 << (t as u64));
            if forall|j: int| 0 <= j < gs.len() ==> mask & (1u64 << (#[trigger] gs[j] as u64)) != 0 {
                (group_top(gs) as usize, mask)
            } else {
                (gs[0], mask)
            }
        },
        None => ((pm.next_stage + 1) as usize, pm.matched_stages),
    }
}

/// The candidates from partial match `pi` (that is `pm`) matching stage `t`
/// by the edge.
pub open spec fn adv_stage_cands<DS: DataSource, E: LetEvaluator<DS::N, DS::V>>(
    ds: DS,
    e: E,
    p: Pattern<DS::L, DS::V>,
    pm: PartialMatch<DS::N, DS::V, i64>,
    pi: int,
    t: usize,
    source: DS::N,
    label: DS::L,
    value: DS::V,
    interval: Interval<i64>,
) -> Seq<AdvCand<DS::N, DS::V>> {
    match crate::engine::stage::stage_result(ds, e, p.stages@[t as int], source, label, value, interval, pm.bindings@) {
        None => Seq::empty(),
        Some(b) => if !(forall|k: Seq<char>|
            #[trigger] pm.intervals@.contains_key(k) ==> group_exempt(p, k, t) || pm.intervals@[k].start < interval.start) {
            Seq::empty()
        } else {
            let ni = single_interval(p.stages@[t as int].anchor.0@, interval);
            let mi = pm.intervals@.union_prefer_right(ni);
            let nm = adv_next_mask(p, pm, t);
            let past = nm.0 >= p.stages@.len();
            if past && p.repeat_range is Some {
                let rr = p.repeat_range->0;
                let rep = next_rep(pm.repetition_count);
                if rep > u32::MAX {
                    Seq::empty()
                } else {
                    let done_off = rep as u32 >= rr.min_reps as u32 && temporal_holds(p, mi);
                    let loop_off = !(rr.max_reps matches Some(m) && rep as u32 >= m as u32);
                    (if done_off {
                        seq![(pi, 1int, t, b, ni, nm.0, nm.1, rep, false, p.advance_in_place)]
                    } else {
                        Seq::empty()
                    }) + (if loop_off {
                        seq![(pi, 2int, t, b, ni, rr.stage_start, 0u64, rep, false, false)]
                    } else {
                        Seq::empty()
                    })
                }
            } else {
                seq![
                    (
                        pi,
                        0int,
                        t,
                        b,
                        ni,
                        nm.0,
                        nm.1,
                        pm.repetition_count as int,
                        past && !temporal_holds(p, mi),
                        p.advance_in_place && nm.0 > pm.next_stage,
                    ),
                ]
            }
        },
    }
}

/// The candidates from partial match `pi` over the first `n` stages it may
/// advance by.
pub open spec fn adv_try_cands<DS: DataSource, E: LetEvaluator<DS::N, DS::V>>(
    ds: DS,
    e: E,
    p: Pattern<DS::L, DS::V>,
    pm: PartialMatch<DS::N, DS::V, i64>,
    pi: int,
    n: int,
    source: DS::N,
    label: DS::L,
    value: DS::V,
    interval: Interval<i64>,
) -> Seq<AdvCand<DS::N, DS::V>>
    decreases n,
{
    if n <= 0 {
        Seq::empty()
    } else {
        adv_try_cands(ds, e, p, pm, pi, n - 1, source, label, value, interval) + adv_stage_cands(
            ds,
            e,
            p,
            pm,
            pi,
            try_list(p, pm)[n - 1],
            source,
            label,
            value,
            interval,
        )
    }
}

/// The candidate advancements of the first `n` partial matches of `pms`, in
/// order: active ones of enabled patterns with a stage left.
pub open spec fn adv_cands<DS: DataSource, E: LetEvaluator<DS::N, DS::V>>(
    ds: DS,
    e: E,
    patterns: Seq<Pattern<DS::L, DS::V>>,
    enabled: Seq<bool>,
    pms: Seq<PartialMatch<DS::N, DS::V, i64>>,
    n: int,
    source: DS::N,
    label: DS::L,
    value: DS::V,
    interval: Interval<i64>,
) -> Seq<AdvCand<DS::N, DS::V>>
    decreases n,
{
    if n <= 0 {
        Seq::empty()
    } else {
        let pm = pms[n - 1];
        let p = patterns[pm.pattern_idx as int];
        adv_cands(ds, e, patterns, enabled, pms, n - 1, source, label, value, interval) + if pm.state == MatchState::Active
            && enabled[pm.pattern_idx as int] && pm.next_stage < p.stages@.len() {
            adv_try_cands(ds, e, p, pm, n - 1, try_list(p, pm).len() as int, source, label, value, interval)
        } else {
            Seq::empty()
        }
    }
}

/// Deduplication step for an advancement candidate with fingerprint `f`: a
/// seen fingerprint drops it; otherwise the fingerprint is recorded, and
/// with an id left it is made, unless doomed, which spends the id.
pub open spec fn adv_step<N, V>(c: AdvCand<N, V>, seen: Seq<u64>, id: usize, f: u64) -> (bool, Seq<u64>, usize) {
    if seen.contains(f) {
        (false, seen, id)
    } else if id == usize::MAX {
        (false, seen.push(f), id)
    } else if c.8 {
        (false, seen.push(f), (id + 1) as usize)
    } else {
        (true, seen.push(f), (id + 1) as usize)
    }
}

/// Deduplication of advancement candidates with fingerprints `fps`.
pub open spec fn adv_run<N, V>(cands: Seq<AdvCand<N, V>>, fps: Seq<u64>, seen0: Seq<u64>, id0: usize) -> (
    Seq<(AdvCand<N, V>, usize, u64)>,
    Seq<u64>,
    usize,
)
    decreases cands.len(),
{
    if cands.len() == 0 || fps.len() == 0 {
        (Seq::empty(), seen0, id0)
    } else {
        let d = adv_run(cands.drop_last(), fps.drop_last(), seen0, id0);
        let st = adv_step(cands.last(), d.1, d.2, fps.last());
        (if st.0 {
            d.0.push((cands.last(), d.2, fps.last()))
        } else {
            d.0
        }, st.1, st.2)
    }
}

/// The ids of the partial matches consumed by the made candidates.
pub open spec fn consumed_ids<N, V>(made: Seq<(AdvCand<N, V>, usize, u64)>, pms: Seq<PartialMatch<N, V, i64>>) -> Seq<usize>
    decreases made.len(),
{
    if made.len() == 0 {
        Seq::empty()
    } else {
        consumed_ids(made.drop_last(), pms) + if made.last().0.9 {
            seq![pms[made.last().0.0].id]
        } else {
            Seq::empty()
        }
    }
}

/// `m` is the merge of bindings `a` with `b`: `b`'s keys win, every value a
/// clone.
pub open spec fn merged_rel<N: Clone, V: Clone>(
    a: Map<Seq<char>, BoundValue<N, V>>,
    b: Map<Seq<char>, BoundValue<N, V>>,
    m: Map<Seq<char>, BoundValue<N, V>>,
) -> bool {
    &&& m.dom() == a.dom().union(b.dom())
    &&& forall|k: Seq<char>| #[trigger] b.contains_key(k) ==> cloned(b[k], m[k])
    &&& forall|k: Seq<char>| !b.contains_key(k) && #[trigger] a.contains_key(k) ==> cloned(a[k], m[k])
}

/// `x` is the partial match made from the candidate of `m` with id `m.1`
/// and fingerprint `m.2`.
pub open spec fn adv_made<N: Clone, L, V: Clone>(
    x: PartialMatch<N, V, i64>,
    m: (AdvCand<N, V>, usize, u64),
    pms: Seq<PartialMatch<N, V, i64>>,
    patterns: Seq<Pattern<L, V>>,
    tick: u64,
) -> bool {
    let c = m.0;
    let pm = pms[c.0];
    let p = patterns[pm.pattern_idx as int];
    &&& x.id == m.1
    &&& x.fingerprint == m.2
    &&& x.pattern_idx == pm.pattern_idx
    &&& x.created_at == pm.created_at
    &&& x.created_at_tick == pm.created_at_tick
    &&& x.last_advanced_tick == tick
    &&& x.intervals@ == pm.intervals@.union_prefer_right(c.4)
    &&& x.next_stage == c.5
    &&& x.matched_stages == c.6
    &&& x.repetition_count == c.7
    &&& x.state == if c.1 == 2 {
        MatchState::Active
    } else if c.1 == 1 || c.5 >= p.stages@.len() {
        MatchState::Complete
    } else {
        MatchState::Active
    }
    &&& c.1 == 0 ==> merged_rel(pm.bindings@, c.3, x.bindings@)
    &&& c.1 != 0 ==> exists|mb: Map<Seq<char>, BoundValue<N, V>>|
        #[trigger] merged_rel(pm.bindings@, c.3, mb) && (forall|n: Seq<char>|
            #[trigger] x.bindings@.contains_key(n) <==> mb.contains_key(n) && (c.1 == 1 || !dropped_before(
                p,
                p.repeat_range->0,
                p.repeat_range->0.stage_end as int,
                n,
            ))) && forall|n: Seq<char>| #[trigger] x.bindings@.contains_key(n) ==> cloned(mb[n], x.bindings@[n])
}

/// The partial matches `r`, seen fingerprints, next id and consumed ids are
/// what deduplicating the advancement candidates `cands` with fingerprints
/// `fps` gives.
pub open spec fn adv_outcome<N: Clone, L, V: Clone>(
    cands: Seq<AdvCand<N, V>>,
    fps: Seq<u64>,
    seen0: Seq<u64>,
    id0: usize,
    consume0: Seq<usize>,
    r: Seq<PartialMatch<N, V, i64>>,
    seen: Seq<u64>,
    id: usize,
    consume: Seq<usize>,
    pms: Seq<PartialMatch<N, V, i64>>,
    patterns: Seq<Pattern<L, V>>,
    tick: u64,
) -> bool {
    let d = adv_run(cands, fps, seen0, id0);
    &&& fps.len() == cands.len()
    &&& d.1 == seen
    &&& d.2 == id
    &&& r.len() == d.0.len()
    &&& forall|m: int| 0 <= m < r.len() ==> adv_made(#[trigger] r[m], d.0[m], pms, patterns, tick)
    &&& consume == consume0 + consumed_ids(d.0, pms)
}

/// One more advancement candidate with fingerprint `f`.
proof fn lemma_adv_extend<N: Clone, L, V: Clone>(
    cands: Seq<AdvCand<N, V>>,
    fps: Seq<u64>,
    seen0: Seq<u64>,
    id0: usize,
    consume0: Seq<usize>,
    out: Seq<PartialMatch<N, V, i64>>,
    seen: Seq<u64>,
    id: usize,
    consume: Seq<usize>,
    pms: Seq<PartialMatch<N, V, i64>>,
    patterns: Seq<Pattern<L, V>>,
    tick: u64,
    c: AdvCand<N, V>,
    f: u64,
    x: PartialMatch<N, V, i64>,
)
    requires
        adv_outcome(cands, fps, seen0, id0, consume0, out, seen, id, consume, pms, patterns, tick),
    ensures
        !adv_step(c, seen, id, f).0 ==> adv_outcome(
            cands.push(c),
            fps.push(f),
            seen0,
            id0,
            consume0,
            out,
            adv_step(c, seen, id, f).1,
            adv_step(c, seen, id, f).2,
            consume,
            pms,
            patterns,
            tick,
        ),
        adv_step(c, seen, id, f).0 && adv_made(x, (c, id, f), pms, patterns, tick) ==> adv_outcome(
            cands.push(c),
            fps.push(f),
            seen0,
            id0,
            consume0,
            out.push(x),
            adv_step(c, seen, id, f).1,
            adv_step(c, seen, id, f).2,
            if c.9 {
                consume.push(pms[c.0].id)
            } else {
                consume
            },
            pms,
            patterns,
            tick,
        ),
{
    assert(cands.push(c).drop_last() =~= cands);
    assert(fps.push(f).drop_last() =~= fps);
    let d = adv_run(cands, fps, seen0, id0);
    let d2 = adv_run(cands.push(c), fps.push(f), seen0, id0);
    if adv_step(c, seen, id, f).0 && adv_made(x, (c, id, f), pms, patterns, tick) {
        let o2 = out.push(x);
        assert(d2.0.drop_last() =~= d.0);
        assert forall|m: int| 0 <= m < o2.len() implies adv_made(#[trigger] o2[m], d2.0[m], pms, patterns, tick) by {
            if m < out.len() {
                assert(o2[m] == out[m]);
                assert(d2.0[m] == d.0[m]);
            }
        }
        if c.9 {
            assert(consume0 + consumed_ids(d2.0, pms) =~= (consume0 + consumed_ids(d.0, pms)).push(pms[c.0].id));
        } else {
            assert(consumed_ids(d.0, pms) + Seq::<usize>::empty() =~= consumed_ids(d.0, pms));
        }
    }
}

/// A repetition step, as `repeat_step` states its outcome, extends the
/// deduplication by its offered candidates.
proof fn lemma_adv_repeat<N: Clone, L, V: Clone>(
    cands: Seq<AdvCand<N, V>>,
    fps: Seq<u64>,
    seen0: Seq<u64>,
    id0: usize,
    consume0: Seq<usize>,
    out: Seq<PartialMatch<N, V, i64>>,
    seen: Seq<u64>,
    id: usize,
    consume: Seq<usize>,
    pms: Seq<PartialMatch<N, V, i64>>,
    patterns: Seq<Pattern<L, V>>,
    tick: u64,
    pi: int,
    t: usize,
    b: Map<Seq<char>, BoundValue<N, V>>,
    ni: Map<Seq<char>, Interval<i64>>,
    mb: Map<Seq<char>, BoundValue<N, V>>,
    mi: Map<Seq<char>, Interval<i64>>,
    next: usize,
    mask: u64,
    f1: u64,
    f2: u64,
    out2: Seq<PartialMatch<N, V, i64>>,
    seen2: Seq<u64>,
    id2: usize,
    consume2: Seq<usize>,
) -> (r: (Seq<AdvCand<N, V>>, Seq<u64>))
    requires
        adv_outcome(cands, fps, seen0, id0, consume0, out, seen, id, consume, pms, patterns, tick),
        0 <= pi < pms.len(),
        pms[pi].pattern_idx < patterns.len(),
        patterns[pms[pi].pattern_idx as int].repeat_range is Some,
        mi == pms[pi].intervals@.union_prefer_right(ni),
        merged_rel(pms[pi].bindings@, b, mb),
        next_rep(pms[pi].repetition_count) <= u32::MAX,
        repeat_outcome(
            patterns[pms[pi].pattern_idx as int],
            pms[pi],
            mb,
            mi,
            next,
            mask,
            tick,
            seen,
            id,
            out,
            consume,
            f1,
            f2,
            seen2,
            id2,
            out2,
            consume2,
        ),
    ensures
        ({
            let p = patterns[pms[pi].pattern_idx as int];
            let rr = p.repeat_range->0;
            let rep = next_rep(pms[pi].repetition_count);
            let done_off = rep as u32 >= rr.min_reps as u32 && temporal_holds(p, mi);
            let loop_off = !(rr.max_reps matches Some(m) && rep as u32 >= m as u32);
            &&& r.0 == (if done_off {
                seq![(pi, 1int, t, b, ni, next, mask, rep, false, p.advance_in_place)]
            } else {
                Seq::empty()
            }) + (if loop_off {
                seq![(pi, 2int, t, b, ni, rr.stage_start, 0u64, rep, false, false)]
            } else {
                Seq::empty()
            })
            &&& adv_outcome(cands + r.0, fps + r.1, seen0, id0, consume0, out2, seen2, id2, consume2, pms, patterns, tick)
        }),
{
    let pm = pms[pi];
    let p = patterns[pm.pattern_idx as int];
    let rr = p.repeat_range->0;
    let rep = next_rep(pm.repetition_count);
    let done_off = rep as u32 >= rr.min_reps as u32 && temporal_holds(p, mi);
    let loop_off = !(rr.max_reps matches Some(m) && rep as u32 >= m as u32);
    let c1: AdvCand<N, V> = (pi, 1int, t, b, ni, next, mask, rep, false, p.advance_in_place);
    let c2: AdvCand<N, V> = (pi, 2int, t, b, ni, rr.stage_start, 0u64, rep, false, false);
    let d1 = dedupe_step(done_off, seen, id, f1);
    let base = out.len();
    let k1: int = if d1.0 { 1 } else { 0 };
    let out1 = if d1.0 { out.push(out2[base as int]) } else { out };
    let cons1 = if d1.0 && p.advance_in_place { consume.push(pm.id) } else { consume };
    let cands1 = if done_off { cands.push(c1) } else { cands };
    let fps1 = if done_off { fps.push(f1) } else { fps };
    if done_off {
        assert(adv_step(c1, seen, id, f1) == d1);
        if d1.0 {
            assert(adv_made(out2[base as int], (c1, id, f1), pms, patterns, tick)) by {
                let x = out2[base as int];
                assert(merged_rel(pm.bindings@, c1.3, mb));
            }
        }
        lemma_adv_extend(cands, fps, seen0, id0, consume0, out, seen, id, consume, pms, patterns, tick, c1, f1, out2[base as int]);
    }
    assert(adv_outcome(cands1, fps1, seen0, id0, consume0, out1, d1.1, d1.2, cons1, pms, patterns, tick));
    let d2 = dedupe_step(loop_off, d1.1, d1.2, f2);
    let cands2 = if loop_off { cands1.push(c2) } else { cands1 };
    let fps2 = if loop_off { fps1.push(f2) } else { fps1 };
    if loop_off {
        assert(adv_step(c2, d1.1, d1.2, f2) == d2);
        if d2.0 {
            assert(adv_made(out2[base + k1], (c2, d1.2, f2), pms, patterns, tick)) by {
                assert(merged_rel(pm.bindings@, c2.3, mb));
            }
        }
        lemma_adv_extend(cands1, fps1, seen0, id0, consume0, out1, d1.1, d1.2, cons1, pms, patterns, tick, c2, f2, out2[base + k1]);
    }
    let out_final = if d2.0 { out1.push(out2[base + k1]) } else { out1 };
    assert(out_final =~= out2) by {
        assert(out2.subrange(0, base as int) == out);
        assert forall|i: int| 0 <= i < out2.len() implies out_final[i] == out2[i] by {
            if i < base {
                assert(out2.subrange(0, base as int)[i] == out2[i]);
            }
        }
    }
    let rc = (if done_off { seq![c1] } else { Seq::<AdvCand<N, V>>::empty() }) + (if loop_off {
        seq![c2]
    } else {
        Seq::<AdvCand<N, V>>::empty()
    });
    let rf = (if done_off { seq![f1] } else { Seq::<u64>::empty() }) + (if loop_off {
        seq![f2]
    } else {
        Seq::<u64>::empty()
    });
    assert(cands + rc =~= cands2);
    assert(fps + rf =~= fps2);
    (rc, rf)
}

/// Phase 3: try to advance every active partial match of an enabled pattern
/// by the new edge, at its next stage (or, inside an unordered group, at
/// any stage of the group not matched yet). Partial matches of patterns
/// that advance in place and progress strictly forward are scheduled for
/// removal in `consume`.
pub(crate) fn advancement_phase<DS: DataSource, E: LetEvaluator<DS::N, DS::V>>(
    ds: &DS,
    patterns: &Vec<Pattern<DS::L, DS::V>>,
    enabled: &Vec<bool>,
    pms: &Vec<PartialMatch<DS::N, DS::V, i64>>,
    tick: u64,
    evaluator: &E,
    source: &DS::N,
    label: &DS::L,
    value: &DS::V,
    interval: &Interval<i64>,
    st: &mut StepState<DS::N, DS::V>,
    consume: &mut Vec<usize>,
    Ghost(prior): Ghost<Seq<PartialMatch<DS::N, DS::V, i64>>>,
) -> (r: Vec<PartialMatch<DS::N, DS::V, i64>>)
    requires
        enabled@.len() == patterns@.len(),
        forall|p: int| 0 <= p < patterns@.len() ==> engine_ready(#[trigger] patterns@[p]),
        forall|i: int| 0 <= i < pms@.len() ==> (#[trigger] pms@[i]).pattern_idx < patterns@.len() && pms@[i].created_at_tick <= tick,
        consumable(old(consume)@, pms@),
        completions_held(old(st).events@, prior, patterns@),
    ensures
        completions_held(final(st).events@, prior + r@, patterns@),
        appends_no_negation(old(st).events@, final(st).events@),
        stats_grown(old(st).stats, final(st).stats),
        events_track(old(st).events@, final(st).events@, r@, patterns@),
        old(st).next_id <= final(st).next_id,
        fresh_pms(r@, old(st).next_id, final(st).next_id, enabled@, tick),
        fps_fresh(r@, old(st).seen@, final(st).seen@),
        seen_grows(old(st).seen@, final(st).seen@),
        caused_by(r@, patterns@, *interval),
        crate::engine::sift::past_end(r@, patterns@),
        consumable(final(consume)@, pms@),
        lawful::<DS>() && (crate::engine::sift::all_let_free(patterns@) || evaluator.obeys_evaluate_spec()) ==> exists|fps: Seq<u64>|
            #[trigger] adv_outcome(
                adv_cands(*ds, *evaluator, patterns@, enabled@, pms@, pms@.len() as int, *source, *label, *value, *interval),
                fps,
                old(st).seen@,
                old(st).next_id,
                old(consume)@,
                r@,
                final(st).seen@,
                final(st).next_id,
                final(consume)@,
                pms@,
                patterns@,
                tick,
            ),
{
    proof {
        assert(prior + Seq::<PartialMatch<DS::N, DS::V, i64>>::empty() =~= prior);
    }
    let ghost s0 = st.seen@;
    let ghost id0 = st.next_id;
    let ghost c0 = consume@;
    let ghost mut done: Seq<AdvCand<DS::N, DS::V>> = Seq::empty();
    let ghost mut fps: Seq<u64> = Seq::empty();
    proof {
        assert(c0 + consumed_ids(Seq::<(AdvCand<DS::N, DS::V>, usize, u64)>::empty(), pms@) =~= c0);
    }
    let mut out: Vec<PartialMatch<DS::N, DS::V, i64>> = Vec::new();
    let mut pi: usize = 0;
    while pi < pms.len()
        invariant
            pi <= pms@.len(),
            enabled@.len() == patterns@.len(),
            forall|p: int| 0 <= p < patterns@.len() ==> engine_ready(#[trigger] patterns@[p]),
            forall|i: int| 0 <= i < pms@.len() ==> (#[trigger] pms@[i]).pattern_idx < patterns@.len() && pms@[i].created_at_tick <= tick,
            consumable(consume@, pms@),
            old(st).next_id <= st.next_id,
            fresh_pms(out@, old(st).next_id, st.next_id, enabled@, tick),
            fps_fresh(out@, old(st).seen@, st.seen@),
            seen_grows(old(st).seen@, st.seen@),
            caused_by(out@, patterns@, *interval),
            crate::engine::sift::past_end(out@, patterns@),
            completions_held(st.events@, prior + out@, patterns@),
            appends_no_negation(old(st).events@, st.events@),
            stats_grown(old(st).stats, st.stats),
            events_track(old(st).events@, st.events@, out@, patterns@),
            fps.len() == done.len(),
            s0 == old(st).seen@,
            id0 == old(st).next_id,
            c0 == old(consume)@,
            lawful::<DS>() && (crate::engine::sift::all_let_free(patterns@) || evaluator.obeys_evaluate_spec()) ==> adv_outcome(done, fps, s0, id0, c0, out@, st.seen@, st.next_id, consume@, pms@, patterns@, tick),
            lawful::<DS>() && (crate::engine::sift::all_let_free(patterns@) || evaluator.obeys_evaluate_spec()) ==> done == adv_cands(*ds, *evaluator, patterns@, enabled@, pms@, pi as int, *source, *label, *value, *interval),
        decreases pms@.len() - pi,
    {
        let pm = &pms[pi];
        if pm.state == MatchState::Active && enabled[pm.pattern_idx] {
            let pattern = &patterns[pm.pattern_idx];
            proof {
                assert(engine_ready(patterns@[pm.pattern_idx as int]));
            }
            let stage_idx = pm.next_stage;
            let n_stages = pattern.stages.len();
            if stage_idx < n_stages {
                let group = pattern.unordered_group_for(stage_idx);
                proof {
                    crate::engine::steps::lemma_first_group_with(pattern.unordered_groups@, stage_idx);
                }
                let mut try_stages: Vec<usize> = Vec::new();
                let ghost pred = |x: usize| pm.matched_stages & (1u64 << (x as u64)) == 0;
                match group {
                    Some(g) => {
                        let mut j: usize = 0;
                        while j < g.len()
                            invariant
                                j <= g@.len(),
                                pred == (|x: usize| pm.matched_stages & (1u64 << (x as u64)) == 0),
                                try_stages@ == g@.take(j as int).filter(pred),
                                forall|k: int| 0 <= k < g@.len() ==> #[trigger] g@[k] < pattern.stages@.len() && g@[k] < 64,
                                forall|k: int| 0 <= k < try_stages@.len() ==> #[trigger] try_stages@[k] < pattern.stages@.len() && try_stages@[k]
                                    < 64,
                            decreases g@.len() - j,
                        {
                            proof {
                                assert(g@.take(j + 1) =~= g@.take(j as int).push(g@[j as int]));
                                g@.take(j as int).lemma_filter_push(g@[j as int], pred);
                            }
                            if pm.matched_stages & stage_bit(g[j]) == 0 {
                                try_stages.push(g[j]);
                            }
                            j = j + 1;
                        }
                        proof {
                            assert(g@.take(g@.len() as int) =~= g@);
                        }
                    },
                    None => {
                        try_stages.push(stage_idx);
                        proof {
                            assert(try_stages@ =~= seq![stage_idx]);
                        }
                    },
                }
                proof {
                    assert(try_stages@ == try_list(*pattern, *pm));
                }
                let mut t: usize = 0;
                while t < try_stages.len()
                    invariant
                        t <= try_stages@.len(),
                        pi < pms@.len(),
                        *pm == pms@[pi as int],
                        pm.state == MatchState::Active,
                        pm.pattern_idx < patterns@.len(),
                        pm.created_at_tick <= tick,
                        *pattern == patterns@[pm.pattern_idx as int],
                        enabled@.len() == patterns@.len(),
                        enabled@[pm.pattern_idx as int],
                        engine_ready(*pattern),
                        stage_idx == pm.next_stage,
                        stage_idx < pattern.stages@.len(),
                        group matches Some(g) ==> g@.len() > 0 && forall|k: int| 0 <= k < g@.len() ==> #[trigger] g@[k]
                            < pattern.stages@.len() && g@[k] < 64,
                        forall|k: int| 0 <= k < try_stages@.len() ==> #[trigger] try_stages@[k] < pattern.stages@.len(),
                        group is Some ==> forall|k: int| 0 <= k < try_stages@.len() ==> #[trigger] try_stages@[k] < 64,
                        pattern.stages@.len() <= usize::MAX,
                        consumable(consume@, pms@),
                        old(st).next_id <= st.next_id,
                        fresh_pms(out@, old(st).next_id, st.next_id, enabled@, tick),
                        fps_fresh(out@, old(st).seen@, st.seen@),
                        seen_grows(old(st).seen@, st.seen@),
                        caused_by(out@, patterns@, *interval),
                        crate::engine::sift::past_end(out@, patterns@),
                        completions_held(st.events@, prior + out@, patterns@),
                        appends_no_negation(old(st).events@, st.events@),
                        stats_grown(old(st).stats, st.stats),
                        events_track(old(st).events@, st.events@, out@, patterns@),
                        fps.len() == done.len(),
                        s0 == old(st).seen@,
                        id0 == old(st).next_id,
                        c0 == old(consume)@,
                        lawful::<DS>() && (crate::engine::sift::all_let_free(patterns@) || evaluator.obeys_evaluate_spec()) ==> adv_outcome(done, fps, s0, id0, c0, out@, st.seen@, st.next_id, consume@, pms@, patterns@, tick),
                        lawful::<DS>() && (crate::engine::sift::all_let_free(patterns@) || evaluator.obeys_evaluate_spec()) ==> done == adv_cands(*ds, *evaluator, patterns@, enabled@, pms@, pi as int, *source, *label, *value, *interval) + adv_try_cands(
                            *ds,
                            *evaluator,
                            *pattern,
                            *pm,
                            pi as int,
                            t as int,
                            *source, *label, *value, *interval,
                        ),
                        try_stages@ == try_list(*pattern, *pm),
                        group matches Some(g) ==> first_group_with(pattern.unordered_groups@, stage_idx) matches Some(gi) && *g
                            == pattern.unordered_groups@[gi],
                        group is None ==> first_group_with(pattern.unordered_groups@, stage_idx) is None,
                    decreases try_stages@.len() - t,
                {
                    let try_idx = try_stages[t];
                    let ghost base_done = done;
                    proof {
                        if lawful::<DS>() && (crate::engine::sift::all_let_free(patterns@) || evaluator.obeys_evaluate_spec()) {
                            if crate::engine::sift::all_let_free(patterns@) {
                                assert(crate::engine::free::let_free(patterns@[pm.pattern_idx as int]));
                                assert(pattern.stages@[try_idx as int].let_bindings@.len() == 0);
                            }
                        }
                    }
                    match try_match_stage(
                        ds,
                        &pattern.stages[try_idx],
                        source,
                        label,
                        value,
                        interval,
                        &pm.bindings,
                        evaluator,
                    ) {
                        Some(cands) => {
                            let mut cands = cands;
                            while cands.len() > 0
                                invariant
                                    pi < pms@.len(),
                                    *pm == pms@[pi as int],
                                    pm.state == MatchState::Active,
                                    pm.pattern_idx < patterns@.len(),
                                    pm.created_at_tick <= tick,
                                    *pattern == patterns@[pm.pattern_idx as int],
                                    enabled@.len() == patterns@.len(),
                                    enabled@[pm.pattern_idx as int],
                                    engine_ready(*pattern),
                                    stage_idx == pm.next_stage,
                                    stage_idx < pattern.stages@.len(),
                                    try_idx < pattern.stages@.len(),
                                    group is Some ==> try_idx < 64,
                                    forall|j: int|
                                        0 <= j < cands@.len() ==> (#[trigger] cands@[j]).1@ == single_interval(
                                            pattern.stages@[try_idx as int].anchor.0@,
                                            *interval,
                                        ),
                                    pattern.stages@.len() <= usize::MAX,
                                    group matches Some(g) ==> g@.len() > 0 && forall|k: int|
                                        0 <= k < g@.len() ==> #[trigger] g@[k] < pattern.stages@.len() && g@[k] < 64,
                                    consumable(consume@, pms@),
                                    old(st).next_id <= st.next_id,
                                    fresh_pms(out@, old(st).next_id, st.next_id, enabled@, tick),
                                    fps_fresh(out@, old(st).seen@, st.seen@),
                                    seen_grows(old(st).seen@, st.seen@),
                                    caused_by(out@, patterns@, *interval),
                                    crate::engine::sift::past_end(out@, patterns@),
                                    completions_held(st.events@, prior + out@, patterns@),
                                    appends_no_negation(old(st).events@, st.events@),
                                    stats_grown(old(st).stats, st.stats),
                                    events_track(old(st).events@, st.events@, out@, patterns@),
                                    fps.len() == done.len(),
                                    s0 == old(st).seen@,
                                    id0 == old(st).next_id,
                                    c0 == old(consume)@,
                                    lawful::<DS>() && (crate::engine::sift::all_let_free(patterns@) || evaluator.obeys_evaluate_spec()) ==> adv_outcome(done, fps, s0, id0, c0, out@, st.seen@, st.next_id, consume@, pms@, patterns@, tick),
                                    lawful::<DS>() && (crate::engine::sift::all_let_free(patterns@) || evaluator.obeys_evaluate_spec()) ==> base_done == adv_cands(*ds, *evaluator, patterns@, enabled@, pms@, pi as int, *source, *label, *value, *interval) + adv_try_cands(
                                        *ds,
                                        *evaluator,
                                        *pattern,
                                        *pm,
                                        pi as int,
                                        t as int,
                                        *source, *label, *value, *interval,
                                    ),
                                    lawful::<DS>() && (crate::engine::sift::all_let_free(patterns@) || evaluator.obeys_evaluate_spec()) && cands@.len() == 0 ==> done == base_done + adv_stage_cands(
                                        *ds,
                                        *evaluator,
                                        *pattern,
                                        *pm,
                                        pi as int,
                                        try_idx,
                                        *source, *label, *value, *interval,
                                    ),
                                    lawful::<DS>() && (crate::engine::sift::all_let_free(patterns@) || evaluator.obeys_evaluate_spec()) && cands@.len() > 0 ==> done == base_done && cands@.len() == 1
                                        && crate::engine::stage::stage_result(
                                        *ds,
                                        *evaluator,
                                        pattern.stages@[try_idx as int],
                                        *source,
                                        *label,
                                        *value,
                                        *interval,
                                        pm.bindings@,
                                    ) == Some(cands@[0].0@),
                                    group matches Some(g) ==> first_group_with(pattern.unordered_groups@, stage_idx) matches Some(gi)
                                        && *g == pattern.unordered_groups@[gi],
                                    group is None ==> first_group_with(pattern.unordered_groups@, stage_idx) is None,
                                    t < try_stages@.len(),
                                    try_stages@[t as int] == try_idx,
                                    try_stages@ == try_list(*pattern, *pm),
                                decreases cands@.len(),
                            {
                                let (new_b, new_i) = cands.remove(0);
                                if !temporal_after(pattern, &pm.intervals, try_idx, interval) {
                                    proof {
                                        if lawful::<DS>() && (crate::engine::sift::all_let_free(patterns@) || evaluator.obeys_evaluate_spec()) {
                                            assert(base_done + Seq::<AdvCand<DS::N, DS::V>>::empty() =~= base_done);
                                        }
                                    }
                                    continue;
                                }
                                let dup = pm.bindings.duplicate();
                                let mut merged_b = dup;
                                merged_b.extend_from(&new_b);
                                let mut merged_i = copy_intervals(&pm.intervals);
                                extend_intervals(&mut merged_i, &new_i);
                                let ghost mb = merged_b@;
                                let ghost mi = merged_i@;
                                proof {
                                    assert(merged_rel(pm.bindings@, new_b@, mb));
                                }
                                let (next, new_mask) = match group {
                                    Some(g) => {
                                        let mask = pm.matched_stages | stage_bit(try_idx);
                                        if group_complete(g, mask) {
                                            (group_end(g, pattern.stages.len()), mask)
                                        } else {
                                            (g[0], mask)
                                        }
                                    },
                                    None => (stage_idx + 1, pm.matched_stages),
                                };
                                let is_past_end = next >= pattern.stages.len();
                                proof {
                                    if group is Some {
                                        let g = group->0;
                                        if group_complete_spec(g@, new_mask) {
                                            lemma_group_top(g@, next as int);
                                        }
                                    }
                                    assert((next, new_mask) == adv_next_mask(*pattern, *pm, try_idx));
                                }
                                let ghost out_b = out@;
                                let ghost seen_b = st.seen@;
                                let ghost id_b = st.next_id;
                                let ghost cons_b = consume@;
                                if is_past_end && pattern.repeat_range.is_some() {
                                    repeat_step(
                                        ds,
                                        pattern,
                                        pm,
                                        tick,
                                        try_idx,
                                        next,
                                        new_mask,
                                        merged_b,
                                        merged_i,
                                        enabled,
                                        st,
                                        consume,
                                        &mut out,
                                        Ghost(old(st).next_id),
                                        Ghost(pms@),
                                        Ghost(pi as int),
                                        Ghost(old(st).seen@),
                                        Ghost(patterns@),
                                        Ghost(*interval),
                                        Ghost(prior),
                                        Ghost(old(st).events@),
                                    );
                                    proof {
                                        if lawful::<DS>() && (crate::engine::sift::all_let_free(patterns@) || evaluator.obeys_evaluate_spec()) {
                                            if next_rep(pm.repetition_count) <= u32::MAX {
                                                let (f1, f2) = choose|f1: u64, f2: u64|
                                                    #[trigger] repeat_outcome(
                                                        *pattern,
                                                        *pm,
                                                        mb,
                                                        mi,
                                                        next,
                                                        new_mask,
                                                        tick,
                                                        seen_b,
                                                        id_b,
                                                        out_b,
                                                        cons_b,
                                                        f1,
                                                        f2,
                                                        st.seen@,
                                                        st.next_id,
                                                        out@,
                                                        consume@,
                                                    );
                                                let rr = lemma_adv_repeat(
                                                    done, fps, s0, id0, c0, out_b, seen_b, id_b, cons_b, pms@, patterns@, tick,
                                                    pi as int, try_idx, new_b@, new_i@, mb, mi, next, new_mask, f1, f2,
                                                    out@, st.seen@, st.next_id, consume@,
                                                );
                                                done = done + rr.0;
                                                fps = fps + rr.1;
                                            } else {
                                                assert(base_done + Seq::<AdvCand<DS::N, DS::V>>::empty() =~= base_done);
                                            }
                                        }
                                    }
                                    continue;
                                }
                                st.stats.total_fingerprints = bump(st.stats.total_fingerprints);
                                let fp = compute_fingerprint_full(
                                    pm.pattern_idx,
                                    next,
                                    &merged_b,
                                    &merged_i,
                                    pm.repetition_count,
                                    new_mask,
                                );
                                let ghost cand: AdvCand<DS::N, DS::V> = (
                                    pi as int,
                                    0int,
                                    try_idx,
                                    new_b@,
                                    new_i@,
                                    next,
                                    new_mask,
                                    pm.repetition_count as int,
                                    is_past_end && !temporal_holds(*pattern, mi),
                                    pattern.advance_in_place && next > pm.next_stage,
                                );
                                let ghost done_b = done;
                                let ghost fps_b = fps;
                                proof {
                                    if lawful::<DS>() && (crate::engine::sift::all_let_free(patterns@) || evaluator.obeys_evaluate_spec()) {
                                        assert(adv_stage_cands(*ds, *evaluator, *pattern, *pm, pi as int, try_idx, *source, *label, *value, *interval) == seq![cand]);
                                        assert(base_done + seq![cand] =~= base_done.push(cand));
                                    }
                                    done = done.push(cand);
                                    fps = fps.push(fp);
                                }
                                let ghost seen_before = st.seen@;
                                if !st.seen.insert(fp) {
                                    proof {
                                        if lawful::<DS>() && (crate::engine::sift::all_let_free(patterns@) || evaluator.obeys_evaluate_spec()) {
                                            lemma_adv_extend(done_b, fps_b, s0, id0, c0, out@, seen_before, id_b, consume@, pms@, patterns@, tick, cand, fp, vstd::pervasive::arbitrary());
                                        }
                                    }
                                    continue;
                                }
                                proof {
                                    lemma_seen_push(out@, old(st).seen@, seen_before, fp);
                                }
                                if st.next_id == usize::MAX {
                                    proof {
                                        if lawful::<DS>() && (crate::engine::sift::all_let_free(patterns@) || evaluator.obeys_evaluate_spec()) {
                                            lemma_adv_extend(done_b, fps_b, s0, id0, c0, out@, seen_before, id_b, consume@, pms@, patterns@, tick, cand, fp, vstd::pervasive::arbitrary());
                                        }
                                    }
                                    continue;
                                }
                                if is_past_end && !check_temporal(pattern, &merged_i) {
                                    st.next_id = st.next_id + 1;
                                    proof {
                                        if lawful::<DS>() && (crate::engine::sift::all_let_free(patterns@) || evaluator.obeys_evaluate_spec()) {
                                            lemma_adv_extend(done_b, fps_b, s0, id0, c0, out@, seen_before, id_b, consume@, pms@, patterns@, tick, cand, fp, vstd::pervasive::arbitrary());
                                        }
                                    }
                                    continue;
                                }
                                let ghost before = st.next_id;
                                let ghost ev0 = st.events@;
                                match new_pm(
                                    st,
                                    pattern,
                                    pm.pattern_idx,
                                    merged_b,
                                    merged_i,
                                    pm.created_at,
                                    next,
                                    is_past_end,
                                    fp,
                                    pm.created_at_tick,
                                    tick,
                                    pm.repetition_count,
                                    new_mask,
                                    try_idx,
                                ) {
                                    Some(new) => {
                                        proof {
                                            lemma_fresh_push(out@, new, old(st).next_id, before, enabled@, tick);
                                            lemma_fps_push(out@, new, old(st).seen@, seen_before);
                                            lemma_caused_push(out@, new, patterns@, *interval, try_idx as int);
                                            crate::engine::sift::lemma_past_end_push(out@, new, patterns@);
                                            lemma_new_pm_completions(ev0, st.events@, prior, out@, patterns@, new);
                                            lemma_appends_step(old(st).events@, ev0, st.events@);
                                            lemma_track_push(old(st).events@, ev0, st.events@, out@, patterns@, new);
                                        }
                                        if pattern.advance_in_place && next > pm.next_stage {
                                            consume.push(pm.id);
                                            proof {
                                                lemma_consume_push(consume@.drop_last(), pms@, pi as int);
                                                assert(consume@.drop_last().push(pm.id) =~= consume@);
                                            }
                                        }
                                        proof {
                                            if lawful::<DS>() && (crate::engine::sift::all_let_free(patterns@) || evaluator.obeys_evaluate_spec()) {
                                                assert(adv_made(new, (cand, id_b, fp), pms@, patterns@, tick));
                                                lemma_adv_extend(done_b, fps_b, s0, id0, c0, out@, seen_before, id_b, cons_b, pms@, patterns@, tick, cand, fp, new);
                                            }
                                        }
                                        out.push(new);
                                    },
                                    None => {},
                                }
                            }
                        },
                        None => {
                            proof {
                                if lawful::<DS>() && (crate::engine::sift::all_let_free(patterns@) || evaluator.obeys_evaluate_spec()) {
                                    assert(base_done + Seq::<AdvCand<DS::N, DS::V>>::empty() =~= base_done);
                                }
                            }
                        },
                    }
                    proof {
                        if lawful::<DS>() && (crate::engine::sift::all_let_free(patterns@) || evaluator.obeys_evaluate_spec()) {
                            let a = adv_cands(*ds, *evaluator, patterns@, enabled@, pms@, pi as int, *source, *label, *value, *interval);
                            let b = adv_try_cands(*ds, *evaluator, *pattern, *pm, pi as int, t as int, *source, *label, *value, *interval);
                            let c = adv_stage_cands(*ds, *evaluator, *pattern, *pm, pi as int, try_idx, *source, *label, *value, *interval);
                            assert(a + b + c =~= a + (b + c));
                        }
                    }
                    t = t + 1;
                }
            }
        }
        proof {
            if lawful::<DS>() && (crate::engine::sift::all_let_free(patterns@) || evaluator.obeys_evaluate_spec()) {
                let a = adv_cands(*ds, *evaluator, patterns@, enabled@, pms@, pi as int, *source, *label, *value, *interval);
                assert(a + Seq::<AdvCand<DS::N, DS::V>>::empty() =~= a);
            }
        }
        pi = pi + 1;
    }
    out
}

proof fn lemma_consume_push<N, V>(consume: Seq<usize>, pms: Seq<PartialMatch<N, V, i64>>, i: int)
    requires
        consumable(consume, pms),
        0 <= i < pms.len(),
        pms[i].state == MatchState::Active,
    ensures
        consumable(consume.push(pms[i].id), pms),
{
    let c2 = consume.push(pms[i].id);
    assert forall|k: int| 0 <= k < c2.len() implies exists|j: int|
        0 <= j < pms.len() && (#[trigger] pms[j]).state == MatchState::Active && pms[j].id == #[trigger] c2[k] by {
        if k < consume.len() {
            assert(c2[k] == consume[k]);
        } else {
            assert(pms[i].id == c2[k]);
        }
    }
}

/// The repetition count after one more pass: a first loop-back counts the
/// first pass too.
pub open spec fn next_rep(count: u32) -> int {
    count + if count == 0 {
        2int
    } else {
        1int
    }
}

/// One candidate partial match offered for deduplication with fingerprint
/// `f`: whether it is made, and the seen fingerprints and next id after it.
/// It is dropped when its fingerprint was seen, and loses its id when none
/// is left.
pub open spec fn dedupe_step(offered: bool, seen: Seq<u64>, id: usize, f: u64) -> (bool, Seq<u64>, usize) {
    if offered && !seen.contains(f) {
        if id < usize::MAX {
            (true, seen.push(f), (id + 1) as usize)
        } else {
            (false, seen.push(f), id)
        }
    } else {
        (false, seen, id)
    }
}

/// `x` is the partial match that a repetition step makes from `pm`: with id
/// `id`, fingerprint `f`, the given next stage, state, repetition count and
/// group mask, the merged intervals, and the bindings `keep` selects from
/// the merged ones (each value a clone).
pub open spec fn repeat_made<N: Clone, V: Clone>(
    x: PartialMatch<N, V, i64>,
    pm: PartialMatch<N, V, i64>,
    id: usize,
    f: u64,
    next_stage: usize,
    state: MatchState,
    rep: int,
    mask: u64,
    tick: u64,
    merged_b: Map<Seq<char>, BoundValue<N, V>>,
    merged_i: Map<Seq<char>, Interval<i64>>,
    keep: spec_fn(Seq<char>) -> bool,
) -> bool {
    &&& x.id == id
    &&& x.pattern_idx == pm.pattern_idx
    &&& x.state == state
    &&& x.next_stage == next_stage
    &&& x.fingerprint == f
    &&& x.created_at == pm.created_at
    &&& x.created_at_tick == pm.created_at_tick
    &&& x.last_advanced_tick == tick
    &&& x.repetition_count == rep
    &&& x.matched_stages == mask
    &&& x.intervals@ == merged_i
    &&& forall|n: Seq<char>| #[trigger] x.bindings@.contains_key(n) <==> merged_b.contains_key(n) && keep(n)
    &&& forall|n: Seq<char>| #[trigger] x.bindings@.contains_key(n) ==> cloned(merged_b[n], x.bindings@[n])
}

/// The outcome of a repetition step of `pm` whose two candidates got the
/// fingerprints `f1` (the completion) and `f2` (the loop back): each is
/// offered when its condition holds, and made unless deduplication drops it
/// or no id is left; the made ones follow the earlier output, and a made
/// completion consumes `pm` when the pattern advances in place.
pub open spec fn repeat_outcome<N: Clone, L, V: Clone>(
    pattern: Pattern<L, V>,
    pm: PartialMatch<N, V, i64>,
    merged_b: Map<Seq<char>, BoundValue<N, V>>,
    merged_i: Map<Seq<char>, Interval<i64>>,
    next: usize,
    new_mask: u64,
    tick: u64,
    seen0: Seq<u64>,
    id0: usize,
    out0: Seq<PartialMatch<N, V, i64>>,
    consume0: Seq<usize>,
    f1: u64,
    f2: u64,
    seen: Seq<u64>,
    id: usize,
    out: Seq<PartialMatch<N, V, i64>>,
    consume: Seq<usize>,
) -> bool {
        let rr = pattern.repeat_range->0;
        let rep = next_rep(pm.repetition_count);
        let done_offered = rep as u32 >= rr.min_reps as u32 && temporal_holds(pattern, merged_i);
        let loop_offered = !(rr.max_reps matches Some(m) && rep as u32 >= m as u32);
        let d1 = dedupe_step(done_offered, seen0, id0, f1);
        let d2 = dedupe_step(loop_offered, d1.1, d1.2, f2);
        let base = out0.len();
        let k1: int = if d1.0 { 1 } else { 0 };
        let k2: int = if d2.0 { 1 } else { 0 };
        &&& seen == d2.1
        &&& id == d2.2
        &&& out.len() == base + k1 + k2
        &&& out.subrange(0, base as int) == out0
        &&& d1.0 ==> repeat_made(
            out[base as int],
            pm,
            id0,
            f1,
            next,
            MatchState::Complete,
            rep,
            new_mask,
            tick,
            merged_b,
            merged_i,
            |n: Seq<char>| true,
        )
        &&& d2.0 ==> repeat_made(
            out[base + k1],
            pm,
            d1.2,
            f2,
            rr.stage_start,
            MatchState::Active,
            rep,
            0,
            tick,
            merged_b,
            merged_i,
            |n: Seq<char>| !dropped_before(pattern, rr, rr.stage_end as int, n),
        )
        &&& consume == if d1.0 && pattern.advance_in_place {
            consume0.push(pm.id)
        } else {
            consume0
        }
}

/// A partial match of a repeating pattern ran past its last stage: report
/// a completion once the minimum number of repetitions is reached, and loop
/// back to the start of the repeat range unless the maximum is reached.
fn repeat_step<DS: DataSource>(
    ds: &DS,
    pattern: &Pattern<DS::L, DS::V>,
    pm: &PartialMatch<DS::N, DS::V, i64>,
    tick: u64,
    try_idx: usize,
    next: usize,
    new_mask: u64,
    merged_b: StrMap<BoundValue<DS::N, DS::V>>,
    merged_i: StrMap<Interval<i64>>,
    enabled: &Vec<bool>,
    st: &mut StepState<DS::N, DS::V>,
    consume: &mut Vec<usize>,
    out: &mut Vec<PartialMatch<DS::N, DS::V, i64>>,
    Ghost(lo): Ghost<usize>,
    Ghost(pms): Ghost<Seq<PartialMatch<DS::N, DS::V, i64>>>,
    Ghost(pi): Ghost<int>,
    Ghost(seen0): Ghost<Seq<u64>>,
    Ghost(pats): Ghost<Seq<Pattern<DS::L, DS::V>>>,
    Ghost(iv): Ghost<Interval<i64>>,
    Ghost(pre): Ghost<Seq<PartialMatch<DS::N, DS::V, i64>>>,
    Ghost(ev_base): Ghost<Seq<SiftEvent<DS::N, DS::V>>>,
)
    requires
        completions_held(old(st).events@, pre + old(out)@, pats),
        appends_no_negation(ev_base, old(st).events@),
        events_track(ev_base, old(st).events@, old(out)@, pats),
        engine_ready(*pattern),
        pm.pattern_idx < pats.len(),
        *pattern == pats[pm.pattern_idx as int],
        try_idx < pattern.stages@.len(),
        merged_i@.contains_key(pattern.stages@[try_idx as int].anchor.0@),
        merged_i@[pattern.stages@[try_idx as int].anchor.0@] == iv,
        caused_by(old(out)@, pats, iv),
        crate::engine::sift::past_end(old(out)@, pats),
        next >= pattern.stages@.len(),
        pattern.repeat_range is Some,
        pm.pattern_idx < enabled@.len(),
        enabled@[pm.pattern_idx as int],
        pm.created_at_tick <= tick,
        0 <= pi < pms.len(),
        pms[pi] == *pm,
        pm.state == MatchState::Active,
        consumable(old(consume)@, pms),
        lo <= old(st).next_id,
        fresh_pms(old(out)@, lo, old(st).next_id, enabled@, tick),
        fps_fresh(old(out)@, seen0, old(st).seen@),
        seen_grows(seen0, old(st).seen@),
    ensures
        old(st).next_id <= final(st).next_id,
        fresh_pms(final(out)@, lo, final(st).next_id, enabled@, tick),
        fps_fresh(final(out)@, seen0, final(st).seen@),
        seen_grows(seen0, final(st).seen@),
        consumable(final(consume)@, pms),
        caused_by(final(out)@, pats, iv),
        crate::engine::sift::past_end(final(out)@, pats),
        completions_held(final(st).events@, pre + final(out)@, pats),
        next_rep(pm.repetition_count) > u32::MAX ==> final(st).seen@ == old(st).seen@ && final(st).next_id
            == old(st).next_id && final(out)@ == old(out)@ && final(consume)@ == old(consume)@,
        next_rep(pm.repetition_count) <= u32::MAX ==> exists|f1: u64, f2: u64|
            #[trigger] repeat_outcome(
                *pattern,
                *pm,
                merged_b@,
                merged_i@,
                next,
                new_mask,
                tick,
                old(st).seen@,
                old(st).next_id,
                old(out)@,
                old(consume)@,
                f1,
                f2,
                final(st).seen@,
                final(st).next_id,
                final(out)@,
                final(consume)@,
            ),
        appends_no_negation(ev_base, final(st).events@),
        stats_grown(old(st).stats, final(st).stats),
        events_track(ev_base, final(st).events@, final(out)@, pats),
{
    let rr = match &pattern.repeat_range {
        Some(rr) => rr,
        None => return,
    };
    let increment: u32 = if pm.repetition_count == 0 {
        2
    } else {
        1
    };
    if pm.repetition_count > u32::MAX - increment {
        return;
    }
    let new_rep = pm.repetition_count + increment;
    let min_met = new_rep >= rr.min_reps as u32;
    let max_reached = match rr.max_reps {
        Some(m) => new_rep >= m as u32,
        None => false,
    };
    let ghost mb = merged_b@;
    let ghost mi = merged_i@;
    let ghost s0 = st.seen@;
    let ghost id0 = st.next_id;
    let ghost o0 = out@;
    let ghost c0 = consume@;
    let ghost done_offered = min_met && temporal_holds(*pattern, mi);
    let ghost mut w1: u64 = 0;
    let ghost mut w2: u64 = 0;
    proof {
        assert(new_rep == next_rep(pm.repetition_count));
    }
    if min_met && check_temporal(pattern, &merged_i) {
        st.stats.total_fingerprints = bump(st.stats.total_fingerprints);
        let cfp = compute_fingerprint_full(pm.pattern_idx, next, &merged_b, &merged_i, new_rep, new_mask);
        proof {
            w1 = cfp;
        }
        let ghost seen_before = st.seen@;
        if st.seen.insert(cfp) {
            proof {
                lemma_seen_push(out@, seen0, seen_before, cfp);
            }
            let ghost before = st.next_id;
            let ghost ev0 = st.events@;
            match new_pm(
                st,
                pattern,
                pm.pattern_idx,
                merged_b.duplicate(),
                copy_intervals(&merged_i),
                pm.created_at,
                next,
                true,
                cfp,
                pm.created_at_tick,
                tick,
                new_rep,
                new_mask,
                try_idx,
            ) {
                Some(done) => {
                    proof {
                        lemma_fresh_push(out@, done, lo, before, enabled@, tick);
                        lemma_fps_push(out@, done, seen0, seen_before);
                        lemma_caused_push(out@, done, pats, iv, try_idx as int);
                        crate::engine::sift::lemma_past_end_push(out@, done, pats);
                        lemma_new_pm_completions(ev0, st.events@, pre, out@, pats, done);
                        lemma_appends_step(ev_base, ev0, st.events@);
                        lemma_track_push(ev_base, ev0, st.events@, out@, pats, done);
                    }
                    if pattern.advance_in_place {
                        consume.push(pm.id);
                        proof {
                            lemma_consume_push(consume@.drop_last(), pms, pi);
                            assert(consume@.drop_last().push(pm.id) =~= consume@);
                        }
                    }
                    out.push(done);
                    proof {
                        assert(out@[o0.len() as int] == done);
                        assert(out@.subrange(0, o0.len() as int) =~= o0);
                        assert(repeat_made(done, *pm, id0, w1, next, MatchState::Complete, next_rep(pm.repetition_count), new_mask, tick, mb, mi, |n: Seq<char>| true));
                    }
                },
                None => {},
            }
        }
    }
    let ghost d1 = dedupe_step(done_offered, s0, id0, w1);
    proof {
        assert(st.seen@ == d1.1);
        assert(st.next_id == d1.2);
        assert(out@.len() == o0.len() + if d1.0 { 1int } else { 0int });
        assert(out@.subrange(0, o0.len() as int) =~= o0);
        assert(d1.0 ==> repeat_made(out@[o0.len() as int], *pm, id0, w1, next, MatchState::Complete, next_rep(pm.repetition_count), new_mask, tick, mb, mi, |n: Seq<char>| true));
        assert(consume@ == if d1.0 && pattern.advance_in_place { c0.push(pm.id) } else { c0 });
    }
    let ghost o1 = out@;
    if !max_reached {
        let lb = loop_bindings(pattern, &merged_b);
        st.stats.total_fingerprints = bump(st.stats.total_fingerprints);
        let lfp = compute_fingerprint_with_rep(pm.pattern_idx, rr.stage_start, &lb, &merged_i, new_rep);
        proof {
            w2 = lfp;
        }
        let ghost seen_before = st.seen@;
        if st.seen.insert(lfp) {
            proof {
                lemma_seen_push(out@, seen0, seen_before, lfp);
            }
            let ghost before = st.next_id;
            let ghost ev0 = st.events@;
            match new_pm(
                st,
                pattern,
                pm.pattern_idx,
                lb,
                merged_i,
                pm.created_at,
                rr.stage_start,
                false,
                lfp,
                pm.created_at_tick,
                tick,
                new_rep,
                0,
                try_idx,
            ) {
                Some(looped) => {
                    proof {
                        lemma_fresh_push(out@, looped, lo, before, enabled@, tick);
                        lemma_fps_push(out@, looped, seen0, seen_before);
                        lemma_caused_push(out@, looped, pats, iv, try_idx as int);
                        crate::engine::sift::lemma_past_end_push(out@, looped, pats);
                        lemma_new_pm_completions(ev0, st.events@, pre, out@, pats, looped);
                        lemma_appends_step(ev_base, ev0, st.events@);
                        lemma_track_push(ev_base, ev0, st.events@, out@, pats, looped);
                    }
                    out.push(looped);
                    proof {
                        assert(out@[o1.len() as int] == looped);
                        assert(repeat_made(
                            looped,
                            *pm,
                            d1.2,
                            w2,
                            rr.stage_start,
                            MatchState::Active,
                            next_rep(pm.repetition_count),
                            0,
                            tick,
                            mb,
                            mi,
                            |n: Seq<char>| !dropped_before(*pattern, *rr, rr.stage_end as int, n),
                        ));
                    }
                },
                None => {},
            }
        }
    }
    proof {
        let d2 = dedupe_step(!max_reached, d1.1, d1.2, w2);
        assert(out@.subrange(0, o0.len() as int) =~= o0) by {
            assert(o1.subrange(0, o0.len() as int) =~= o0);
        }
        assert(repeat_outcome(
            *pattern,
            *pm,
            mb,
            mi,
            next,
            new_mask,
            tick,
            s0,
            id0,
            o0,
            c0,
            w1,
            w2,
            st.seen@,
            st.next_id,
            out@,
            consume@,
        ));
    }
}

/// `b` is `a` with some active partial matches marked dead.
pub open spec fn marks_active<N, V>(a: Seq<PartialMatch<N, V, i64>>, b: Seq<PartialMatch<N, V, i64>>) -> bool {
    &&& a.len() == b.len()
    &&& forall|i: int|
        0 <= i < a.len() ==> #[trigger] b[i] == a[i] || (a[i].state == MatchState::Active && b[i] == with_state(
            a[i],
            MatchState::Dead,
        ))
}

pub(crate) proof fn lemma_marks_trans<N, V>(a: Seq<PartialMatch<N, V, i64>>, b: Seq<PartialMatch<N, V, i64>>, c: Seq<PartialMatch<N, V, i64>>)
    requires
        marks_active(a, b),
        marks_active(b, c),
    ensures
        forall|i: int|
            0 <= i < a.len() ==> #[trigger] c[i] == a[i] || c[i] == with_state(a[i], MatchState::Dead),
        forall|i: int| 0 <= i < a.len() && a[i].state != MatchState::Active ==> #[trigger] c[i] == a[i],
{
    assert forall|i: int| 0 <= i < a.len() implies #[trigger] c[i] == a[i] || c[i] == with_state(a[i], MatchState::Dead) by {
        assert(b[i] == a[i] || b[i] == with_state(a[i], MatchState::Dead));
        assert(c[i] == b[i] || c[i] == with_state(b[i], MatchState::Dead));
    }
    assert forall|i: int| 0 <= i < a.len() && a[i].state != MatchState::Active implies #[trigger] c[i] == a[i] by {
        assert(b[i] == a[i]);
    }
}

/// Mark dead the active partial matches whose ids are in `consume`.
pub(crate) fn apply_consume<N, V>(pms: &mut Vec<PartialMatch<N, V, i64>>, consume: &Vec<usize>)
    ensures
        marks_active(old(pms)@, final(pms)@),
        forall|j: int|
            0 <= j < old(pms)@.len() ==> #[trigger] final(pms)@[j] == if old(pms)@[j].state == MatchState::Active
                && consume@.contains(old(pms)@[j].id) {
                with_state(old(pms)@[j], MatchState::Dead)
            } else {
                old(pms)@[j]
            },
{
    let ghost orig = pms@;
    let mut i: usize = 0;
    while i < pms.len()
        invariant
            i <= pms@.len(),
            pms@.len() == orig.len(),
            orig == old(pms)@,
            forall|j: int| i <= j < orig.len() ==> #[trigger] pms@[j] == orig[j],
            forall|j: int|
                0 <= j < i ==> #[trigger] pms@[j] == if orig[j].state == MatchState::Active && consume@.contains(orig[j].id) {
                    with_state(orig[j], MatchState::Dead)
                } else {
                    orig[j]
                },
        decreases pms@.len() - i,
    {
        if pms[i].state == MatchState::Active && contains_index(consume, pms[i].id) {
            set_pm_state(pms, i, MatchState::Dead);
        }
        i = i + 1;
    }
}

/// The first pattern with this name.
pub(crate) fn pattern_by_name<L, V>(patterns: &Vec<Pattern<L, V>>, name: &String) -> (r: Option<usize>)
    ensures
        r matches Some(i) ==> i < patterns@.len(),
        match r {
            Some(i) => position_of(pattern_names(patterns@), name@) == Some(i as int),
            None => position_of(pattern_names(patterns@), name@) is None,
        },
{
    let ghost names = pattern_names(patterns@);
    let mut p: usize = 0;
    while p < patterns.len()
        invariant
            p <= patterns@.len(),
            names == pattern_names(patterns@),
            forall|j: int| 0 <= j < p ==> names[j] != name@,
        decreases patterns@.len() - p,
    {
        if patterns[p].name == *name {
            proof {
                reveal(position_of);
                assert(names[p as int] == name@);
                let c = choose|c: int| 0 <= c < names.len() && names[c] == name@ && forall|j: int| 0 <= j < c ==> names[j] != name@;
                if c < p {
                    assert(names[c] != name@);
                } else if c > p {
                    assert(names[p as int] != name@);
                }
            }
            return Some(p);
        }
        p = p + 1;
    }
    proof {
        reveal(position_of);
    }
    None
}

/// One more, stopping at the type's maximum.
pub open spec fn sat_inc(a: u64) -> u64 {
    if a < u64::MAX {
        (a + 1) as u64
    } else {
        a
    }
}

/// Add one to the `idx`-th counter, stopping at the type's maximum.
pub(crate) fn bump_at(v: &mut Vec<u64>, idx: usize)
    requires
        idx < old(v)@.len(),
    ensures
        final(v)@ == old(v)@.update(idx as int, sat_inc(old(v)@[idx as int])),
{
    let x = bump(v[idx]);
    v.set(idx, x);
}

/// `e` is a `Completed` event of a pattern `c` (the first with the event's
/// name) in the exclusive group `cg`.
pub open spec fn completes_group<N, L, V>(e: SiftEvent<N, V>, patterns: Seq<Pattern<L, V>>, c: int, cg: Seq<char>) -> bool {
    &&& e matches SiftEvent::Completed { pattern, .. }
    &&& position_of(pattern_names(patterns), e->Completed_pattern@) == Some(c)
    &&& 0 <= c < patterns.len()
    &&& patterns[c].group is Some
    &&& patterns[c].group->0@ == cg
}

/// Some `Completed` event of `events` is of a pattern in the exclusive
/// group `g`, other than pattern `pidx` itself when `pidx` repeats.
pub open spec fn group_completed<N, L, V>(events: Seq<SiftEvent<N, V>>, patterns: Seq<Pattern<L, V>>, pidx: int, g: Seq<char>) -> bool {
    exists|k: int, c: int|
        0 <= k < events.len() && #[trigger] completes_group(events[k], patterns, c, g) && !(pidx == c
            && patterns[pidx].repeat_range is Some)
}

/// The partial match is active and another pattern of its exclusive group
/// completed among `events`.
pub open spec fn excluded<N, L, V>(pm: PartialMatch<N, V, i64>, patterns: Seq<Pattern<L, V>>, events: Seq<SiftEvent<N, V>>) -> bool {
    &&& pm.state == MatchState::Active
    &&& patterns[pm.pattern_idx as int].group is Some
    &&& group_completed(events, patterns, pm.pattern_idx as int, patterns[pm.pattern_idx as int].group->0@)
}

/// Exclusive choice groups: when a pattern in a group completes, kill the
/// other active partial matches of the group (a repeating pattern keeps its
/// own looping partial matches).
pub(crate) fn exclude_choice_groups<N, L, V>(
    pms: &mut Vec<PartialMatch<N, V, i64>>,
    patterns: &Vec<Pattern<L, V>>,
    events: &Vec<SiftEvent<N, V>>,
)
    requires
        forall|i: int| 0 <= i < old(pms)@.len() ==> (#[trigger] old(pms)@[i]).pattern_idx < patterns@.len(),
    ensures
        marks_active(old(pms)@, final(pms)@),
        forall|j: int|
            0 <= j < old(pms)@.len() ==> #[trigger] final(pms)@[j] == if excluded(old(pms)@[j], patterns@, events@) {
                with_state(old(pms)@[j], MatchState::Dead)
            } else {
                old(pms)@[j]
            },
{
    let mut completed: Vec<(usize, String)> = Vec::new();
    let ghost mut src: Seq<int> = Seq::empty();
    let mut e: usize = 0;
    while e < events.len()
        invariant
            e <= events@.len(),
            src.len() == completed@.len(),
            forall|m: int|
                0 <= m < completed@.len() ==> 0 <= #[trigger] src[m] < e && completes_group(
                    events@[src[m]],
                    patterns@,
                    completed@[m].0 as int,
                    completed@[m].1@,
                ),
            forall|k: int, c: int, cg: Seq<char>|
                0 <= k < e && #[trigger] completes_group(events@[k], patterns@, c, cg) ==> exists|m: int|
                    0 <= m < completed@.len() && completed@[m].0 == c && #[trigger] completed@[m].1@ == cg,
        decreases events@.len() - e,
    {
        let ghost before = completed@;
        let ghost src0 = src;
        match &events[e] {
            SiftEvent::Completed { pattern, .. } => match pattern_by_name(patterns, pattern) {
                Some(idx) => match &patterns[idx].group {
                    Some(g) => {
                        completed.push((idx, g.clone()));
                        proof {
                            src = src.push(e as int);
                            assert(completes_group(events@[e as int], patterns@, idx as int, g@));
                            assert(completed@[before.len() as int].0 == idx);
                            assert(completed@[before.len() as int].1@ == g@);
                        }
                    },
                    None => {},
                },
                None => {},
            },
            _ => {},
        }
        proof {
            assert forall|m: int| 0 <= m < completed@.len() implies 0 <= #[trigger] src[m] < e + 1 && completes_group(
                events@[src[m]],
                patterns@,
                completed@[m].0 as int,
                completed@[m].1@,
            ) by {
                if m < before.len() {
                    assert(completed@[m] == before[m]);
                    assert(src[m] == src0[m]);
                }
            }
            assert forall|k: int, c: int, cg: Seq<char>|
                0 <= k < e + 1 && #[trigger] completes_group(events@[k], patterns@, c, cg) implies exists|m: int|
                0 <= m < completed@.len() && completed@[m].0 == c && #[trigger] completed@[m].1@ == cg by {
                if k < e {
                    let m = choose|m: int| 0 <= m < before.len() && before[m].0 == c && #[trigger] before[m].1@ == cg;
                    assert(completed@[m] == before[m]);
                } else {
                    assert(completed@[before.len() as int].0 == c);
                    assert(completed@[before.len() as int].1@ == cg);
                }
            }
        }
        e = e + 1;
    }
    if completed.len() == 0 {
        proof {
            assert forall|j: int| 0 <= j < pms@.len() implies !excluded(pms@[j], patterns@, events@) by {
                if excluded(pms@[j], patterns@, events@) {
                    let g = patterns@[pms@[j].pattern_idx as int].group->0@;
                    let (k, c) = choose|k: int, c: int|
                        0 <= k < events@.len() && #[trigger] completes_group(events@[k], patterns@, c, g) && !(
                        pms@[j].pattern_idx as int == c && patterns@[pms@[j].pattern_idx as int].repeat_range is Some);
                    assert(completes_group(events@[k], patterns@, c, g));
                }
            }
        }
        return;
    }
    let ghost orig = pms@;
    let mut i: usize = 0;
    while i < pms.len()
        invariant
            i <= pms@.len(),
            pms@.len() == orig.len(),
            orig == old(pms)@,
            forall|j: int| 0 <= j < orig.len() ==> (#[trigger] orig[j]).pattern_idx < patterns@.len(),
            forall|j: int| i <= j < orig.len() ==> #[trigger] pms@[j] == orig[j],
            forall|j: int|
                0 <= j < i ==> #[trigger] pms@[j] == if excluded(orig[j], patterns@, events@) {
                    with_state(orig[j], MatchState::Dead)
                } else {
                    orig[j]
                },
            src.len() == completed@.len(),
            forall|m: int|
                0 <= m < completed@.len() ==> 0 <= #[trigger] src[m] < events@.len() && completes_group(
                    events@[src[m]],
                    patterns@,
                    completed@[m].0 as int,
                    completed@[m].1@,
                ),
            forall|k: int, c: int, cg: Seq<char>|
                0 <= k < events@.len() && #[trigger] completes_group(events@[k], patterns@, c, cg) ==> exists|m: int|
                    0 <= m < completed@.len() && completed@[m].0 == c && #[trigger] completed@[m].1@ == cg,
        decreases pms@.len() - i,
    {
        if pms[i].state == MatchState::Active {
            let pidx = pms[i].pattern_idx;
            match &patterns[pidx].group {
                Some(g) => {
                    let mut dominated = false;
                    let mut k: usize = 0;
                    while k < completed.len()
                        invariant
                            k <= completed@.len(),
                            pidx < patterns@.len(),
                            dominated == exists|m: int|
                                0 <= m < k && g@ == (#[trigger] completed@[m]).1@ && !(pidx == completed@[m].0
                                    && patterns@[pidx as int].repeat_range is Some),
                        decreases completed@.len() - k,
                    {
                        let (cidx, cg) = &completed[k];
                        if *g == *cg && !(pidx == *cidx && patterns[pidx].repeat_range.is_some()) {
                            dominated = true;
                        }
                        k = k + 1;
                    }
                    proof {
                        if dominated {
                            let m = choose|m: int|
                                0 <= m < completed@.len() && g@ == (#[trigger] completed@[m]).1@ && !(pidx == completed@[m].0
                                    && patterns@[pidx as int].repeat_range is Some);
                            let kk = src[m];
                            assert(completes_group(events@[kk], patterns@, completed@[m].0 as int, g@));
                            assert(group_completed(events@, patterns@, pidx as int, g@));
                        } else {
                            if group_completed(events@, patterns@, pidx as int, g@) {
                                let (kk, c) = choose|kk: int, c: int|
                                    0 <= kk < events@.len() && #[trigger] completes_group(events@[kk], patterns@, c, g@) && !(pidx == c
                                        && patterns@[pidx as int].repeat_range is Some);
                                assert(completes_group(events@[kk], patterns@, c, g@));
                                let m = choose|m: int| 0 <= m < completed@.len() && completed@[m].0 == c && #[trigger] completed@[m].1@ == g@;
                                assert(g@ == completed@[m].1@);
                            }
                        }
                    }
                    if dominated {
                        set_pm_state(pms, i, MatchState::Dead);
                    }
                },
                None => {},
            }
        }
        i = i + 1;
    }
}

/// The event's pattern.
pub(crate) fn event_pattern_name<N, V>(e: &SiftEvent<N, V>) -> (r: &String)
    ensures
        r@ == crate::engine::sift::event_pattern(*e),
{
    match e {
        SiftEvent::Advanced { pattern, .. } => pattern,
        SiftEvent::Completed { pattern, .. } => pattern,
        SiftEvent::Negated { pattern, .. } => pattern,
        SiftEvent::Expired { pattern, .. } => pattern,
    }
}

/// The events whose pattern is not private, in order.
pub(crate) fn visible_events<N, L, V>(events: Vec<SiftEvent<N, V>>, patterns: &Vec<Pattern<L, V>>) -> (r: Vec<SiftEvent<N, V>>)
    ensures
        r@ == events@.filter(visible_pred::<N, L, V>(patterns@)),
        forall|i: int| 0 <= i < r@.len() ==> !hidden(patterns@, crate::engine::sift::event_pattern(#[trigger] r@[i])),
        r@.len() <= events@.len(),
        forall|i: int| 0 <= i < r@.len() ==> events@.contains(#[trigger] r@[i]),
{
    let ghost orig = events@;
    let ghost f = visible_pred::<N, L, V>(patterns@);
    let mut events = events;
    let mut out: Vec<SiftEvent<N, V>> = Vec::new();
    let ghost mut k: int = 0;
    while events.len() > 0
        invariant
            0 <= k <= orig.len(),
            f == visible_pred::<N, L, V>(patterns@),
            events@ == orig.skip(k),
            out@ == orig.take(k).filter(f),
        decreases events@.len(),
    {
        let e = events.remove(0);
        proof {
            assert(e == orig[k]);
            assert(orig.take(k + 1) =~= orig.take(k).push(orig[k]));
            orig.take(k).lemma_filter_push(orig[k], f);
            assert(events@ =~= orig.skip(k + 1));
        }
        if !name_hidden(patterns, event_pattern_name(&e)) {
            out.push(e);
        }
        proof {
            k = k + 1;
        }
    }
    proof {
        assert(orig.take(k) =~= orig);
        crate::engine::sift::lemma_filter_sub(orig, f);
        assert forall|i: int| 0 <= i < out@.len() implies !hidden(patterns@, crate::engine::sift::event_pattern(#[trigger] out@[i])) by {
            assert(f(orig.filter(f)[i]));
        }
        assert forall|i: int| 0 <= i < out@.len() implies orig.contains(#[trigger] out@[i]) by {
            assert(orig.contains(orig.filter(f)[i]));
        }
        orig.lemma_filter_len(f);
    }
    out
}

/// The event's pattern is not private.
pub open spec fn visible_pred<N, L, V>(patterns: Seq<Pattern<L, V>>) -> spec_fn(SiftEvent<N, V>) -> bool {
    |e: SiftEvent<N, V>| !hidden(patterns, crate::engine::sift::event_pattern(e))
}

/// Two consecutive runs of fresh partial matches form one.
pub proof fn lemma_fresh_concat<N, V>(
    a: Seq<PartialMatch<N, V, i64>>,
    b: Seq<PartialMatch<N, V, i64>>,
    lo: usize,
    mid: usize,
    hi: usize,
    enabled: Seq<bool>,
    tick: u64,
)
    requires
        fresh_pms(a, lo, mid, enabled, tick),
        fresh_pms(b, mid, hi, enabled, tick),
        lo <= mid <= hi,
    ensures
        fresh_pms(a + b, lo, hi, enabled, tick),
{
    let s = a + b;
    assert forall|i: int| 0 <= i < s.len() implies lo <= (#[trigger] s[i]).id < hi by {
        if i < a.len() {
            assert(s[i] == a[i]);
        } else {
            assert(s[i] == b[i - a.len()]);
        }
    }
    assert forall|i: int, j: int| 0 <= i < j < s.len() implies (#[trigger] s[i]).id < (#[trigger] s[j]).id by {
        if j < a.len() {
            assert(s[i] == a[i] && s[j] == a[j]);
        } else if i < a.len() {
            assert(s[i] == a[i] && s[j] == b[j - a.len()]);
        } else {
            assert(s[i] == b[i - a.len()] && s[j] == b[j - a.len()]);
        }
    }
    assert forall|i: int| 0 <= i < s.len() implies (#[trigger] s[i]).pattern_idx < enabled.len() && enabled[s[i].pattern_idx as int] by {
        if i < a.len() {
            assert(s[i] == a[i]);
        } else {
            assert(s[i] == b[i - a.len()]);
        }
    }
    assert forall|i: int| 0 <= i < s.len() implies (#[trigger] s[i]).state != MatchState::Dead by {
        if i < a.len() {
            assert(s[i] == a[i]);
        } else {
            assert(s[i] == b[i - a.len()]);
        }
    }
    assert forall|i: int| 0 <= i < s.len() implies (#[trigger] s[i]).last_advanced_tick == tick && s[i].created_at_tick <= tick by {
        if i < a.len() {
            assert(s[i] == a[i]);
        } else {
            assert(s[i] == b[i - a.len()]);
        }
    }
}

} // verus!
