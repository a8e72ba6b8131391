//! Standalone pattern evaluation and gap analysis, without an engine.
//!
//! A pattern is evaluated step by step: each step extends every candidate
//! by the matches of its stage (or, for an unordered group, of all its
//! stages); the complete candidates that satisfy the temporal constraints
//! and are not blocked by a negation become matches.

use crate::datasource::{clone_exact, lawful, DataSource};
use crate::engine::negation::{check_negations_batch, debug_text, negations_clear};
use crate::engine::stage::{
    candidate_view, candidate_views, copy_intervals, find_stage_matches, lemma_views_push, stage_matches_lets, MatchCandidate,
};
use crate::engine::steps::{build_stage_steps, check_temporal, groups_in_range, temporal_holds, StageStep};
use crate::interval::Interval;
use crate::let_evaluator::LetEvaluator;
use crate::matching::{clause_holds, node_of, target_matches_ds, BindingMap};
use crate::pattern::{Clause, Pattern, Stage};
use crate::strmap::StrMap;
use crate::types::{lemma_bound_value_clone_exact, BoundValue, ClauseAnalysis, GapAnalysis, Match, StageAnalysis, StageStatus};
use vstd::prelude::*;

verus! {

/// A copy of a string table: clones of strings are equal.
pub fn copy_strings(m: &StrMap<String>) -> (r: StrMap<String>)
    ensures
        r@ == m@,
{
    let r = m.duplicate();
    proof {
        assert forall|k: Seq<char>| #[trigger] r@.contains_key(k) implies r@[k] == m@[k] by {
            assert(cloned(m@[k], r@[k]));
        }
        assert(r@ =~= m@);
    }
    r
}

/// Add every interval of `src` to `dst` (`src` wins on shared keys).
pub fn extend_intervals(dst: &mut StrMap<Interval<i64>>, src: &StrMap<Interval<i64>>)
    ensures
        final(dst)@ == old(dst)@.union_prefer_right(src@),
{
    let n = src.len();
    let ghost d0 = dst@;
    let mut i: usize = 0;
    while i < n
        invariant
            n == src.entries().len(),
            i <= n,
            src@ == crate::strmap::map_of(src.entries()),
            crate::strmap::keys_distinct(src.entries()),
            forall|k: Seq<char>|
                #[trigger] dst@.contains_key(k) == (d0.contains_key(k) || exists|j: int|
                    0 <= j < i && (#[trigger] src.entries()[j]).0@ == k),
            forall|k: Seq<char>|
                #[trigger] dst@.contains_key(k) ==> dst@[k] == (if (exists|j: int|
                    0 <= j < i && (#[trigger] src.entries()[j]).0@ == k) {
                    src@[k]
                } else {
                    d0[k]
                }),
        decreases n - i,
    {
        let (k, v) = src.entry_at(i);
        dst.insert(k.clone(), *v);
        proof {
            assert forall|k2: Seq<char>|
                #[trigger] dst@.contains_key(k2) == (d0.contains_key(k2) || exists|j: int|
                    0 <= j < i + 1 && (#[trigger] src.entries()[j]).0@ == k2) by {
                if exists|j: int| 0 <= j < i + 1 && (#[trigger] src.entries()[j]).0@ == k2 {
                    let j = choose|j: int| 0 <= j < i + 1 && (#[trigger] src.entries()[j]).0@ == k2;
                    if j < i {
                    }
                }
            }
            assert forall|k2: Seq<char>| #[trigger] dst@.contains_key(k2) implies dst@[k2] == (if (exists|j: int|
                0 <= j < i + 1 && (#[trigger] src.entries()[j]).0@ == k2) {
                src@[k2]
            } else {
                d0[k2]
            }) by {
                if k2 != src.entries()[i as int].0@ {
                    if exists|j: int| 0 <= j < i + 1 && (#[trigger] src.entries()[j]).0@ == k2 {
                        let j = choose|j: int| 0 <= j < i + 1 && (#[trigger] src.entries()[j]).0@ == k2;
                        assert(j < i);
                    }
                }
            }
        }
        i = i + 1;
    }
    proof {
        assert forall|k: Seq<char>| #[trigger] src@.contains_key(k) implies exists|j: int|
            0 <= j < n && (#[trigger] src.entries()[j]).0@ == k by {
            let j = crate::strmap::pos_of(src.entries(), k);
            assert(src.entries()[j].0@ == k);
        }
        assert forall|k: Seq<char>| (exists|j: int| 0 <= j < n && (#[trigger] src.entries()[j]).0@ == k) implies #[trigger] src@.contains_key(k) by {
            let j = choose|j: int| 0 <= j < n && (#[trigger] src.entries()[j]).0@ == k;
            assert(crate::strmap::has_key(src.entries(), k));
        }
        assert(dst@ =~= d0.union_prefer_right(src@));
    }
}

/// A candidate extended by one stage match: bindings and intervals of the
/// stage match win over the candidate's on shared keys.
fn merge_candidate<N: Clone, V: Clone>(
    base: &MatchCandidate<N, V>,
    new_b: &StrMap<BoundValue<N, V>>,
    new_i: &StrMap<Interval<i64>>,
) -> (r: MatchCandidate<N, V>)
    ensures
        r.1@ == base.1@.union_prefer_right(new_i@),
        r.0@.dom() == base.0@.dom().union(new_b@.dom()),
        clone_exact::<N>() && clone_exact::<V>() ==> r.0@ == base.0@.union_prefer_right(new_b@),
{
    let mut b = base.0.duplicate();
    let ghost d = b@;
    b.extend_from(new_b);
    let mut iv = copy_intervals(&base.1);
    extend_intervals(&mut iv, new_i);
    proof {
        if clone_exact::<N>() && clone_exact::<V>() {
            crate::matching::lemma_duplicate_exact(base.0@, d);
            assert forall|k: Seq<char>| #[trigger] b@.contains_key(k) implies b@[k] == base.0@.union_prefer_right(new_b@)[k] by {
                if new_b@.contains_key(k) {
                    lemma_bound_value_clone_exact(new_b@[k], b@[k]);
                }
            }
            assert(b@ =~= base.0@.union_prefer_right(new_b@));
        }
    }
    (b, iv)
}

/// A candidate extended by a stage match.
pub open spec fn merged_view<N, V>(
    c: (BindingMap<N, V>, Map<Seq<char>, Interval<i64>>),
    m: (BindingMap<N, V>, Map<Seq<char>, Interval<i64>>),
) -> (BindingMap<N, V>, Map<Seq<char>, Interval<i64>>) {
    (c.0.union_prefer_right(m.0), c.1.union_prefer_right(m.1))
}

/// Every candidate extended by every match of a stage under its bindings
/// (`let` bindings evaluated by `e`), candidates in order and each candidate's matches in order.
pub open spec fn extend_spec<DS: DataSource, E: LetEvaluator<DS::N, DS::V>>(
    ds: DS,
    e: E,
    stage: Stage<DS::L, DS::V>,
    cands: Seq<(BindingMap<DS::N, DS::V>, Map<Seq<char>, Interval<i64>>)>,
    now: i64,
) -> Seq<(BindingMap<DS::N, DS::V>, Map<Seq<char>, Interval<i64>>)>
    decreases cands.len(),
{
    if cands.len() == 0 {
        Seq::empty()
    } else {
        let c = cands.last();
        extend_spec(ds, e, stage, cands.drop_last(), now) + stage_matches_lets(ds, stage, c.0, now, e).map_values(
            |m: (BindingMap<DS::N, DS::V>, Map<Seq<char>, Interval<i64>>)| merged_view(c, m),
        )
    }
}

/// Extend every candidate by every match of `stage` under its bindings.
fn extend_with_stage<DS: DataSource, E: LetEvaluator<DS::N, DS::V>>(
    ds: &DS,
    stage: &Stage<DS::L, DS::V>,
    candidates: &Vec<MatchCandidate<DS::N, DS::V>>,
    now: &i64,
    evaluator: &E,
) -> (r: Vec<MatchCandidate<DS::N, DS::V>>)
    ensures
        lawful::<DS>() && (stage.let_bindings@.len() == 0 || evaluator.obeys_evaluate_spec()) ==> candidate_views(r@) == extend_spec(
            *ds,
            *evaluator,
            *stage,
            candidate_views(candidates@),
            *now,
        ),
{
    let ghost cvs = candidate_views(candidates@);
    let mut next: Vec<MatchCandidate<DS::N, DS::V>> = Vec::new();
    let mut ci: usize = 0;
    while ci < candidates.len()
        invariant
            ci <= candidates@.len(),
            cvs == candidate_views(candidates@),
            lawful::<DS>() && (stage.let_bindings@.len() == 0 || evaluator.obeys_evaluate_spec()) ==> candidate_views(next@) == extend_spec(
                *ds,
                *evaluator,
                *stage,
                cvs.take(ci as int),
                *now,
            ),
        decreases candidates@.len() - ci,
    {
        let found = find_stage_matches(ds, stage, &candidates[ci].0, now, evaluator);
        let ghost c = cvs[ci as int];
        let ghost base = candidate_views(next@);
        let ghost ms = stage_matches_lets(*ds, *stage, c.0, *now, *evaluator);
        proof {
            assert(c == candidate_view(candidates@[ci as int]));
            assert(cvs.take(ci + 1).drop_last() =~= cvs.take(ci as int));
            assert(cvs.take(ci + 1).last() == c);
        }
        let mut k: usize = 0;
        while k < found.len()
            invariant
                ci < candidates@.len(),
                k <= found@.len(),
                cvs == candidate_views(candidates@),
                c == candidate_view(candidates@[ci as int]),
                ms == stage_matches_lets(*ds, *stage, c.0, *now, *evaluator),
                lawful::<DS>() && (stage.let_bindings@.len() == 0 || evaluator.obeys_evaluate_spec()) ==> candidate_views(found@) == ms,
                lawful::<DS>() && (stage.let_bindings@.len() == 0 || evaluator.obeys_evaluate_spec()) ==> candidate_views(next@) == base + ms.take(k as int).map_values(
                    |m: (BindingMap<DS::N, DS::V>, Map<Seq<char>, Interval<i64>>)| merged_view(c, m),
                ),
            decreases found@.len() - k,
        {
            let m = merge_candidate(&candidates[ci], &found[k].0, &found[k].1);
            proof {
                lemma_views_push(next@, m);
                if lawful::<DS>() && (stage.let_bindings@.len() == 0 || evaluator.obeys_evaluate_spec()) {
                    assert(candidate_views(found@)[k as int] == ms[k as int]);
                    assert(candidate_view(m) == merged_view(c, ms[k as int]));
                    assert(ms.take(k + 1).map_values(
                        |m: (BindingMap<DS::N, DS::V>, Map<Seq<char>, Interval<i64>>)| merged_view(c, m),
                    ) =~= ms.take(k as int).map_values(
                        |m: (BindingMap<DS::N, DS::V>, Map<Seq<char>, Interval<i64>>)| merged_view(c, m),
                    ).push(merged_view(c, ms[k as int])));
                }
            }
            next.push(m);
            k = k + 1;
        }
        proof {
            if lawful::<DS>() && (stage.let_bindings@.len() == 0 || evaluator.obeys_evaluate_spec()) {
                assert(ms.take(ms.len() as int) =~= ms);
            }
        }
        ci = ci + 1;
    }
    proof {
        assert(cvs.take(cvs.len() as int) =~= cvs);
    }
    next
}

/// Every stage of the pattern is let-free.
pub open spec fn let_free<L, V>(p: Pattern<L, V>) -> bool {
    forall|i: int| 0 <= i < p.stages@.len() ==> (#[trigger] p.stages@[i]).let_bindings@.len() == 0
}

/// Candidates extended through the first `g` stages of a group, in index
/// order.
pub open spec fn group_fold<DS: DataSource, E: LetEvaluator<DS::N, DS::V>>(
    ds: DS,
    e: E,
    pattern: Pattern<DS::L, DS::V>,
    group: Seq<usize>,
    start: Seq<(BindingMap<DS::N, DS::V>, Map<Seq<char>, Interval<i64>>)>,
    g: int,
    now: i64,
) -> Seq<(BindingMap<DS::N, DS::V>, Map<Seq<char>, Interval<i64>>)>
    decreases g,
{
    if g <= 0 {
        start
    } else {
        extend_spec(ds, e, pattern.stages@[group[g - 1] as int], group_fold(ds, e, pattern, group, start, g - 1, now), now)
    }
}

/// Every candidate expanded through a whole unordered group, candidates in
/// order.
pub open spec fn group_spec<DS: DataSource, E: LetEvaluator<DS::N, DS::V>>(
    ds: DS,
    e: E,
    pattern: Pattern<DS::L, DS::V>,
    group: Seq<usize>,
    cands: Seq<(BindingMap<DS::N, DS::V>, Map<Seq<char>, Interval<i64>>)>,
    now: i64,
) -> Seq<(BindingMap<DS::N, DS::V>, Map<Seq<char>, Interval<i64>>)>
    decreases cands.len(),
{
    if cands.len() == 0 {
        Seq::empty()
    } else {
        group_spec(ds, e, pattern, group, cands.drop_last(), now) + group_fold(ds, e, pattern, group, seq![cands.last()], group.len() as int, now)
    }
}

/// The candidates of a pattern after its first `k` steps, starting from one
/// empty candidate, `let` bindings evaluated by `e`.
pub open spec fn steps_fold<DS: DataSource, E: LetEvaluator<DS::N, DS::V>>(
    ds: DS,
    e: E,
    pattern: Pattern<DS::L, DS::V>,
    k: int,
    now: i64,
) -> Seq<(BindingMap<DS::N, DS::V>, Map<Seq<char>, Interval<i64>>)>
    decreases k,
{
    if k <= 0 {
        seq![(Map::empty(), Map::empty())]
    } else {
        let prev = steps_fold(ds, e, pattern, k - 1, now);
        match crate::engine::steps::stage_steps(pattern)[k - 1] {
            crate::engine::steps::StepView::Single(idx) => extend_spec(ds, e, pattern.stages@[idx as int], prev, now),
            crate::engine::steps::StepView::Unordered(g) => group_spec(ds, e, pattern, g, prev, now),
        }
    }
}

/// All candidates of a pattern at time `now`, `let` bindings evaluated by
/// `e`, before the final checks.
pub open spec fn candidates_spec<DS: DataSource, E: LetEvaluator<DS::N, DS::V>>(
    ds: DS,
    e: E,
    pattern: Pattern<DS::L, DS::V>,
    now: i64,
) -> Seq<(BindingMap<DS::N, DS::V>, Map<Seq<char>, Interval<i64>>)> {
    steps_fold(ds, e, pattern, crate::engine::steps::stage_steps(pattern).len() as int, now)
}

/// A copy of a candidate, equal to it when values clone exactly.
fn copy_candidate<N: Clone, V: Clone>(c: &MatchCandidate<N, V>) -> (r: MatchCandidate<N, V>)
    ensures
        r.1@ == c.1@,
        clone_exact::<N>() && clone_exact::<V>() ==> r.0@ == c.0@,
{
    let b = c.0.duplicate();
    proof {
        if clone_exact::<N>() && clone_exact::<V>() {
            crate::matching::lemma_duplicate_exact(c.0@, b@);
        }
    }
    (b, copy_intervals(&c.1))
}

/// Expand candidates through an unordered group: for each candidate, match
/// all stages of the group, in index order; join constraints keep the
/// bindings consistent whatever the order.
fn expand_unordered_group<DS: DataSource, E: LetEvaluator<DS::N, DS::V>>(
    ds: &DS,
    pattern: &Pattern<DS::L, DS::V>,
    candidates: &Vec<MatchCandidate<DS::N, DS::V>>,
    group: &Vec<usize>,
    now: &i64,
    evaluator: &E,
) -> (r: Vec<MatchCandidate<DS::N, DS::V>>)
    requires
        forall|k: int| 0 <= k < group@.len() ==> #[trigger] group@[k] < pattern.stages@.len(),
    ensures
        lawful::<DS>() && (let_free(*pattern) || evaluator.obeys_evaluate_spec()) ==> candidate_views(r@) == group_spec(
            *ds,
            *evaluator,
            *pattern,
            group@,
            candidate_views(candidates@),
            *now,
        ),
{
    let ghost cvs = candidate_views(candidates@);
    let mut result: Vec<MatchCandidate<DS::N, DS::V>> = Vec::new();
    let mut ci: usize = 0;
    while ci < candidates.len()
        invariant
            ci <= candidates@.len(),
            cvs == candidate_views(candidates@),
            forall|k: int| 0 <= k < group@.len() ==> #[trigger] group@[k] < pattern.stages@.len(),
            lawful::<DS>() && (let_free(*pattern) || evaluator.obeys_evaluate_spec()) ==> candidate_views(result@) == group_spec(
                *ds,
                *evaluator,
                *pattern,
                group@,
                cvs.take(ci as int),
                *now,
            ),
        decreases candidates@.len() - ci,
    {
        let start = copy_candidate(&candidates[ci]);
        let mut partial: Vec<MatchCandidate<DS::N, DS::V>> = Vec::new();
        partial.push(start);
        let ghost one = seq![cvs[ci as int]];
        proof {
            assert(cvs[ci as int] == candidate_view(candidates@[ci as int]));
            if lawful::<DS>() {
                assert(candidate_views(partial@) =~= one);
            }
        }
        let mut g: usize = 0;
        while g < group.len()
            invariant
                g <= group@.len(),
                forall|k: int| 0 <= k < group@.len() ==> #[trigger] group@[k] < pattern.stages@.len(),
                lawful::<DS>() && (let_free(*pattern) || evaluator.obeys_evaluate_spec()) ==> candidate_views(partial@) == group_fold(
                    *ds,
                    *evaluator,
                    *pattern,
                    group@,
                    one,
                    g as int,
                    *now,
                ),
            decreases group@.len() - g,
        {
            let si = group[g];
            partial = extend_with_stage(ds, &pattern.stages[si], &partial, now, evaluator);
            proof {
                assert(pattern.stages@[si as int].let_bindings@.len() == 0 || !let_free(*pattern));
            }
            g = g + 1;
        }
        let ghost base = candidate_views(result@);
        let ghost pv = candidate_views(partial@);
        let mut k: usize = 0;
        let n = partial.len();
        while k < n
            invariant
                k <= n,
                n == partial@.len(),
                pv == candidate_views(partial@),
                lawful::<DS>() ==> candidate_views(result@) == base + pv.take(k as int),
            decreases n - k,
        {
            let m = copy_candidate(&partial[k]);
            proof {
                lemma_views_push(result@, m);
                if lawful::<DS>() {
                    assert(pv[k as int] == candidate_view(partial@[k as int]));
                    assert(pv.take(k + 1) =~= pv.take(k as int).push(pv[k as int]));
                }
            }
            result.push(m);
            k = k + 1;
        }
        proof {
            assert(pv.take(n as int) =~= pv);
            assert(cvs.take(ci + 1).drop_last() =~= cvs.take(ci as int));
            assert(cvs.take(ci + 1).last() == cvs[ci as int]);
        }
        ci = ci + 1;
    }
    proof {
        assert(cvs.take(cvs.len() as int) =~= cvs);
    }
    result
}

/// All complete candidates of the pattern at time `now`, before the
/// temporal and negation checks.
fn pattern_candidates<DS: DataSource, E: LetEvaluator<DS::N, DS::V>>(
    ds: &DS,
    pattern: &Pattern<DS::L, DS::V>,
    now: &i64,
    evaluator: &E,
) -> (r: Vec<MatchCandidate<DS::N, DS::V>>)
    requires
        groups_in_range(*pattern),
        pattern.stages@.len() > 0,
    ensures
        lawful::<DS>() && (let_free(*pattern) || evaluator.obeys_evaluate_spec()) ==> candidate_views(r@) == candidates_spec(*ds, *evaluator, *pattern, *now),
{
    let steps = build_stage_steps(pattern);
    proof {
        crate::engine::steps::lemma_stage_steps_in_range(*pattern);
        assert(steps@.len() == crate::engine::steps::stage_steps(*pattern).len());
    }
    let mut candidates: Vec<MatchCandidate<DS::N, DS::V>> = Vec::new();
    candidates.push((StrMap::new(), StrMap::new()));
    proof {
        assert(candidate_views(candidates@) =~= steps_fold(*ds, *evaluator, *pattern, 0, *now));
    }
    let mut k: usize = 0;
    while k < steps.len()
        invariant
            lawful::<DS>() && (let_free(*pattern) || evaluator.obeys_evaluate_spec()) ==> candidate_views(candidates@) == steps_fold(*ds, *evaluator, *pattern, k as int, *now),
            k <= steps@.len(),
            steps@.len() == crate::engine::steps::stage_steps(*pattern).len(),
            crate::engine::steps::steps_view(steps@) == crate::engine::steps::stage_steps(*pattern),
            forall|k2: int, a: int|
                0 <= k2 < crate::engine::steps::stage_steps(*pattern).len() && 0 <= a < crate::engine::steps::step_indices(
                    crate::engine::steps::stage_steps(*pattern)[k2],
                ).len() ==> #[trigger] crate::engine::steps::step_indices(crate::engine::steps::stage_steps(*pattern)[k2])[a]
                    < pattern.stages@.len(),
        decreases steps@.len() - k,
    {
        proof {
            assert(crate::engine::steps::stage_steps(*pattern)[k as int] == steps@[k as int]@);
        }
        match &steps[k] {
            StageStep::Single(idx) => {
                proof {
                    assert(crate::engine::steps::step_indices(crate::engine::steps::stage_steps(*pattern)[k as int])[0] == *idx);
                }
                candidates = extend_with_stage(ds, &pattern.stages[*idx], &candidates, now, evaluator);
                proof {
                    assert(pattern.stages@[*idx as int].let_bindings@.len() == 0 || !let_free(*pattern));
                }
            },
            StageStep::Unordered(group) => {
                proof {
                    assert forall|a: int| 0 <= a < group@.len() implies #[trigger] group@[a] < pattern.stages@.len() by {
                        assert(crate::engine::steps::step_indices(crate::engine::steps::stage_steps(*pattern)[k as int])[a]
                            == group@[a]);
                    }
                }
                candidates = expand_unordered_group(ds, pattern, &candidates, group, now, evaluator);
            },
        }
        k = k + 1;
    }
    candidates
}

/// A candidate passes the final checks: temporal constraints and negations.
pub open spec fn passes<DS: DataSource>(
    ds: DS,
    p: Pattern<DS::L, DS::V>,
    b: BindingMap<DS::N, DS::V>,
    iv: Map<Seq<char>, Interval<i64>>,
) -> bool {
    temporal_holds(p, iv) && negations_clear(ds, p, b, iv)
}

/// A match reported for a pattern by standalone evaluation: it carries the
/// pattern's name and metadata, no registry index, and passed the final
/// checks.
pub open spec fn reported_match<DS: DataSource>(ds: DS, p: Pattern<DS::L, DS::V>, m: Match<DS::N, DS::V, i64>) -> bool {
    &&& m.pattern@ == p.name@
    &&& m.pattern_idx is None
    &&& m.metadata@ == p.metadata@
    &&& temporal_holds(p, m.intervals@)
    &&& lawful::<DS>() ==> negations_clear(ds, p, m.bindings@, m.intervals@)
}

/// Is `n` below the optional limit?
fn below_limit(n: usize, limit: Option<usize>) -> (r: bool)
    ensures
        r == match limit {
            Some(m) => n < m,
            None => true,
        },
{
    match limit {
        Some(m) => n < m,
        None => true,
    }
}

/// The final checks, as a predicate on candidate views.
pub open spec fn passes_view<DS: DataSource>(
    ds: DS,
    p: Pattern<DS::L, DS::V>,
) -> spec_fn((BindingMap<DS::N, DS::V>, Map<Seq<char>, Interval<i64>>)) -> bool {
    |c: (BindingMap<DS::N, DS::V>, Map<Seq<char>, Interval<i64>>)| passes(ds, p, c.0, c.1)
}

/// The bindings and intervals of a match.
pub open spec fn match_view<N, V>(m: Match<N, V, i64>) -> (BindingMap<N, V>, Map<Seq<char>, Interval<i64>>) {
    (m.bindings@, m.intervals@)
}

/// The bindings and intervals of each match.
pub open spec fn match_views<N, V>(ms: Seq<Match<N, V, i64>>) -> Seq<(BindingMap<N, V>, Map<Seq<char>, Interval<i64>>)> {
    ms.map_values(|m: Match<N, V, i64>| match_view(m))
}

/// The matches of a pattern at time `now`, `let` bindings evaluated by `e`,
/// as bindings and intervals, in evaluation order: its candidates that satisfy the
/// temporal constraints and are not blocked by a negation window.
pub open spec fn pattern_matches_spec<DS: DataSource, E: LetEvaluator<DS::N, DS::V>>(
    ds: DS,
    e: E,
    pattern: Pattern<DS::L, DS::V>,
    now: i64,
) -> Seq<(BindingMap<DS::N, DS::V>, Map<Seq<char>, Interval<i64>>)> {
    if pattern.stages@.len() == 0 {
        Seq::empty()
    } else {
        candidates_spec(ds, e, pattern, now).filter(passes_view(ds, pattern))
    }
}

/// A filtered prefix is a prefix of the filtered sequence.
proof fn lemma_filter_prefix<A>(s: Seq<A>, f: spec_fn(A) -> bool, i: int)
    requires
        0 <= i <= s.len(),
    ensures
        s.take(i).filter(f).len() <= s.filter(f).len(),
        forall|j: int| 0 <= j < s.take(i).filter(f).len() ==> #[trigger] s.take(i).filter(f)[j] == s.filter(f)[j],
    decreases s.len() - i,
{
    if i == s.len() {
        assert(s.take(i) =~= s);
    } else {
        lemma_filter_prefix(s, f, i + 1);
        assert(s.take(i + 1) =~= s.take(i).push(s[i]));
        s.take(i).lemma_filter_push(s[i], f);
        assert forall|j: int| 0 <= j < s.take(i).filter(f).len() implies #[trigger] s.take(i).filter(f)[j] == s.filter(f)[j] by {
            assert(s.take(i + 1).filter(f)[j] == s.take(i).filter(f)[j]);
        }
    }
}

/// Turn the candidates that pass the temporal and negation checks into
/// matches, keeping at most `limit` of them (all when `None`), in order.
fn select_matches<DS: DataSource>(
    ds: &DS,
    pattern: &Pattern<DS::L, DS::V>,
    candidates: &Vec<MatchCandidate<DS::N, DS::V>>,
    limit: Option<usize>,
) -> (r: Vec<Match<DS::N, DS::V, i64>>)
    requires
        groups_in_range(*pattern),
    ensures
        forall|i: int| 0 <= i < r@.len() ==> #[trigger] reported_match(*ds, *pattern, r@[i]),
        limit matches Some(m) ==> r@.len() <= m,
        lawful::<DS>() ==> {
            let fs = candidate_views(candidates@).filter(passes_view(*ds, *pattern));
            &&& r@.len() == match limit {
                Some(m) => if m < fs.len() {
                    m as int
                } else {
                    fs.len() as int
                },
                None => fs.len() as int,
            }
            &&& forall|j: int| 0 <= j < r@.len() ==> #[trigger] match_view(r@[j]) == fs[j]
        },
{
    let ghost f = passes_view(*ds, *pattern);
    let ghost cvs = candidate_views(candidates@);
    let mut out: Vec<Match<DS::N, DS::V, i64>> = Vec::new();
    let mut i: usize = 0;
    while i < candidates.len() && below_limit(out.len(), limit)
        invariant
            i <= candidates@.len(),
            groups_in_range(*pattern),
            f == passes_view(*ds, *pattern),
            cvs == candidate_views(candidates@),
            forall|j: int| 0 <= j < out@.len() ==> #[trigger] reported_match(*ds, *pattern, out@[j]),
            limit matches Some(m) ==> out@.len() <= m,
            lawful::<DS>() ==> out@.len() == cvs.take(i as int).filter(f).len(),
            lawful::<DS>() ==> forall|j: int| 0 <= j < out@.len() ==> #[trigger] match_view(out@[j]) == cvs.take(i as int).filter(f)[j],
        decreases candidates@.len() - i,
    {
        proof {
            assert(cvs.take(i + 1) =~= cvs.take(i as int).push(cvs[i as int]));
            cvs.take(i as int).lemma_filter_push(cvs[i as int], f);
            assert(cvs[i as int] == candidate_view(candidates@[i as int]));
        }
        let c = &candidates[i];
        if check_temporal(pattern, &c.1) && check_negations_batch(ds, pattern, &c.0, &c.1) {
            let b = c.0.duplicate();
            proof {
                if lawful::<DS>() {
                    crate::matching::lemma_duplicate_exact(c.0@, b@);
                }
            }
            let m = Match {
                pattern: pattern.name.clone(),
                pattern_idx: None,
                bindings: b,
                intervals: copy_intervals(&c.1),
                metadata: copy_strings(&pattern.metadata),
            };
            out.push(m);
        }
        i = i + 1;
    }
    proof {
        if lawful::<DS>() {
            lemma_filter_prefix(cvs, f, i as int);
            if i == candidates@.len() {
                assert(cvs.take(i as int) =~= cvs);
            }
        }
    }
    out
}

/// Evaluate a single pattern at time `now`, returning all complete matches
/// (with no registry index).
pub fn evaluate_pattern_at<DS: DataSource, E: LetEvaluator<DS::N, DS::V>>(
    ds: &DS,
    pattern: &Pattern<DS::L, DS::V>,
    now: &i64,
    evaluator: &E,
) -> (r: Vec<Match<DS::N, DS::V, i64>>)
    requires
        groups_in_range(*pattern),
    ensures
        pattern.stages@.len() == 0 ==> r@.len() == 0,
        forall|i: int| 0 <= i < r@.len() ==> #[trigger] reported_match(*ds, *pattern, r@[i]),
        lawful::<DS>() && (let_free(*pattern) || evaluator.obeys_evaluate_spec()) ==> match_views(r@) == pattern_matches_spec(*ds, *evaluator, *pattern, *now),
{
    if pattern.stages.len() == 0 {
        let r: Vec<Match<DS::N, DS::V, i64>> = Vec::new();
        proof {
            assert(match_views(r@) =~= pattern_matches_spec(*ds, *evaluator, *pattern, *now));
        }
        return r;
    }
    let candidates = pattern_candidates(ds, pattern, now, evaluator);
    let r = select_matches(ds, pattern, &candidates, None);
    proof {
        if lawful::<DS>() && (let_free(*pattern) || evaluator.obeys_evaluate_spec()) {
            assert(match_views(r@) =~= pattern_matches_spec(*ds, *evaluator, *pattern, *now));
        }
    }
    r
}

/// Evaluate a single pattern at time `now`, returning at most `max`
/// complete matches.
pub fn evaluate_pattern_limit<DS: DataSource, E: LetEvaluator<DS::N, DS::V>>(
    ds: &DS,
    pattern: &Pattern<DS::L, DS::V>,
    now: &i64,
    max: usize,
    evaluator: &E,
) -> (r: Vec<Match<DS::N, DS::V, i64>>)
    requires
        groups_in_range(*pattern),
    ensures
        r@.len() <= max,
        pattern.stages@.len() == 0 ==> r@.len() == 0,
        forall|i: int| 0 <= i < r@.len() ==> #[trigger] reported_match(*ds, *pattern, r@[i]),
        lawful::<DS>() && (let_free(*pattern) || evaluator.obeys_evaluate_spec()) ==> {
            let all = pattern_matches_spec(*ds, *evaluator, *pattern, *now);
            match_views(r@) == all.take(if max < all.len() {
                max as int
            } else {
                all.len() as int
            })
        },
{
    if max == 0 || pattern.stages.len() == 0 {
        let r: Vec<Match<DS::N, DS::V, i64>> = Vec::new();
        proof {
            let all = pattern_matches_spec(*ds, *evaluator, *pattern, *now);
            assert(match_views(r@) =~= all.take(if max < all.len() {
                max as int
            } else {
                all.len() as int
            }));
        }
        return r;
    }
    let candidates = pattern_candidates(ds, pattern, now, evaluator);
    let r = select_matches(ds, pattern, &candidates, Some(max));
    proof {
        if lawful::<DS>() && (let_free(*pattern) || evaluator.obeys_evaluate_spec()) {
            let all = pattern_matches_spec(*ds, *evaluator, *pattern, *now);
            assert(match_views(r@) =~= all.take(if max < all.len() {
                max as int
            } else {
                all.len() as int
            }));
        }
    }
    r
}

/// Evaluate a single pattern at the graph's current time, returning the
/// first complete match, if any.
pub fn evaluate_pattern_first<DS: DataSource, E: LetEvaluator<DS::N, DS::V>>(
    ds: &DS,
    pattern: &Pattern<DS::L, DS::V>,
    evaluator: &E,
) -> (r: Option<Match<DS::N, DS::V, i64>>)
    requires
        groups_in_range(*pattern),
    ensures
        pattern.stages@.len() == 0 ==> r is None,
        r matches Some(m) ==> reported_match(*ds, *pattern, m),
        lawful::<DS>() && (let_free(*pattern) || evaluator.obeys_evaluate_spec()) ==> {
            let all = pattern_matches_spec(*ds, *evaluator, *pattern, ds.now_spec());
            &&& (r is Some <==> all.len() > 0)
            &&& r matches Some(m) ==> match_view(m) == all[0]
        },
{
    let now = ds.now();
    let mut v = evaluate_pattern_limit(ds, pattern, &now, 1, evaluator);
    proof {
        if lawful::<DS>() && (let_free(*pattern) || evaluator.obeys_evaluate_spec()) {
            let all = pattern_matches_spec(*ds, *evaluator, *pattern, now);
            assert(match_views(v@).len() == v@.len());
            if all.len() > 0 {
                assert(all.take(1).len() == 1);
            } else {
                assert(all.take(0).len() == 0);
            }
            if v@.len() > 0 {
                assert(match_views(v@)[0] == all.take(1)[0]);
            }
        }
    }
    if v.len() == 0 {
        None
    } else {
        proof {
            assert(reported_match(*ds, *pattern, v@[0]));
            assert(match_views(v@)[0] == match_view(v@[0]));
        }
        let m = v.remove(0);
        Some(m)
    }
}

/// Evaluate a single pattern at the graph's current time, returning all
/// complete matches.
pub fn evaluate_pattern<DS: DataSource, E: LetEvaluator<DS::N, DS::V>>(
    ds: &DS,
    pattern: &Pattern<DS::L, DS::V>,
    evaluator: &E,
) -> (r: Vec<Match<DS::N, DS::V, i64>>)
    requires
        groups_in_range(*pattern),
    ensures
        pattern.stages@.len() == 0 ==> r@.len() == 0,
        forall|i: int| 0 <= i < r@.len() ==> #[trigger] reported_match(*ds, *pattern, r@[i]),
        lawful::<DS>() && (let_free(*pattern) || evaluator.obeys_evaluate_spec()) ==> match_views(r@) == pattern_matches_spec(*ds, *evaluator, *pattern, ds.now_spec()),
{
    let now = ds.now();
    evaluate_pattern_at(ds, pattern, &now, evaluator)
}

/// `a` followed by `b`.
pub fn concat(a: String, b: &str) -> (r: String)
    ensures
        r@ == a@ + b@,
{
    let mut out = a;
    out.append(b);
    out
}

/// The reason a clause whose source variable is unbound fails.
pub open spec fn not_bound_text(var: Seq<char>) -> Seq<char> {
    "?"@ + var + " is not bound"@
}

/// The reason a clause whose source variable is bound to a value fails.
pub open spec fn bound_to_value_text(var: Seq<char>) -> Seq<char> {
    "?"@ + var + " is bound to a value, not a node"@
}

/// Analyze a single clause under the bindings at time `now`: whether it
/// holds, and if not, why.
pub fn analyze_clause<DS: DataSource>(
    ds: &DS,
    clause: &Clause<DS::L, DS::V>,
    bindings: &StrMap<BoundValue<DS::N, DS::V>>,
    now: &i64,
) -> (r: (bool, Option<String>))
    ensures
        lawful::<DS>() ==> r.0 == clause_holds(*ds, *clause, bindings@, *now),
        node_of(bindings@, clause.source.0@) is None ==> !r.0,
        r.0 == (r.1 is None),
        !bindings@.contains_key(clause.source.0@) ==> (r.1 matches Some(s) && s@ == not_bound_text(clause.source.0@)),
        bindings@.contains_key(clause.source.0@) && bindings@[clause.source.0@] is Value ==> (r.1 matches Some(s) && s@
            == bound_to_value_text(clause.source.0@)),
{
    let source = match bindings.get(clause.source.0.as_str()) {
        Some(BoundValue::Node(n)) => n,
        Some(_) => {
            let t = concat(concat("?".to_string(), clause.source.0.as_str()), " is bound to a value, not a node");
            return (false, Some(t));
        },
        None => {
            let t = concat(concat("?".to_string(), clause.source.0.as_str()), " is not bound");
            return (false, Some(t));
        },
    };
    let edges = ds.edges_from(source, &clause.label, now);
    let found = crate::matching::any_edge_matches(ds, &edges, &clause.target, bindings);
    let ok = if clause.negated {
        !found
    } else {
        found
    };
    if ok {
        (true, None)
    } else if clause.negated {
        let t = concat(concat("edge ".to_string(), debug_text(&clause.label).as_str()), " exists but should not");
        (false, Some(t))
    } else if edges.len() == 0 {
        let t = concat(
            concat(concat("no edges with label ".to_string(), debug_text(&clause.label).as_str()), " from ?"),
            clause.source.0.as_str(),
        );
        (false, Some(t))
    } else {
        (false, Some("edges exist but none match target constraint".to_string()))
    }
}

/// A stage report from gap analysis with no bindings: every clause is
/// reported unmatched, and the stage is matched exactly when it has no
/// clauses.
pub open spec fn unbound_stage_report<L, V>(stage: Stage<L, V>, a: StageAnalysis) -> bool {
    &&& a.anchor@ == stage.anchor.0@
    &&& a.clauses@.len() == stage.clauses@.len()
    &&& forall|j: int| 0 <= j < a.clauses@.len() ==> !(#[trigger] a.clauses@[j]).matched
    &&& forall|j: int|
        0 <= j < a.clauses@.len() ==> ((#[trigger] a.clauses@[j]).reason matches Some(t) && t@ == not_bound_text(
            stage.clauses@[j].source.0@,
        ))
    &&& a.status == if stage.clauses@.len() == 0 {
        StageStatus::Matched
    } else {
        StageStatus::Unmatched
    }
}

/// `r` is the gap analysis of `pattern` when no variable is bound: it names
/// the pattern and reports its stages in order, each clause unmatched, up to
/// and including the first stage with clauses (or all stages when none has
/// any).
pub open spec fn gap_report<L, V>(pattern: Pattern<L, V>, r: GapAnalysis) -> bool {
    &&& r.pattern@ == pattern.name@
    &&& r.stages@.len() <= pattern.stages@.len()
    &&& forall|k: int| 0 <= k < r.stages@.len() ==> unbound_stage_report(pattern.stages@[k], #[trigger] r.stages@[k])
    &&& forall|k: int| 0 <= k < r.stages@.len() - 1 ==> (#[trigger] pattern.stages@[k]).clauses@.len() == 0
    &&& r.stages@.len() == pattern.stages@.len() || (r.stages@.len() > 0 && pattern.stages@[r.stages@.len() - 1].clauses@.len()
        > 0)
}

/// Gap analysis at time `now`: why hasn't this pattern matched? Stages are
/// analyzed clause by clause, in order, up to the first stage that does not
/// match. No variables are bound during the analysis, so the first stage
/// with clauses is reported unmatched.
pub fn gap_analysis_at<DS: DataSource>(ds: &DS, pattern: &Pattern<DS::L, DS::V>, now: &i64) -> (r: GapAnalysis)
    ensures
        gap_report(*pattern, r),
{
    let bindings: StrMap<BoundValue<DS::N, DS::V>> = StrMap::new();
    let mut stages: Vec<StageAnalysis> = Vec::new();
    let mut si: usize = 0;
    while si < pattern.stages.len()
        invariant
            si <= pattern.stages@.len(),
            bindings@ == Map::<Seq<char>, BoundValue<DS::N, DS::V>>::empty(),
            stages@.len() == si,
            forall|k: int| 0 <= k < si ==> unbound_stage_report(pattern.stages@[k], #[trigger] stages@[k]),
            forall|k: int| 0 <= k < si ==> (#[trigger] pattern.stages@[k]).clauses@.len() == 0,
        decreases pattern.stages@.len() - si,
    {
        let stage = &pattern.stages[si];
        let mut clause_analyses: Vec<ClauseAnalysis> = Vec::new();
        let mut stage_matched = true;
        let mut matched_count: usize = 0;
        let mut ci: usize = 0;
        while ci < stage.clauses.len()
            invariant
                ci <= stage.clauses@.len(),
                bindings@ == Map::<Seq<char>, BoundValue<DS::N, DS::V>>::empty(),
                clause_analyses@.len() == ci,
                forall|j: int| 0 <= j < ci ==> !(#[trigger] clause_analyses@[j]).matched,
                forall|j: int|
                    0 <= j < ci ==> ((#[trigger] clause_analyses@[j]).reason matches Some(t) && t@ == not_bound_text(
                        stage.clauses@[j].source.0@,
                    )),
                stage_matched == (ci == 0),
                matched_count == 0,
            decreases stage.clauses@.len() - ci,
        {
            let clause = &stage.clauses[ci];
            let (matched, reason) = analyze_clause(ds, clause, &bindings, now);
            if !matched {
                stage_matched = false;
            } else {
                matched_count = matched_count + 1;
            }
            let suffix = if clause.negated {
                " (NOT)"
            } else {
                ""
            };
            let description = concat(
                concat(
                    concat(
                        concat(
                            concat(concat("?".to_string(), clause.source.0.as_str()), " --["),
                            debug_text(&clause.label).as_str(),
                        ),
                        "]--> ",
                    ),
                    debug_text(&clause.target).as_str(),
                ),
                suffix,
            );
            clause_analyses.push(ClauseAnalysis { description, matched, reason });
            ci = ci + 1;
        }
        let status = if stage_matched {
            StageStatus::Matched
        } else if matched_count > 0 {
            StageStatus::PartiallyMatched { matched: matched_count, total: clause_analyses.len() }
        } else {
            StageStatus::Unmatched
        };
        stages.push(StageAnalysis { anchor: stage.anchor.0.clone(), status, clauses: clause_analyses });
        if !stage_matched {
            return GapAnalysis { pattern: pattern.name.clone(), stages };
        }
        si = si + 1;
    }
    GapAnalysis { pattern: pattern.name.clone(), stages }
}

/// Gap analysis at the graph's current time.
pub fn gap_analysis<DS: DataSource>(ds: &DS, pattern: &Pattern<DS::L, DS::V>) -> (r: GapAnalysis)
    ensures
        gap_report(*pattern, r),
{
    let now = ds.now();
    gap_analysis_at(ds, pattern, &now)
}

} // verus!
