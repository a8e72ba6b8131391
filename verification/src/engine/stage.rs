//! Matching one stage of a pattern: against a newly added edge (incremental
//! matching), or against the whole graph (batch evaluation).

use crate::datasource::{lawful, DataSource, Edge, ValueConstraint};
use crate::engine::steps::{eval_stage_lets, let_names, stage_lets_result};
use crate::interval::Interval;
use crate::let_evaluator::LetEvaluator;
use crate::matching::{
    bind_target, bound_matches, binding_for, binding_of, clause_holds, clause_satisfied, first_matching_edge, resolve_spec, lemma_resolved_admits_copied,
    node_of, resolve_target, resolve_target_spec, resolved_admits, target_admits, target_matches_ds, BindingMap,
};
use crate::pattern::{Stage, Target};
use crate::strmap::StrMap;
use crate::types::{lemma_bound_value_clone_exact, BoundValue};
use vstd::prelude::*;
use vstd::std_specs::cmp::PartialEqSpec;

verus! {

/// Bindings and stage intervals of a candidate match.
pub type MatchCandidate<N, V> = (StrMap<BoundValue<N, V>>, StrMap<Interval<i64>>);

/// A stage's first clause accepts a new edge `source --label--> value`
/// under the existing bindings: the label is the clause's, the clause's
/// source (if bound) is the edge's source, and the target admits the value.
pub open spec fn first_clause_accepts<DS: DataSource>(
    ds: DS,
    stage: Stage<DS::L, DS::V>,
    source: DS::N,
    label: DS::L,
    value: DS::V,
    existing: BindingMap<DS::N, DS::V>,
) -> bool {
    &&& stage.clauses@.len() > 0
    &&& stage.clauses@[0].label.eq_spec(&label)
    &&& (node_of(existing, stage.clauses@[0].source.0@) matches Some(n) ==> source.eq_spec(&n))
    &&& target_admits(ds, stage.clauses@[0].target, value, existing)
}

/// The bindings a stage's first clause makes for a new edge: the anchor and
/// (if not yet bound) the clause's source are bound to the edge's source, and
/// an unbound target variable to the edge's value.
pub open spec fn initial_bindings<DS: DataSource>(
    ds: DS,
    stage: Stage<DS::L, DS::V>,
    source: DS::N,
    value: DS::V,
    existing: BindingMap<DS::N, DS::V>,
) -> BindingMap<DS::N, DS::V> {
    let first = stage.clauses@[0];
    let b0 = Map::<Seq<char>, BoundValue<DS::N, DS::V>>::empty().insert(stage.anchor.0@, BoundValue::Node(source));
    let b1 = if existing.contains_key(first.source.0@) {
        b0
    } else {
        b0.insert(first.source.0@, BoundValue::Node(source))
    };
    match first.target {
        Target::Bind(var) => if !existing.contains_key(var.0@) && !b1.contains_key(var.0@) {
            b1.insert(var.0@, binding_for(ds, value))
        } else {
            b1
        },
        _ => b1,
    }
}

/// `small`'s entries are all in `big`.
pub open spec fn submap_of<N, V>(small: BindingMap<N, V>, big: BindingMap<N, V>) -> bool {
    forall|k: Seq<char>| #[trigger] small.contains_key(k) ==> big.contains_key(k) && big[k] == small[k]
}

/// A map with exactly one interval, under `key`.
pub open spec fn single_interval(key: Seq<char>, iv: Interval<i64>) -> Map<Seq<char>, Interval<i64>> {
    Map::<Seq<char>, Interval<i64>>::empty().insert(key, iv)
}

/// The first edge of `edges` whose target the resolved target `t` admits.
pub open spec fn first_admitting<DS: DataSource>(
    ds: DS,
    edges: Seq<Edge<DS::N, DS::V, i64>>,
    t: Target<DS::V>,
    b: BindingMap<DS::N, DS::V>,
) -> Option<int> {
    if exists|i: int| 0 <= i < edges.len() && resolved_admits(ds, t, #[trigger] edges[i].target, b) {
        Some(
            choose|i: int|
                0 <= i < edges.len() && resolved_admits(ds, t, #[trigger] edges[i].target, b) && forall|j: int|
                    0 <= j < i ==> !resolved_admits(ds, t, #[trigger] edges[j].target, b),
        )
    } else {
        None
    }
}

/// Checking the clauses of `stage` from position `ci` on at time `t`, with
/// the stage's new bindings `b` and all bindings `m` so far: each clause's
/// source must be bound to a node and its target resolvable; a negated
/// clause must find no admitted edge from the source with its label, any
/// other clause one, and the first such edge binds an unbound target
/// variable. The stage's new bindings at the end, or `None` if a clause
/// fails.
#[verifier::opaque]
pub open spec fn clauses_from<DS: DataSource>(
    ds: DS,
    stage: Stage<DS::L, DS::V>,
    ci: int,
    b: BindingMap<DS::N, DS::V>,
    m: BindingMap<DS::N, DS::V>,
    t: i64,
) -> Option<BindingMap<DS::N, DS::V>>
    decreases stage.clauses@.len() - ci,
{
    if ci < 0 || ci >= stage.clauses@.len() {
        Some(b)
    } else {
        let c = stage.clauses@[ci];
        match node_of(m, c.source.0@) {
            None => None,
            Some(n) => match resolve_target_spec(c.target, m) {
                None => None,
                Some(rt) => {
                    let edges = ds.edges_from_spec(n, c.label, t);
                    let found = first_admitting(ds, edges, rt, m);
                    if c.negated {
                        if found is Some {
                            None
                        } else {
                            clauses_from(ds, stage, ci + 1, b, m, t)
                        }
                    } else {
                        match found {
                            None => None,
                            Some(i) => match c.target {
                                Target::Bind(var) => if !m.contains_key(var.0@) {
                                    let bv = binding_for(ds, edges[i].target);
                                    clauses_from(ds, stage, ci + 1, b.insert(var.0@, bv), m.insert(var.0@, bv), t)
                                } else {
                                    clauses_from(ds, stage, ci + 1, b, m, t)
                                },
                                _ => clauses_from(ds, stage, ci + 1, b, m, t),
                            },
                        }
                    }
                },
            },
        }
    }
}

/// The new bindings a let-free stage makes for a new edge, or `None` when
/// it does not match: the first clause must accept the edge, and the other
/// clauses are then checked at the edge's start time.
pub open spec fn stage_bindings<DS: DataSource>(
    ds: DS,
    stage: Stage<DS::L, DS::V>,
    source: DS::N,
    label: DS::L,
    value: DS::V,
    interval: Interval<i64>,
    existing: BindingMap<DS::N, DS::V>,
) -> Option<BindingMap<DS::N, DS::V>> {
    if first_clause_accepts(ds, stage, source, label, value, existing) {
        let init = initial_bindings(ds, stage, source, value, existing);
        clauses_from(ds, stage, 1, init, existing.union_prefer_right(init), interval.start)
    } else {
        None
    }
}

proof fn lemma_clauses_done<DS: DataSource>(
    ds: DS,
    stage: Stage<DS::L, DS::V>,
    ci: int,
    b: BindingMap<DS::N, DS::V>,
    m: BindingMap<DS::N, DS::V>,
    t: i64,
)
    requires
        ci >= stage.clauses@.len(),
    ensures
        clauses_from(ds, stage, ci, b, m, t) == Some(b),
{
    reveal(clauses_from);
}

proof fn lemma_first_admitting<DS: DataSource>(
    ds: DS,
    edges: Seq<Edge<DS::N, DS::V, i64>>,
    t: Target<DS::V>,
    b: BindingMap<DS::N, DS::V>,
    r: Option<usize>,
)
    requires
        match r {
            Some(i) => i < edges.len() && resolved_admits(ds, t, edges[i as int].target, b) && forall|j: int|
                0 <= j < i ==> !resolved_admits(ds, t, #[trigger] edges[j].target, b),
            None => forall|j: int| 0 <= j < edges.len() ==> !resolved_admits(ds, t, #[trigger] edges[j].target, b),
        },
    ensures
        first_admitting(ds, edges, t, b) == match r {
            Some(i) => Some(i as int),
            None => None,
        },
{
    match r {
        Some(i) => {
            assert(resolved_admits(ds, t, edges[i as int].target, b));
            let c = choose|c: int|
                0 <= c < edges.len() && resolved_admits(ds, t, #[trigger] edges[c].target, b) && forall|j: int|
                    0 <= j < c ==> !resolved_admits(ds, t, #[trigger] edges[j].target, b);
            if c < i {
                assert(!resolved_admits(ds, t, edges[c].target, b));
            } else if c > i {
                assert(!resolved_admits(ds, t, edges[i as int].target, b));
            }
        },
        None => {},
    }
}

/// Copy `b` into a fresh map, then add every entry of `extra` (which wins
/// on shared keys).
fn merge_bindings<N: Clone, V: Clone>(b: &StrMap<BoundValue<N, V>>, extra: &StrMap<BoundValue<N, V>>) -> (r: StrMap<
    BoundValue<N, V>,
>)
    ensures
        r@.dom() == b@.dom().union(extra@.dom()),
        forall|k: Seq<char>| #[trigger] extra@.contains_key(k) ==> cloned(extra@[k], r@[k]),
        forall|k: Seq<char>| !extra@.contains_key(k) && #[trigger] b@.contains_key(k) ==> cloned(b@[k], r@[k]),
{
    let mut m = b.duplicate();
    m.extend_from(extra);
    m
}

/// Check clause `ci` of a stage at time `t` (see `clauses_from`): `false`
/// if it fails; otherwise an unbound target variable it binds is added to
/// the stage's new bindings and to all bindings.
fn check_clause<DS: DataSource>(
    ds: &DS,
    stage: &Stage<DS::L, DS::V>,
    ci: usize,
    bindings: &mut StrMap<BoundValue<DS::N, DS::V>>,
    merged: &mut StrMap<BoundValue<DS::N, DS::V>>,
    t: i64,
) -> (ok: bool)
    requires
        1 <= ci < stage.clauses@.len(),
        forall|k: Seq<char>| #[trigger] old(bindings)@.contains_key(k) ==> old(merged)@.contains_key(k),
    ensures
        forall|k: Seq<char>|
            #[trigger] final(merged)@.contains_key(k) == (old(merged)@.contains_key(k) || (final(bindings)@.contains_key(k)
                && !old(bindings)@.contains_key(k))),
        forall|k: Seq<char>|
            #[trigger] old(bindings)@.contains_key(k) ==> final(bindings)@.contains_key(k) && final(bindings)@[k] == old(
                bindings,
            )@[k],
        forall|k: Seq<char>|
            #[trigger] final(bindings)@.contains_key(k) ==> old(bindings)@.contains_key(k) || !old(merged)@.contains_key(k),
        forall|k: Seq<char>| #[trigger] old(merged)@.contains_key(k) ==> final(merged)@[k] == old(merged)@[k],
        lawful::<DS>() ==> forall|k: Seq<char>|
            #[trigger] final(bindings)@.contains_key(k) && !old(bindings)@.contains_key(k) ==> final(merged)@[k]
                == final(bindings)@[k],
        lawful::<DS>() ==> if ok {
            clauses_from(*ds, *stage, ci as int, old(bindings)@, old(merged)@, t) == clauses_from(
                *ds,
                *stage,
                ci + 1,
                final(bindings)@,
                final(merged)@,
                t,
            )
        } else {
            clauses_from(*ds, *stage, ci as int, old(bindings)@, old(merged)@, t) is None
        },
{
    proof {
        reveal(clauses_from);
    }
    let clause = &stage.clauses[ci];
    let src_node = match merged.get(clause.source.0.as_str()) {
        Some(BoundValue::Node(n)) => n.clone(),
        _ => return false,
    };
    proof {
        if lawful::<DS>() {
            assert(cloned(node_of(merged@, clause.source.0@)->0, src_node));
        }
    }
    let edges = ds.edges_from(&src_node, &clause.label, &t);
    let resolved = match resolve_target(&clause.target, merged) {
        Some(rt) => rt,
        None => return false,
    };
    let matching = first_matching_edge(ds, &edges, &resolved, merged);
    proof {
        if lawful::<DS>() {
            let rt = resolve_target_spec(clause.target, merged@)->0;
            assert forall|j: int| 0 <= j < edges@.len() implies resolved_admits(*ds, resolved, #[trigger] edges@[j].target, merged@)
                == resolved_admits(*ds, rt, edges@[j].target, merged@) by {
                lemma_resolved_admits_copied(*ds, rt, resolved, edges@[j].target, merged@);
            }
            lemma_first_admitting(*ds, edges@, rt, merged@, matching);
        }
    }
    let ok = if clause.negated {
        matching.is_none()
    } else {
        matching.is_some()
    };
    if !ok {
        return false;
    }
    if !clause.negated {
        match &clause.target {
            Target::Bind(var) => {
                if !merged.contains_key(var.0.as_str()) {
                    match matching {
                        Some(i) => {
                            let bv = binding_of(ds, &edges[i].target);
                            let bv2 = bv.clone();
                            proof {
                                if lawful::<DS>() {
                                    lemma_bound_value_clone_exact(bv, bv2);
                                }
                            }
                            bindings.insert(var.0.clone(), bv);
                            merged.insert(var.0.clone(), bv2);
                        },
                        None => {},
                    }
                }
            },
            _ => {},
        }
    }
    true
}

/// The names a stage's `let` bindings introduce, as a set.
pub open spec fn let_name_set<L, V>(stage: Stage<L, V>) -> Set<Seq<char>> {
    Set::new(|k: Seq<char>| let_names(stage).contains(k))
}

/// The new bindings of a stage: those its clauses made, `b`, and the values
/// its `let` bindings got in `m`.
pub open spec fn with_lets<N, L, V>(
    b: BindingMap<N, V>,
    m: BindingMap<N, V>,
    stage: Stage<L, V>,
) -> BindingMap<N, V> {
    b.union_prefer_right(m.restrict(let_name_set(stage)))
}

/// A stage without `let` bindings adds nothing to what its clauses bind.
pub proof fn lemma_no_lets<N, L, V, E: LetEvaluator<N, V>>(e: E, stage: Stage<L, V>, b: BindingMap<N, V>, m: BindingMap<N, V>)
    requires
        stage.let_bindings@.len() == 0,
    ensures
        stage_lets_result(e, stage, m) == Some(m),
        with_lets(b, m, stage) == b,
{
    assert(let_names(stage).len() == 0);
    assert(let_name_set(stage) =~= Set::empty());
    assert(with_lets(b, m, stage) =~= b);
}

/// The new bindings a stage makes for a new edge, its `let` bindings
/// evaluated by `e` over the earlier bindings and those of its clauses; `None`
/// when a clause or a `let` fails.
pub open spec fn stage_result<DS: DataSource, E: LetEvaluator<DS::N, DS::V>>(
    ds: DS,
    e: E,
    stage: Stage<DS::L, DS::V>,
    source: DS::N,
    label: DS::L,
    value: DS::V,
    interval: Interval<i64>,
    existing: BindingMap<DS::N, DS::V>,
) -> Option<BindingMap<DS::N, DS::V>> {
    match stage_bindings(ds, stage, source, label, value, interval, existing) {
        Some(b) => match stage_lets_result(e, stage, existing.union_prefer_right(b)) {
            Some(m) => Some(with_lets(b, m, stage)),
            None => None,
        },
        None => None,
    }
}

/// Try to match a stage against a newly added edge `source --label-->
/// value` during `interval`, given the bindings of the partial match so far.
///
/// The first clause must accept the edge; every further clause is checked
/// against the graph at the edge's start time (a negated clause must find no
/// matching edge), binding unbound target variables to the first matching
/// edge; then the stage's `let` bindings are evaluated. Returns the stage's
/// new bindings and its interval, or `None` when the stage does not match.
pub fn try_match_stage<DS: DataSource, E: LetEvaluator<DS::N, DS::V>>(
    ds: &DS,
    stage: &Stage<DS::L, DS::V>,
    source: &DS::N,
    label: &DS::L,
    value: &DS::V,
    interval: &Interval<i64>,
    existing: &StrMap<BoundValue<DS::N, DS::V>>,
    evaluator: &E,
) -> (r: Option<Vec<MatchCandidate<DS::N, DS::V>>>)
    ensures
        lawful::<DS>() && !first_clause_accepts(*ds, *stage, *source, *label, *value, existing@) ==> r is None,
        r matches Some(v) ==> {
            &&& v@.len() == 1
            &&& v@[0].1@ == single_interval(stage.anchor.0@, *interval)
            &&& lawful::<DS>() ==> submap_of(initial_bindings(*ds, *stage, *source, *value, existing@), v@[0].0@)
            &&& forall|i: int| 0 <= i < let_names(*stage).len() ==> #[trigger] v@[0].0@.contains_key(let_names(*stage)[i])
        },
        lawful::<DS>() && r is Some ==> stage_bindings(*ds, *stage, *source, *label, *value, *interval, existing@) is Some,
        lawful::<DS>() && stage.let_bindings@.len() == 0 ==> match stage_bindings(
            *ds,
            *stage,
            *source,
            *label,
            *value,
            *interval,
            existing@,
        ) {
            Some(b) => r matches Some(v) && v@[0].0@ == b,
            None => r is None,
        },
        lawful::<DS>() && (stage.let_bindings@.len() == 0 || evaluator.obeys_evaluate_spec()) ==> match stage_result(
            *ds,
            *evaluator,
            *stage,
            *source,
            *label,
            *value,
            *interval,
            existing@,
        ) {
            Some(b) => r matches Some(v) && v@[0].0@ == b,
            None => r is None,
        },
{
    if stage.clauses.len() == 0 {
        return None;
    }
    let first = &stage.clauses[0];
    if !(first.label == *label) {
        return None;
    }
    match existing.get(first.source.0.as_str()) {
        Some(BoundValue::Node(n)) => {
            if !(*source == *n) {
                return None;
            }
        },
        _ => {},
    }
    let resolved_first = match resolve_target(&first.target, existing) {
        Some(t) => t,
        None => return None,
    };
    let target_ok = crate::matching::resolved_matches(ds, &resolved_first, value, existing);
    proof {
        if lawful::<DS>() {
            lemma_resolved_admits_copied(*ds, resolve_target_spec(first.target, existing@)->0, resolved_first, *value, existing@);
        }
    }
    if !target_ok {
        return None;
    }
    let ghost init = initial_bindings(*ds, *stage, *source, *value, existing@);
    let mut bindings: StrMap<BoundValue<DS::N, DS::V>> = StrMap::new();
    let s1 = source.clone();
    proof {
        if lawful::<DS>() {
            assert(cloned(*source, s1));
        }
    }
    bindings.insert(stage.anchor.0.clone(), BoundValue::Node(s1));
    if !existing.contains_key(first.source.0.as_str()) {
        let s2 = source.clone();
        proof {
            if lawful::<DS>() {
                assert(cloned(*source, s2));
            }
        }
        bindings.insert(first.source.0.clone(), BoundValue::Node(s2));
    }
    proof {
        if lawful::<DS>() {
            let b0 = Map::<Seq<char>, BoundValue<DS::N, DS::V>>::empty().insert(stage.anchor.0@, BoundValue::Node(*source));
            let b1 = if existing@.contains_key(first.source.0@) {
                b0
            } else {
                b0.insert(first.source.0@, BoundValue::Node(*source))
            };
            assert(bindings@ =~= b1);
        }
    }
    match &first.target {
        Target::Bind(var) => {
            if !existing.contains_key(var.0.as_str()) && !bindings.contains_key(var.0.as_str()) {
                let bv = binding_of(ds, value);
                bindings.insert(var.0.clone(), bv);
            }
        },
        _ => {},
    }
    proof {
        if lawful::<DS>() {
            assert(bindings@ =~= init);
        }
    }
    let event_time = interval.start;
    let mut merged = merge_bindings(existing, &bindings);
    let ghost m0 = existing@.union_prefer_right(init);
    proof {
        if lawful::<DS>() {
            assert(merged@.dom() =~= m0.dom());
            assert forall|k: Seq<char>| #[trigger] merged@.contains_key(k) implies merged@[k] == m0[k] by {
                if bindings@.contains_key(k) {
                    lemma_bound_value_clone_exact(bindings@[k], merged@[k]);
                } else {
                    lemma_bound_value_clone_exact(existing@[k], merged@[k]);
                }
            }
            assert(merged@ =~= m0);
        }
    }
    let mut ci: usize = 1;
    while ci < stage.clauses.len()
        invariant
            1 <= ci <= stage.clauses@.len(),
            lawful::<DS>() ==> submap_of(init, bindings@),
            lawful::<DS>() && ci == 1 ==> bindings@ == init,
            forall|k: Seq<char>| #[trigger] bindings@.contains_key(k) ==> merged@.contains_key(k),
            init == initial_bindings(*ds, *stage, *source, *value, existing@),
            m0 == existing@.union_prefer_right(init),
            event_time == interval.start,
            lawful::<DS>() ==> clauses_from(*ds, *stage, ci as int, bindings@, merged@, event_time) == clauses_from(
                *ds,
                *stage,
                1,
                init,
                m0,
                event_time,
            ),
            lawful::<DS>() ==> merged@ == existing@.union_prefer_right(bindings@),
        decreases stage.clauses@.len() - ci,
    {
        let ghost b_prev = bindings@;
        let ghost m_prev = merged@;
        if !check_clause(ds, stage, ci, &mut bindings, &mut merged, event_time) {
            proof {
                if lawful::<DS>() {
                    assert(clauses_from(*ds, *stage, 1, init, m0, event_time) is None);
                }
            }
            return None;
        }
        proof {
            assert forall|k: Seq<char>| #[trigger] bindings@.contains_key(k) implies merged@.contains_key(k) by {
                if b_prev.contains_key(k) {
                    assert(m_prev.contains_key(k));
                }
            }
            if lawful::<DS>() {
                assert forall|k: Seq<char>| #[trigger] init.contains_key(k) implies bindings@.contains_key(k) && bindings@[k] == init[k] by {
                    assert(b_prev.contains_key(k));
                }
                let u = existing@.union_prefer_right(bindings@);
                assert forall|k: Seq<char>| #[trigger] merged@.contains_key(k) == u.contains_key(k) by {
                    if b_prev.contains_key(k) {
                        assert(bindings@.contains_key(k));
                    }
                }
                assert forall|k: Seq<char>| #[trigger] merged@.contains_key(k) implies merged@[k] == u[k] by {
                    if m_prev.contains_key(k) {
                        if b_prev.contains_key(k) {
                            assert(bindings@[k] == b_prev[k]);
                        } else if bindings@.contains_key(k) {
                            assert(false);
                        }
                    }
                }
                assert(merged@ =~= u);
            }
        }
        ci = ci + 1;
    }
    proof {
        if lawful::<DS>() {
            lemma_clauses_done(*ds, *stage, ci as int, bindings@, merged@, event_time);
        }
    }
    proof {
        if lawful::<DS>() {
            assert(stage_bindings(*ds, *stage, *source, *label, *value, *interval, existing@) is Some);
        }
    }
    let mut intervals: StrMap<Interval<i64>> = StrMap::new();
    intervals.insert(stage.anchor.0.clone(), *interval);
    proof {
        assert(intervals@ =~= single_interval(stage.anchor.0@, *interval));
    }
    let ghost merged_before = merged@;
    let ghost full = lawful::<DS>() && evaluator.obeys_evaluate_spec();
    proof {
        if lawful::<DS>() {
            assert(stage_bindings(*ds, *stage, *source, *label, *value, *interval, existing@) == Some(bindings@));
            assert(merged_before == existing@.union_prefer_right(bindings@));
            if stage.let_bindings@.len() == 0 {
                lemma_no_lets(*evaluator, *stage, bindings@, merged_before);
            }
        }
    }
    if !eval_stage_lets(stage, &mut merged, evaluator) {
        return None;
    }
    let ghost b_before = bindings@;
    let mut li: usize = 0;
    while li < stage.let_bindings.len()
        invariant
            li == 0 ==> bindings@ == b_before,
            li <= stage.let_bindings@.len(),
            let_names(*stage).len() == stage.let_bindings@.len(),
            lawful::<DS>() ==> submap_of(init, bindings@),
            lawful::<DS>() ==> forall|k: Seq<char>| #[trigger] init.contains_key(k) ==> merged_before.contains_key(k),
            forall|i: int| 0 <= i < let_names(*stage).len() ==> !merged_before.contains_key(#[trigger] let_names(*stage)[i]),
            forall|k: Seq<char>| #[trigger] bindings@.contains_key(k) ==> merged_before.contains_key(k) || let_names(*stage).contains(k),
            forall|i: int| 0 <= i < let_names(*stage).len() ==> #[trigger] merged@.contains_key(let_names(*stage)[i]),
            forall|i: int| 0 <= i < li ==> #[trigger] bindings@.contains_key(let_names(*stage)[i]),
            forall|k: Seq<char>| #[trigger] b_before.contains_key(k) ==> merged_before.contains_key(k),
            full ==> lawful::<DS>(),
            full ==> forall|k: Seq<char>|
                #[trigger] bindings@.contains_key(k) == (b_before.contains_key(k) || exists|j: int|
                    0 <= j < li && let_names(*stage)[j] == k),
            full ==> forall|k: Seq<char>|
                #[trigger] bindings@.contains_key(k) ==> bindings@[k] == if b_before.contains_key(k) {
                    b_before[k]
                } else {
                    merged@[k]
                },
        decreases stage.let_bindings@.len() - li,
    {
        let cb = &stage.let_bindings[li];
        proof {
            assert(let_names(*stage)[li as int] == cb.name@);
        }
        let ghost bprev = bindings@;
        match merged.get(cb.name.as_str()) {
            Some(bv) => {
                let c = bv.clone();
                proof {
                    assert(!merged_before.contains_key(let_names(*stage)[li as int]));
                    if full {
                        lemma_bound_value_clone_exact(*bv, c);
                    }
                }
                bindings.insert(cb.name.clone(), c);
            },
            None => {},
        }
        proof {
            if full {
                assert forall|k: Seq<char>| #[trigger] bindings@.contains_key(k) == (b_before.contains_key(k) || exists|j: int|
                    0 <= j < li + 1 && let_names(*stage)[j] == k) by {
                    if exists|j: int| 0 <= j < li + 1 && let_names(*stage)[j] == k {
                        let j = choose|j: int| 0 <= j < li + 1 && let_names(*stage)[j] == k;
                        if j < li {
                            assert(bprev.contains_key(k));
                        }
                    }
                    if bindings@.contains_key(k) && k != cb.name@ {
                        assert(bprev.contains_key(k));
                    }
                }
                assert(!b_before.contains_key(cb.name@));
            }
        }
        li = li + 1;
    }
    proof {
        if full {
            let names = let_names(*stage);
            let m = merged@;
            let w = with_lets(b_before, m, *stage);
            assert forall|k: Seq<char>| #[trigger] bindings@.contains_key(k) == w.contains_key(k) by {
                if names.contains(k) {
                    let j = choose|j: int| 0 <= j < names.len() && names[j] == k;
                    assert(m.contains_key(names[j]));
                    assert(let_name_set(*stage).contains(k));
                }
                if exists|j: int| 0 <= j < li && names[j] == k {
                    let j = choose|j: int| 0 <= j < li && names[j] == k;
                    assert(names.contains(k));
                }
            }
            assert forall|k: Seq<char>| #[trigger] bindings@.contains_key(k) implies bindings@[k] == w[k] by {
                if b_before.contains_key(k) {
                    assert(merged_before.contains_key(k));
                    if names.contains(k) {
                        let j = choose|j: int| 0 <= j < names.len() && names[j] == k;
                        assert(!merged_before.contains_key(names[j]));
                    }
                }
            }
            assert(bindings@ =~= w);
        }
    }
    let mut out: Vec<MatchCandidate<DS::N, DS::V>> = Vec::new();
    out.push((bindings, intervals));
    Some(out)
}

/// The views of a candidate.
pub open spec fn candidate_view<N, V>(c: MatchCandidate<N, V>) -> (BindingMap<N, V>, Map<Seq<char>, Interval<i64>>) {
    (c.0@, c.1@)
}

/// Candidate `c` for a stage was found from edge `e` of the graph for the
/// stage's first clause: its interval is the edge's; if the clause's source
/// was bound to a node, `e` is an edge from it with the clause's label,
/// active at `now`, whose target the clause admits; if the source was
/// unbound, `e` came from a scan and its source is bound to the clause's
/// source and to the stage anchor.
pub open spec fn edge_witness<DS: DataSource>(
    ds: DS,
    stage: Stage<DS::L, DS::V>,
    existing: BindingMap<DS::N, DS::V>,
    now: i64,
    c: (BindingMap<DS::N, DS::V>, Map<Seq<char>, Interval<i64>>),
    e: Edge<DS::N, DS::V, i64>,
) -> bool {
    let first = stage.clauses@[0];
    &&& c.1 == single_interval(stage.anchor.0@, e.interval)
    &&& match node_of(existing, first.source.0@) {
        Some(n) => ds.edges_from_spec(n, first.label, now).contains(e) && (lawful::<DS>() ==> target_admits(
            ds,
            first.target,
            e.target,
            existing,
        )),
        None => !existing.contains_key(first.source.0@) && (lawful::<DS>() ==> c.0.contains_key(first.source.0@)
            && c.0[first.source.0@] == BoundValue::<DS::N, DS::V>::Node(e.source) && c.0.contains_key(stage.anchor.0@)
            && c.0[stage.anchor.0@] == BoundValue::<DS::N, DS::V>::Node(e.source)),
    }
}

/// Some edge of the graph witnesses candidate `c` (see `edge_witness`).
pub open spec fn witnessed<DS: DataSource>(
    ds: DS,
    stage: Stage<DS::L, DS::V>,
    existing: BindingMap<DS::N, DS::V>,
    now: i64,
    c: MatchCandidate<DS::N, DS::V>,
) -> bool {
    exists|e: Edge<DS::N, DS::V, i64>| #[trigger] edge_witness(ds, stage, existing, now, candidate_view(c), e)
}

/// Every candidate of `cs` is witnessed by an edge of the graph.
pub open spec fn all_witnessed<DS: DataSource>(
    ds: DS,
    stage: Stage<DS::L, DS::V>,
    existing: BindingMap<DS::N, DS::V>,
    now: i64,
    cs: Seq<MatchCandidate<DS::N, DS::V>>,
) -> bool {
    forall|i: int| 0 <= i < cs.len() ==> witnessed(ds, stage, existing, now, #[trigger] cs[i])
}

/// The constraint a first clause scans with: its resolved literal as an
/// equality, its resolved constraint, or any value for a variable.
pub open spec fn scan_constraint_spec<N, V>(t: Target<V>, b: BindingMap<N, V>) -> ValueConstraint<V> {
    match resolve_target_spec(t, b) {
        Some(Target::Literal(v)) => ValueConstraint::Eq(v),
        Some(Target::Constraint(c)) => c,
        _ => ValueConstraint::Any,
    }
}

/// The edges a stage's first clause is matched against in batch mode: those
/// from its bound source, or a scan of its label when the source is unbound.
pub open spec fn first_edges<DS: DataSource>(
    ds: DS,
    stage: Stage<DS::L, DS::V>,
    existing: BindingMap<DS::N, DS::V>,
    now: i64,
) -> Seq<Edge<DS::N, DS::V, i64>> {
    if stage.clauses@.len() == 0 || resolve_target_spec(stage.clauses@[0].target, existing) is None {
        Seq::empty()
    } else {
        let first = stage.clauses@[0];
        if existing.contains_key(first.source.0@) {
            match existing[first.source.0@] {
                BoundValue::Node(n) => ds.edges_from_spec(n, first.label, now),
                BoundValue::Value(_) => Seq::empty(),
            }
        } else {
            ds.scan_spec(first.label, scan_constraint_spec(first.target, existing), now)
        }
    }
}

/// The bindings a first-clause edge starts a candidate with, if the edge is
/// admitted: from a bound source, the target must be admitted and binds
/// its variable; from a scan, the source and the anchor are bound to the
/// edge's source, and a target variable must agree with them or is bound.
pub open spec fn first_bindings<DS: DataSource>(
    ds: DS,
    stage: Stage<DS::L, DS::V>,
    existing: BindingMap<DS::N, DS::V>,
    e: Edge<DS::N, DS::V, i64>,
) -> Option<BindingMap<DS::N, DS::V>> {
    let first = stage.clauses@[0];
    if existing.contains_key(first.source.0@) {
        if resolved_admits(ds, resolve_target_spec(first.target, existing)->0, e.target, existing) {
            match first.target {
                Target::Bind(var) => Some(Map::empty().insert(var.0@, binding_for(ds, e.target))),
                _ => Some(Map::empty()),
            }
        } else {
            None
        }
    } else {
        let b = Map::<Seq<char>, BoundValue<DS::N, DS::V>>::empty().insert(first.source.0@, BoundValue::Node(e.source)).insert(
            stage.anchor.0@,
            BoundValue::Node(e.source),
        );
        match first.target {
            Target::Bind(var) => if b.contains_key(var.0@) {
                if bound_matches(ds, b[var.0@], e.target) {
                    Some(b)
                } else {
                    None
                }
            } else {
                Some(b.insert(var.0@, binding_for(ds, e.target)))
            },
            _ => Some(b),
        }
    }
}

/// The candidate a first-clause edge starts: its bindings and the stage's
/// interval, the edge's.
pub open spec fn first_candidate_fn<DS: DataSource>(
    ds: DS,
    stage: Stage<DS::L, DS::V>,
    existing: BindingMap<DS::N, DS::V>,
) -> spec_fn(Edge<DS::N, DS::V, i64>) -> Option<(BindingMap<DS::N, DS::V>, Map<Seq<char>, Interval<i64>>)> {
    |e: Edge<DS::N, DS::V, i64>|
        match first_bindings(ds, stage, existing, e) {
            Some(b) => Some((b, single_interval(stage.anchor.0@, e.interval))),
            None => None,
        }
}

/// A candidate completed by the stage's other clauses (see
/// `batch_clauses_from`), or `None` if one fails.
pub open spec fn complete_fn<DS: DataSource>(
    ds: DS,
    stage: Stage<DS::L, DS::V>,
    existing: BindingMap<DS::N, DS::V>,
    now: i64,
) -> spec_fn((BindingMap<DS::N, DS::V>, Map<Seq<char>, Interval<i64>>)) -> Option<
    (BindingMap<DS::N, DS::V>, Map<Seq<char>, Interval<i64>>),
> {
    |c: (BindingMap<DS::N, DS::V>, Map<Seq<char>, Interval<i64>>)|
        match batch_clauses_from(ds, stage, 1, c.0, existing.union_prefer_right(c.0), now) {
            Some(bf) => Some((bf, c.1)),
            None => None,
        }
}

/// A candidate completed by the stage's other clauses and then by its `let`
/// bindings, evaluated by `e`; `None` if a clause or a `let` fails.
pub open spec fn complete_lets_fn<DS: DataSource, E: LetEvaluator<DS::N, DS::V>>(
    ds: DS,
    stage: Stage<DS::L, DS::V>,
    existing: BindingMap<DS::N, DS::V>,
    now: i64,
    e: E,
) -> spec_fn((BindingMap<DS::N, DS::V>, Map<Seq<char>, Interval<i64>>)) -> Option<
    (BindingMap<DS::N, DS::V>, Map<Seq<char>, Interval<i64>>),
> {
    |c: (BindingMap<DS::N, DS::V>, Map<Seq<char>, Interval<i64>>)|
        match batch_clauses_from(ds, stage, 1, c.0, existing.union_prefer_right(c.0), now) {
            Some(bf) => match stage_lets_result(e, stage, existing.union_prefer_right(bf)) {
                Some(m) => Some((with_lets(bf, m, stage), c.1)),
                None => None,
            },
            None => None,
        }
}

/// The matches of a stage in batch mode, its `let` bindings evaluated by
/// `e`, in the order of the first clause's edges.
pub open spec fn stage_matches_lets<DS: DataSource, E: LetEvaluator<DS::N, DS::V>>(
    ds: DS,
    stage: Stage<DS::L, DS::V>,
    existing: BindingMap<DS::N, DS::V>,
    now: i64,
    e: E,
) -> Seq<(BindingMap<DS::N, DS::V>, Map<Seq<char>, Interval<i64>>)> {
    first_edges(ds, stage, existing, now).filter_map(first_candidate_fn(ds, stage, existing)).filter_map(
        complete_lets_fn(ds, stage, existing, now, e),
    )
}

/// The matches of a let-free stage in batch mode, in the order of the
/// first clause's edges: each admitted edge starts a candidate, which the
/// other clauses complete or reject.
pub open spec fn stage_matches_spec<DS: DataSource>(
    ds: DS,
    stage: Stage<DS::L, DS::V>,
    existing: BindingMap<DS::N, DS::V>,
    now: i64,
) -> Seq<(BindingMap<DS::N, DS::V>, Map<Seq<char>, Interval<i64>>)> {
    first_edges(ds, stage, existing, now).filter_map(first_candidate_fn(ds, stage, existing)).filter_map(
        complete_fn(ds, stage, existing, now),
    )
}

/// The views of the candidates.
pub open spec fn candidate_views<N, V>(cs: Seq<MatchCandidate<N, V>>) -> Seq<
    (BindingMap<N, V>, Map<Seq<char>, Interval<i64>>),
> {
    cs.map_values(|c: MatchCandidate<N, V>| candidate_view(c))
}

pub proof fn lemma_views_push<N, V>(cs: Seq<MatchCandidate<N, V>>, c: MatchCandidate<N, V>)
    ensures
        candidate_views(cs.push(c)) == candidate_views(cs).push(candidate_view(c)),
{
    assert(candidate_views(cs.push(c)) =~= candidate_views(cs).push(candidate_view(c)));
}

/// A copy of a single-value constraint equals it when values clone exactly.
proof fn lemma_single_copy_exact<V: PartialOrd + Clone>(a: ValueConstraint<V>, b: ValueConstraint<V>)
    requires
        crate::datasource::clone_exact::<V>(),
        a.copied_to(b),
        a is Eq || a is Lt || a is Gt || a is Lte || a is Gte,
    ensures
        a == b,
{
    match (a, b) {
        (ValueConstraint::Eq(x), ValueConstraint::Eq(y)) => assert(cloned(x, y)),
        (ValueConstraint::Lt(x), ValueConstraint::Lt(y)) => assert(cloned(x, y)),
        (ValueConstraint::Gt(x), ValueConstraint::Gt(y)) => assert(cloned(x, y)),
        (ValueConstraint::Lte(x), ValueConstraint::Lte(y)) => assert(cloned(x, y)),
        (ValueConstraint::Gte(x), ValueConstraint::Gte(y)) => assert(cloned(x, y)),
        _ => {},
    }
}

/// Scan the label of a stage's first clause whose source is unbound, with
/// the clause's resolved target as the constraint.
fn scan_first<DS: DataSource>(
    ds: &DS,
    stage: &Stage<DS::L, DS::V>,
    existing: &StrMap<BoundValue<DS::N, DS::V>>,
    resolved_first: &Target<DS::V>,
    now: &i64,
) -> (r: Vec<Edge<DS::N, DS::V, i64>>)
    requires
        stage.clauses@.len() > 0,
        resolve_target_spec(stage.clauses@[0].target, existing@) is Some,
        resolve_target_spec(stage.clauses@[0].target, existing@)->0.copied_to(*resolved_first),
    ensures
        lawful::<DS>() ==> r@ == ds.scan_spec(stage.clauses@[0].label, scan_constraint_spec(stage.clauses@[0].target, existing@), *now),
{
    let first = &stage.clauses[0];
    match &first.target {
        Target::Constraint(c) => {
            if c.is_var() {
                match resolved_first {
                    Target::Constraint(k) => {
                        proof {
                            if lawful::<DS>() {
                                let sk = resolve_spec(*c, existing@)->0;
                                lemma_single_copy_exact(sk, *k);
                            }
                        }
                        ds.scan(&first.label, k, now)
                    },
                    _ => Vec::new(),
                }
            } else {
                ds.scan(&first.label, c, now)
            }
        },
        Target::Literal(v) => {
            let w = v.clone();
            proof {
                if lawful::<DS>() {
                    assert(cloned(*v, w));
                }
            }
            let k = ValueConstraint::Eq(w);
            ds.scan(&first.label, &k, now)
        },
        Target::Bind(_) => {
            let k = ValueConstraint::Any;
            ds.scan(&first.label, &k, now)
        },
    }
}

/// Find every way a stage matches in the graph at time `now`, given the
/// bindings so far: the first clause is matched against the edges from its
/// bound source (or, when its source is unbound, against a scan of its
/// label), every further clause must then hold (binding an unbound target
/// variable to the first edge with the clause's label), and the stage's
/// `let` bindings must evaluate. Returns each match's new bindings and the
/// stage's interval.
pub fn find_stage_matches<DS: DataSource, E: LetEvaluator<DS::N, DS::V>>(
    ds: &DS,
    stage: &Stage<DS::L, DS::V>,
    existing: &StrMap<BoundValue<DS::N, DS::V>>,
    now: &i64,
    evaluator: &E,
) -> (r: Vec<MatchCandidate<DS::N, DS::V>>)
    ensures
        stage.clauses@.len() == 0 ==> r@.len() == 0,
        all_witnessed(*ds, *stage, existing@, *now, r@),
        forall|i: int, j: int|
            0 <= i < r@.len() && 0 <= j < let_names(*stage).len() ==> #[trigger] r@[i].0@.contains_key(
                #[trigger] let_names(*stage)[j],
            ),
        lawful::<DS>() && stage.let_bindings@.len() == 0 ==> candidate_views(r@) == stage_matches_spec(
            *ds,
            *stage,
            existing@,
            *now,
        ),
        lawful::<DS>() && (stage.let_bindings@.len() == 0 || evaluator.obeys_evaluate_spec()) ==> candidate_views(r@) == stage_matches_lets(
            *ds,
            *stage,
            existing@,
            *now,
            *evaluator,
        ),
{
    let mut result: Vec<MatchCandidate<DS::N, DS::V>> = Vec::new();
    let ghost fe = first_edges(*ds, *stage, existing@, *now);
    let ghost ff = first_candidate_fn(*ds, *stage, existing@);
    let ghost cf = complete_fn(*ds, *stage, existing@, *now);
    let ghost lf = complete_lets_fn(*ds, *stage, existing@, *now, *evaluator);
    if stage.clauses.len() == 0 {
        proof {
            assert(candidate_views(result@) =~= stage_matches_spec(*ds, *stage, existing@, *now));
            assert(candidate_views(result@) =~= stage_matches_lets(*ds, *stage, existing@, *now, *evaluator));
        }
        return result;
    }
    let first = &stage.clauses[0];
    let resolved_first = match resolve_target(&first.target, existing) {
        Some(t) => t,
        None => {
            proof {
                assert(candidate_views(result@) =~= stage_matches_spec(*ds, *stage, existing@, *now));
                assert(candidate_views(result@) =~= stage_matches_lets(*ds, *stage, existing@, *now, *evaluator));
            }
            return result;
        },
    };
    let mut candidates: Vec<MatchCandidate<DS::N, DS::V>> = Vec::new();
    let ghost mut ws: Seq<Edge<DS::N, DS::V, i64>> = Seq::empty();
    match existing.get(first.source.0.as_str()) {
        Some(bound) => {
            match bound {
                BoundValue::Node(node) => {
                    let edges = ds.edges_from(node, &first.label, now);
                    let mut j: usize = 0;
                    while j < edges.len()
                        invariant
                            j <= edges@.len(),
                            stage.clauses@.len() > 0,
                            edges@ == ds.edges_from_spec(*node, first.label, *now),
                            node_of(existing@, first.source.0@) == Some(*node),
                            existing@.contains_key(first.source.0@),
                            *first == stage.clauses@[0],
                            resolve_target_spec(first.target, existing@) is Some,
                            resolve_target_spec(first.target, existing@)->0.copied_to(resolved_first),
                            ff == first_candidate_fn(*ds, *stage, existing@),
                            lawful::<DS>() ==> candidate_views(candidates@) == edges@.take(j as int).filter_map(ff),
                            ws.len() == candidates@.len(),
                            forall|i: int|
                                0 <= i < candidates@.len() ==> #[trigger] edge_witness(
                                    *ds,
                                    *stage,
                                    existing@,
                                    *now,
                                    candidate_view(candidates@[i]),
                                    ws[i],
                                ),
                        decreases edges@.len() - j,
                    {
                        let e = &edges[j];
                        proof {
                            edges@.lemma_filter_map_take_succ(ff, j as int);
                        }
                        let ok = crate::matching::resolved_matches(ds, &resolved_first, &e.target, existing);
                        proof {
                            if lawful::<DS>() {
                                lemma_resolved_admits_copied(
                                    *ds,
                                    resolve_target_spec(first.target, existing@)->0,
                                    resolved_first,
                                    e.target,
                                    existing@,
                                );
                            }
                        }
                        if ok {
                            let mut b: StrMap<BoundValue<DS::N, DS::V>> = StrMap::new();
                            let ghost b_empty = b@;
                            if bind_target(ds, &first.target, &e.target, &mut b) {
                                let mut iv: StrMap<Interval<i64>> = StrMap::new();
                                iv.insert(stage.anchor.0.clone(), e.interval);
                                proof {
                                    assert(iv@ =~= single_interval(stage.anchor.0@, e.interval));
                                    assert(edges@.contains(edges@[j as int]));
                                    assert(edge_witness(*ds, *stage, existing@, *now, (b@, iv@), edges@[j as int]));
                                    ws = ws.push(edges@[j as int]);
                                    lemma_views_push(candidates@, (b, iv));
                                    if lawful::<DS>() {
                                        assert(b_empty =~= Map::<Seq<char>, BoundValue<DS::N, DS::V>>::empty());
                                        assert(b@ == first_bindings(*ds, *stage, existing@, edges@[j as int])->0);
                                    }
                                }
                                candidates.push((b, iv));
                            }
                        }
                        j = j + 1;
                    }
                    proof {
                        assert(edges@.take(edges@.len() as int) =~= edges@);
                    }
                },
                BoundValue::Value(_) => {},
            }
        },
        None => {
            let edges = scan_first(ds, stage, existing, &resolved_first, now);
            let mut j: usize = 0;
            while j < edges.len()
                invariant
                    j <= edges@.len(),
                    stage.clauses@.len() > 0,
                    !existing@.contains_key(first.source.0@),
                    *first == stage.clauses@[0],
                    ff == first_candidate_fn(*ds, *stage, existing@),
                    lawful::<DS>() ==> candidate_views(candidates@) == edges@.take(j as int).filter_map(ff),
                    ws.len() == candidates@.len(),
                    forall|i: int|
                        0 <= i < candidates@.len() ==> #[trigger] edge_witness(
                            *ds,
                            *stage,
                            existing@,
                            *now,
                            candidate_view(candidates@[i]),
                            ws[i],
                        ),
                decreases edges@.len() - j,
            {
                let e = &edges[j];
                proof {
                    edges@.lemma_filter_map_take_succ(ff, j as int);
                }
                let mut b: StrMap<BoundValue<DS::N, DS::V>> = StrMap::new();
                let s1 = e.source.clone();
                let s2 = e.source.clone();
                proof {
                    if lawful::<DS>() {
                        assert(cloned(e.source, s1));
                        assert(cloned(e.source, s2));
                    }
                }
                b.insert(first.source.0.clone(), BoundValue::Node(s1));
                b.insert(stage.anchor.0.clone(), BoundValue::Node(s2));
                let ghost b_mid = b@;
                proof {
                    if lawful::<DS>() {
                        assert(b_mid =~= Map::<Seq<char>, BoundValue<DS::N, DS::V>>::empty().insert(
                            first.source.0@,
                            BoundValue::Node(e.source),
                        ).insert(stage.anchor.0@, BoundValue::Node(e.source)));
                    }
                }
                if bind_target(ds, &first.target, &e.target, &mut b) {
                    let mut iv: StrMap<Interval<i64>> = StrMap::new();
                    iv.insert(stage.anchor.0.clone(), e.interval);
                    proof {
                        assert(iv@ =~= single_interval(stage.anchor.0@, e.interval));
                        assert(b_mid.contains_key(first.source.0@));
                        assert(b_mid.contains_key(stage.anchor.0@));
                        assert(edge_witness(*ds, *stage, existing@, *now, (b@, iv@), edges@[j as int]));
                        ws = ws.push(edges@[j as int]);
                        lemma_views_push(candidates@, (b, iv));
                    }
                    candidates.push((b, iv));
                }
                j = j + 1;
            }
            proof {
                assert(edges@.take(edges@.len() as int) =~= edges@);
            }
        },
    }
    proof {
        if lawful::<DS>() {
            assert(candidate_views(candidates@) == fe.filter_map(ff));
        }
    }
    let ghost rws: Seq<Edge<DS::N, DS::V, i64>> = Seq::empty();
    let ghost cvs = candidate_views(candidates@);
    let mut ci: usize = 0;
    while ci < candidates.len()
        invariant
            ci <= candidates@.len(),
            stage.clauses@.len() > 0,
            cvs == candidate_views(candidates@),
            cf == complete_fn(*ds, *stage, existing@, *now),
            lawful::<DS>() && stage.let_bindings@.len() == 0 ==> candidate_views(result@) == cvs.take(ci as int).filter_map(cf),
            lf == complete_lets_fn(*ds, *stage, existing@, *now, *evaluator),
            lawful::<DS>() && (stage.let_bindings@.len() == 0 || evaluator.obeys_evaluate_spec()) ==> candidate_views(result@) == cvs.take(ci as int).filter_map(lf),
            ws.len() == candidates@.len(),
            forall|i: int|
                0 <= i < candidates@.len() ==> #[trigger] edge_witness(
                    *ds,
                    *stage,
                    existing@,
                    *now,
                    candidate_view(candidates@[i]),
                    ws[i],
                ),
            rws.len() == result@.len(),
            forall|i: int|
                0 <= i < result@.len() ==> #[trigger] edge_witness(
                    *ds,
                    *stage,
                    existing@,
                    *now,
                    candidate_view(result@[i]),
                    rws[i],
                ),
            forall|i: int, j: int|
                0 <= i < result@.len() && 0 <= j < let_names(*stage).len() ==> #[trigger] result@[i].0@.contains_key(
                    #[trigger] let_names(*stage)[j],
                ),
        decreases candidates@.len() - ci,
    {
        proof {
            cvs.lemma_filter_map_take_succ(cf, ci as int);
            cvs.lemma_filter_map_take_succ(lf, ci as int);
            assert(cvs[ci as int] == candidate_view(candidates@[ci as int]));
        }
        match complete_candidate(ds, stage, existing, now, evaluator, &candidates[ci].0, &candidates[ci].1) {
            Some(c) => {
                proof {
                    let w = ws[ci as int];
                    assert(edge_witness(*ds, *stage, existing@, *now, candidate_view(candidates@[ci as int]), w));
                    assert(edge_witness(*ds, *stage, existing@, *now, candidate_view(c), w));
                    rws = rws.push(w);
                    lemma_views_push(result@, c);
                }
                result.push(c);
            },
            None => {},
        }
        ci = ci + 1;
    }
    proof {
        assert(cvs.take(cvs.len() as int) =~= cvs);
        assert forall|i: int| 0 <= i < result@.len() implies witnessed(*ds, *stage, existing@, *now, #[trigger] result@[i]) by {
            assert(edge_witness(*ds, *stage, existing@, *now, candidate_view(result@[i]), rws[i]));
        }
        assert forall|i: int, j: int|
            0 <= i < result@.len() && 0 <= j < let_names(*stage).len() implies #[trigger] result@[i].0@.contains_key(
                #[trigger] let_names(*stage)[j],
            ) by {
        }
    }
    result
}

/// A copy of an interval table.
pub fn copy_intervals(m: &StrMap<Interval<i64>>) -> (r: StrMap<Interval<i64>>)
    ensures
        r@ == m@,
{
    let n = m.len();
    let mut r: StrMap<Interval<i64>> = StrMap::new();
    let mut i: usize = 0;
    while i < n
        invariant
            n == m.entries().len(),
            i <= n,
            m@ == crate::strmap::map_of(m.entries()),
            forall|k: Seq<char>|
                #[trigger] r@.contains_key(k) == exists|j: int| 0 <= j < i && (#[trigger] m.entries()[j]).0@ == k,
            forall|k: Seq<char>| #[trigger] r@.contains_key(k) ==> m@.contains_key(k) && r@[k] == m@[k],
        decreases n - i,
    {
        let (k, v) = m.entry_at(i);
        r.insert(k.clone(), *v);
        proof {
            assert forall|k2: Seq<char>|
                #[trigger] r@.contains_key(k2) == exists|j: int| 0 <= j < i + 1 && (#[trigger] m.entries()[j]).0@ == k2 by {
                if exists|j: int| 0 <= j < i + 1 && (#[trigger] m.entries()[j]).0@ == k2 {
                    let j = choose|j: int| 0 <= j < i + 1 && (#[trigger] m.entries()[j]).0@ == k2;
                    if j < i {
                    }
                }
            }
        }
        i = i + 1;
    }
    proof {
        assert forall|k: Seq<char>| #[trigger] m@.contains_key(k) implies r@.contains_key(k) by {
            let j = crate::strmap::pos_of(m.entries(), k);
            assert(m.entries()[j].0@ == k);
        }
        assert(r@ =~= m@);
    }
    r
}

/// Checking the clauses of `stage` from position `ci` on in the graph at
/// time `now`, with the candidate's bindings `b` and all bindings `m` so
/// far: each clause must hold; a clause whose target variable is unbound
/// binds it to the target of the first edge with the clause's label from
/// its source. The candidate's bindings at the end, or `None` if a clause
/// fails.
#[verifier::opaque]
pub open spec fn batch_clauses_from<DS: DataSource>(
    ds: DS,
    stage: Stage<DS::L, DS::V>,
    ci: int,
    b: BindingMap<DS::N, DS::V>,
    m: BindingMap<DS::N, DS::V>,
    now: i64,
) -> Option<BindingMap<DS::N, DS::V>>
    decreases stage.clauses@.len() - ci,
{
    if ci < 0 || ci >= stage.clauses@.len() {
        Some(b)
    } else {
        let c = stage.clauses@[ci];
        if !clause_holds(ds, c, m, now) {
            None
        } else {
            match c.target {
                Target::Bind(var) => if !m.contains_key(var.0@) {
                    match node_of(m, c.source.0@) {
                        Some(src) => {
                            let edges = ds.edges_from_spec(src, c.label, now);
                            if edges.len() > 0 {
                                let bv = binding_for(ds, edges[0].target);
                                batch_clauses_from(ds, stage, ci + 1, b.insert(var.0@, bv), m.insert(var.0@, bv), now)
                            } else {
                                batch_clauses_from(ds, stage, ci + 1, b, m, now)
                            }
                        },
                        None => batch_clauses_from(ds, stage, ci + 1, b, m, now),
                    }
                } else {
                    batch_clauses_from(ds, stage, ci + 1, b, m, now)
                },
                _ => batch_clauses_from(ds, stage, ci + 1, b, m, now),
            }
        }
    }
}

proof fn lemma_batch_clauses_done<DS: DataSource>(
    ds: DS,
    stage: Stage<DS::L, DS::V>,
    ci: int,
    b: BindingMap<DS::N, DS::V>,
    m: BindingMap<DS::N, DS::V>,
    now: i64,
)
    requires
        ci >= stage.clauses@.len(),
    ensures
        batch_clauses_from(ds, stage, ci, b, m, now) == Some(b),
{
    reveal(batch_clauses_from);
}

/// Check clause `ci` of a stage for a batch candidate (see
/// `batch_clauses_from`).
fn check_batch_clause<DS: DataSource>(
    ds: &DS,
    stage: &Stage<DS::L, DS::V>,
    ci: usize,
    b: &mut StrMap<BoundValue<DS::N, DS::V>>,
    merged: &mut StrMap<BoundValue<DS::N, DS::V>>,
    now: &i64,
) -> (ok: bool)
    requires
        1 <= ci < stage.clauses@.len(),
        forall|k: Seq<char>| #[trigger] old(b)@.contains_key(k) ==> old(merged)@.contains_key(k),
    ensures
        forall|k: Seq<char>|
            #[trigger] final(merged)@.contains_key(k) == (old(merged)@.contains_key(k) || (final(b)@.contains_key(k)
                && !old(b)@.contains_key(k))),
        forall|k: Seq<char>|
            #[trigger] old(b)@.contains_key(k) ==> final(b)@.contains_key(k) && final(b)@[k] == old(b)@[k],
        forall|k: Seq<char>| #[trigger] final(b)@.contains_key(k) ==> old(b)@.contains_key(k) || !old(merged)@.contains_key(k),
        forall|k: Seq<char>| #[trigger] old(merged)@.contains_key(k) ==> final(merged)@[k] == old(merged)@[k],
        lawful::<DS>() ==> forall|k: Seq<char>|
            #[trigger] final(b)@.contains_key(k) && !old(b)@.contains_key(k) ==> final(merged)@[k] == final(b)@[k],
        lawful::<DS>() ==> if ok {
            batch_clauses_from(*ds, *stage, ci as int, old(b)@, old(merged)@, *now) == batch_clauses_from(
                *ds,
                *stage,
                ci + 1,
                final(b)@,
                final(merged)@,
                *now,
            )
        } else {
            batch_clauses_from(*ds, *stage, ci as int, old(b)@, old(merged)@, *now) is None
        },
{
    proof {
        reveal(batch_clauses_from);
    }
    let c = &stage.clauses[ci];
    if !clause_satisfied(ds, c, merged, now) {
        return false;
    }
    match &c.target {
        Target::Bind(var) => {
            if !merged.contains_key(var.0.as_str()) {
                match merged.get(c.source.0.as_str()) {
                    Some(BoundValue::Node(src)) => {
                        let edges = ds.edges_from(src, &c.label, now);
                        if edges.len() > 0 {
                            let bv = binding_of(ds, &edges[0].target);
                            let bv2 = bv.clone();
                            proof {
                                if lawful::<DS>() {
                                    lemma_bound_value_clone_exact(bv, bv2);
                                }
                            }
                            b.insert(var.0.clone(), bv);
                            merged.insert(var.0.clone(), bv2);
                        }
                    },
                    _ => {},
                }
            }
        },
        _ => {},
    }
    true
}

/// Check a stage's clauses after the first for one candidate and evaluate
/// the stage's `let` bindings; the candidate's bindings grow by the target
/// variables and `let` names bound on the way, and keep what they had.
fn complete_candidate<DS: DataSource, E: LetEvaluator<DS::N, DS::V>>(
    ds: &DS,
    stage: &Stage<DS::L, DS::V>,
    existing: &StrMap<BoundValue<DS::N, DS::V>>,
    now: &i64,
    evaluator: &E,
    b0: &StrMap<BoundValue<DS::N, DS::V>>,
    iv: &StrMap<Interval<i64>>,
) -> (r: Option<MatchCandidate<DS::N, DS::V>>)
    requires
        stage.clauses@.len() > 0,
    ensures
        r matches Some(c) ==> {
            &&& c.1@ == iv@
            &&& lawful::<DS>() ==> submap_of(b0@, c.0@)
            &&& forall|j: int| 0 <= j < let_names(*stage).len() ==> #[trigger] c.0@.contains_key(let_names(*stage)[j])
        },
        lawful::<DS>() && stage.let_bindings@.len() == 0 ==> match batch_clauses_from(
            *ds,
            *stage,
            1,
            b0@,
            existing@.union_prefer_right(b0@),
            *now,
        ) {
            Some(bf) => r matches Some(c) && c.0@ == bf,
            None => r is None,
        },
        lawful::<DS>() && (stage.let_bindings@.len() == 0 || evaluator.obeys_evaluate_spec()) ==> match complete_lets_fn(*ds, *stage, existing@, *now, *evaluator)(
            (b0@, iv@),
        ) {
            Some(x) => r matches Some(c) && candidate_view(c) == x,
            None => r is None,
        },
{
    let mut b = b0.duplicate();
    proof {
        if lawful::<DS>() {
            crate::matching::lemma_duplicate_exact(b0@, b@);
        }
    }
    let mut merged = merge_bindings(existing, &b);
    let ghost m0 = existing@.union_prefer_right(b0@);
    proof {
        if lawful::<DS>() {
            assert(merged@.dom() =~= m0.dom());
            assert forall|k: Seq<char>| #[trigger] merged@.contains_key(k) implies merged@[k] == m0[k] by {
                if b@.contains_key(k) {
                    lemma_bound_value_clone_exact(b@[k], merged@[k]);
                } else {
                    lemma_bound_value_clone_exact(existing@[k], merged@[k]);
                }
            }
            assert(merged@ =~= m0);
        }
    }
    let mut ci: usize = 1;
    while ci < stage.clauses.len()
        invariant
            1 <= ci <= stage.clauses@.len(),
            lawful::<DS>() ==> submap_of(b0@, b@),
            forall|k: Seq<char>| #[trigger] b0@.contains_key(k) ==> b@.contains_key(k),
            forall|k: Seq<char>| #[trigger] b@.contains_key(k) ==> merged@.contains_key(k),
            m0 == existing@.union_prefer_right(b0@),
            lawful::<DS>() ==> batch_clauses_from(*ds, *stage, ci as int, b@, merged@, *now) == batch_clauses_from(
                *ds,
                *stage,
                1,
                b0@,
                m0,
                *now,
            ),
            lawful::<DS>() ==> merged@ == existing@.union_prefer_right(b@),
        decreases stage.clauses@.len() - ci,
    {
        let ghost b_prev = b@;
        let ghost m_prev = merged@;
        if !check_batch_clause(ds, stage, ci, &mut b, &mut merged, now) {
            return None;
        }
        proof {
            assert forall|k: Seq<char>| #[trigger] b@.contains_key(k) implies merged@.contains_key(k) by {
                if b_prev.contains_key(k) {
                    assert(m_prev.contains_key(k));
                }
            }
            assert forall|k: Seq<char>| #[trigger] b0@.contains_key(k) implies b@.contains_key(k) by {
                assert(b_prev.contains_key(k));
            }
            if lawful::<DS>() {
                assert forall|k: Seq<char>| #[trigger] b0@.contains_key(k) implies b@.contains_key(k) && b@[k] == b0@[k] by {
                    assert(b_prev.contains_key(k));
                }
                let u = existing@.union_prefer_right(b@);
                assert forall|k: Seq<char>| #[trigger] merged@.contains_key(k) == u.contains_key(k) by {
                    if b_prev.contains_key(k) {
                        assert(b@.contains_key(k));
                    }
                }
                assert forall|k: Seq<char>| #[trigger] merged@.contains_key(k) implies merged@[k] == u[k] by {
                    if m_prev.contains_key(k) {
                        if b_prev.contains_key(k) {
                            assert(b@[k] == b_prev[k]);
                        } else if b@.contains_key(k) {
                            assert(false);
                        }
                    }
                }
                assert(merged@ =~= u);
            }
        }
        ci = ci + 1;
    }
    proof {
        if lawful::<DS>() {
            lemma_batch_clauses_done(*ds, *stage, ci as int, b@, merged@, *now);
        }
    }
    let ghost merged_before = merged@;
    let ghost full = lawful::<DS>() && evaluator.obeys_evaluate_spec();
    proof {
        if lawful::<DS>() {
            assert(batch_clauses_from(*ds, *stage, 1, b0@, existing@.union_prefer_right(b0@), *now) == Some(b@));
            if stage.let_bindings@.len() == 0 {
                lemma_no_lets(*evaluator, *stage, b@, merged_before);
            }
        }
    }
    if !eval_stage_lets(stage, &mut merged, evaluator) {
        return None;
    }
    let ghost b_before = b@;
    let mut li: usize = 0;
    while li < stage.let_bindings.len()
        invariant
            li == 0 ==> b@ == b_before,
            forall|k: Seq<char>| #[trigger] b_before.contains_key(k) ==> merged_before.contains_key(k),
            full ==> lawful::<DS>(),
            full ==> forall|k: Seq<char>|
                #[trigger] b@.contains_key(k) == (b_before.contains_key(k) || exists|j: int|
                    0 <= j < li && let_names(*stage)[j] == k),
            full ==> forall|k: Seq<char>|
                #[trigger] b@.contains_key(k) ==> b@[k] == if b_before.contains_key(k) {
                    b_before[k]
                } else {
                    merged@[k]
                },
            li <= stage.let_bindings@.len(),
            let_names(*stage).len() == stage.let_bindings@.len(),
            lawful::<DS>() ==> submap_of(b0@, b@),
            forall|k: Seq<char>| #[trigger] b0@.contains_key(k) ==> merged_before.contains_key(k),
            forall|i: int| 0 <= i < let_names(*stage).len() ==> !merged_before.contains_key(#[trigger] let_names(*stage)[i]),
            forall|i: int| 0 <= i < let_names(*stage).len() ==> #[trigger] merged@.contains_key(let_names(*stage)[i]),
            forall|i: int| 0 <= i < li ==> #[trigger] b@.contains_key(let_names(*stage)[i]),
        decreases stage.let_bindings@.len() - li,
    {
        let cb = &stage.let_bindings[li];
        proof {
            assert(let_names(*stage)[li as int] == cb.name@);
            assert(!merged_before.contains_key(let_names(*stage)[li as int]));
        }
        let ghost bprev = b@;
        match merged.get(cb.name.as_str()) {
            Some(bv) => {
                let c = bv.clone();
                proof {
                    if full {
                        lemma_bound_value_clone_exact(*bv, c);
                    }
                }
                b.insert(cb.name.clone(), c);
            },
            None => {},
        }
        proof {
            if full {
                assert forall|k: Seq<char>| #[trigger] b@.contains_key(k) == (b_before.contains_key(k) || exists|j: int|
                    0 <= j < li + 1 && let_names(*stage)[j] == k) by {
                    if exists|j: int| 0 <= j < li + 1 && let_names(*stage)[j] == k {
                        let j = choose|j: int| 0 <= j < li + 1 && let_names(*stage)[j] == k;
                        if j < li {
                            assert(bprev.contains_key(k));
                        }
                    }
                    if b@.contains_key(k) && k != cb.name@ {
                        assert(bprev.contains_key(k));
                    }
                }
                assert(!b_before.contains_key(cb.name@));
            }
        }
        li = li + 1;
    }
    proof {
        if full {
            let names = let_names(*stage);
            let m = merged@;
            let w = with_lets(b_before, m, *stage);
            assert forall|k: Seq<char>| #[trigger] b@.contains_key(k) == w.contains_key(k) by {
                if names.contains(k) {
                    let j = choose|j: int| 0 <= j < names.len() && names[j] == k;
                    assert(m.contains_key(names[j]));
                    assert(let_name_set(*stage).contains(k));
                }
                if exists|j: int| 0 <= j < li && names[j] == k {
                    let j = choose|j: int| 0 <= j < li && names[j] == k;
                    assert(names.contains(k));
                }
            }
            assert forall|k: Seq<char>| #[trigger] b@.contains_key(k) implies b@[k] == w[k] by {
                if b_before.contains_key(k) {
                    assert(merged_before.contains_key(k));
                    if names.contains(k) {
                        let j = choose|j: int| 0 <= j < names.len() && names[j] == k;
                        assert(!merged_before.contains_key(names[j]));
                    }
                }
            }
            assert(b@ =~= w);
        }
    }
    let iv2 = copy_intervals(iv);
    Some((b, iv2))
}

} // verus!
