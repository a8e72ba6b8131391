//! Negation windows: "no event matching these clauses between two stages".
//!
//! In batch evaluation a complete candidate is checked against the whole
//! graph; in incremental matching each new edge is checked against the open
//! windows of the active partial matches.

use crate::datasource::{lawful, DataSource, Edge, ValueConstraint};
use crate::interval::Interval;
use crate::matching::{
    bound_matches, lemma_admits_copied, lemma_resolved_admits_copied, node_of, resolve_constraint, resolve_spec,
    resolve_target, resolve_target_spec, resolved_admits, resolved_matches, BindingMap,
};
use crate::pattern::{Clause, Negation, Pattern, Target};
use crate::strmap::StrMap;
use crate::types::{BoundValue, PartialMatch};
use std::fmt::Debug;
use vstd::prelude::*;
use vstd::std_specs::cmp::PartialEqSpec;

verus! {

/// The constraint a negation's first clause scans the whole history with:
/// equality with a literal, the (resolved) constraint, or anything for a
/// variable; `None` when a constraint names an unbound variable.
pub open spec fn scan_constraint_spec<N, V>(t: Target<V>, b: BindingMap<N, V>) -> Option<ValueConstraint<V>> {
    match t {
        Target::Literal(v) => Some(ValueConstraint::Eq(v)),
        Target::Constraint(c) => resolve_spec(c, b),
        Target::Bind(_) => Some(ValueConstraint::Any),
    }
}

/// Some edge of `edges` has a target that the resolved target admits.
pub open spec fn some_edge_resolved<DS: DataSource>(
    ds: DS,
    edges: Seq<Edge<DS::N, DS::V, i64>>,
    t: Target<DS::V>,
    b: BindingMap<DS::N, DS::V>,
) -> bool {
    exists|i: int| 0 <= i < edges.len() && resolved_admits(ds, t, #[trigger] edges[i].target, b)
}

/// A clause is found from node `src` at time `now`: its target resolves
/// under the bindings, and some edge with its label admits it.
pub open spec fn clause_found_from<DS: DataSource>(
    ds: DS,
    c: Clause<DS::L, DS::V>,
    src: DS::N,
    now: i64,
    b: BindingMap<DS::N, DS::V>,
) -> bool {
    match resolve_target_spec(c.target, b) {
        Some(t) => some_edge_resolved(ds, ds.edges_from_spec(src, c.label, now), t, b),
        None => false,
    }
}

/// The start of a negation window's end stage, when it has matched.
pub open spec fn window_end(neg_end: Option<crate::pattern::Var>, iv: Map<Seq<char>, Interval<i64>>) -> Option<i64> {
    match neg_end {
        Some(v) => if iv.contains_key(v.0@) {
            Some(iv[v.0@].start)
        } else {
            None
        },
        None => None,
    }
}

/// A time lies strictly inside a window `(start, end)` (open at the end
/// when `end` is `None`).
pub open spec fn in_window(t: i64, start: i64, end: Option<i64>) -> bool {
    t > start && (end matches Some(e) ==> t < e)
}

/// Clause `j` of the negation shares the first clause's source and is found
/// from `src`.
pub open spec fn rest_clause_ok<DS: DataSource>(
    ds: DS,
    neg: Negation<DS::L, DS::V>,
    j: int,
    src: DS::N,
    now: i64,
    b: BindingMap<DS::N, DS::V>,
) -> bool {
    neg.clauses@[j].source.0@ == neg.clauses@[0].source.0@ && clause_found_from(ds, neg.clauses@[j], src, now, b)
}

/// Event `e` (found by scanning the negation's first clause) violates the
/// negation: it lies inside the window, and every further clause (which
/// must share the first clause's source) is found from its source.
pub open spec fn violates<DS: DataSource>(
    ds: DS,
    neg: Negation<DS::L, DS::V>,
    b: BindingMap<DS::N, DS::V>,
    iv: Map<Seq<char>, Interval<i64>>,
    now: i64,
    e: Edge<DS::N, DS::V, i64>,
) -> bool {
    &&& in_window(e.interval.start, iv[neg.between_start.0@].start, window_end(neg.between_end, iv))
    &&& forall|j: int| 1 <= j < neg.clauses@.len() ==> #[trigger] rest_clause_ok(ds, neg, j, e.source, now, b)
}

/// A negation blocks a complete candidate: its window has started, its
/// first clause's scan constraint resolves, and some event of the whole
/// history matching that scan violates it.
pub open spec fn negation_blocks<DS: DataSource>(
    ds: DS,
    neg: Negation<DS::L, DS::V>,
    b: BindingMap<DS::N, DS::V>,
    iv: Map<Seq<char>, Interval<i64>>,
) -> bool {
    &&& iv.contains_key(neg.between_start.0@)
    &&& neg.clauses@.len() > 0
    &&& match scan_constraint_spec(neg.clauses@[0].target, b) {
        Some(k) => {
            let events = ds.scan_any_time_spec(neg.clauses@[0].label, k);
            exists|i: int| 0 <= i < events.len() && violates(ds, neg, b, iv, ds.now_spec(), #[trigger] events[i])
        },
        None => false,
    }
}

/// No negation of the pattern blocks the candidate.
pub open spec fn negations_clear<DS: DataSource>(
    ds: DS,
    p: Pattern<DS::L, DS::V>,
    b: BindingMap<DS::N, DS::V>,
    iv: Map<Seq<char>, Interval<i64>>,
) -> bool {
    forall|n: int| 0 <= n < p.negations@.len() ==> !negation_blocks(ds, #[trigger] p.negations@[n], b, iv)
}

/// The events of the whole history that a negation's first clause scans
/// for, its target resolved under the bindings.
pub open spec fn negation_scan<DS: DataSource>(
    ds: DS,
    neg: Negation<DS::L, DS::V>,
    b: BindingMap<DS::N, DS::V>,
) -> Seq<Edge<DS::N, DS::V, i64>> {
    ds.scan_any_time_spec(neg.clauses@[0].label, scan_constraint_spec(neg.clauses@[0].target, b)->0)
}

/// A negation blocks a complete candidate only through an event of the
/// whole history (scanned by the negation's first clause) that starts
/// strictly after the window's start stage and, when the window's end stage
/// has matched, strictly before that stage starts: an event at or after the
/// end stage's start never blocks.
pub proof fn law_blocking_event_lies_inside_window<DS: DataSource>(
    ds: DS,
    neg: Negation<DS::L, DS::V>,
    b: BindingMap<DS::N, DS::V>,
    iv: Map<Seq<char>, Interval<i64>>,
)
    requires
        negation_blocks(ds, neg, b, iv),
    ensures
        iv.contains_key(neg.between_start.0@),
        neg.clauses@.len() > 0,
        scan_constraint_spec(neg.clauses@[0].target, b) is Some,
        exists|i: int|
            {
                &&& 0 <= i < negation_scan(ds, neg, b).len()
                &&& (#[trigger] negation_scan(ds, neg, b)[i]).interval.start > iv[neg.between_start.0@].start
                &&& (neg.between_end is Some && iv.contains_key((neg.between_end->0).0@)) ==> negation_scan(ds, neg, b)[i].interval.start
                    < iv[(neg.between_end->0).0@].start
            },
{
    let events = negation_scan(ds, neg, b);
    let i = choose|i: int| 0 <= i < events.len() && violates(ds, neg, b, iv, ds.now_spec(), #[trigger] events[i]);
    assert(events[i].interval.start > iv[neg.between_start.0@].start);
}

/// A complete candidate is clear of every negation whose end stage has
/// matched when each event its first clause scans for starts at or after
/// that end stage starts: events after a window has closed never block.
pub proof fn law_events_after_window_leave_clear<DS: DataSource>(
    ds: DS,
    p: Pattern<DS::L, DS::V>,
    b: BindingMap<DS::N, DS::V>,
    iv: Map<Seq<char>, Interval<i64>>,
)
    requires
        forall|n: int|
            0 <= n < p.negations@.len() ==> {
                &&& (#[trigger] p.negations@[n]).between_end is Some
                &&& iv.contains_key((p.negations@[n].between_end->0).0@)
                &&& forall|i: int|
                    0 <= i < negation_scan(ds, p.negations@[n], b).len() ==> (#[trigger] negation_scan(ds, p.negations@[n], b)[i]).interval.start
                        >= iv[(p.negations@[n].between_end->0).0@].start
            },
    ensures
        negations_clear(ds, p, b, iv),
{
    assert forall|n: int| 0 <= n < p.negations@.len() implies !negation_blocks(ds, #[trigger] p.negations@[n], b, iv) by {
        if negation_blocks(ds, p.negations@[n], b, iv) {
            law_blocking_event_lies_inside_window(ds, p.negations@[n], b, iv);
            let i = choose|i: int|
                {
                    &&& 0 <= i < negation_scan(ds, p.negations@[n], b).len()
                    &&& (#[trigger] negation_scan(ds, p.negations@[n], b)[i]).interval.start > iv[p.negations@[n].between_start.0@].start
                    &&& (p.negations@[n].between_end is Some && iv.contains_key((p.negations@[n].between_end->0).0@)) ==> negation_scan(ds, p.negations@[n], b)[i].interval.start
                        < iv[(p.negations@[n].between_end->0).0@].start
                };
            assert(negation_scan(ds, p.negations@[n], b)[i].interval.start >= iv[(p.negations@[n].between_end->0).0@].start);
        }
    }
}

/// Conversely, an event of that scan strictly inside the window whose
/// further clauses are all found from its source blocks the candidate.
pub proof fn law_event_inside_window_blocks<DS: DataSource>(
    ds: DS,
    neg: Negation<DS::L, DS::V>,
    b: BindingMap<DS::N, DS::V>,
    iv: Map<Seq<char>, Interval<i64>>,
    i: int,
)
    requires
        iv.contains_key(neg.between_start.0@),
        neg.clauses@.len() > 0,
        scan_constraint_spec(neg.clauses@[0].target, b) is Some,
        0 <= i < negation_scan(ds, neg, b).len(),
        negation_scan(ds, neg, b)[i].interval.start > iv[neg.between_start.0@].start,
        (neg.between_end is Some && iv.contains_key((neg.between_end->0).0@)) ==> negation_scan(ds, neg, b)[i].interval.start
            < iv[(neg.between_end->0).0@].start,
        forall|j: int|
            1 <= j < neg.clauses@.len() ==> #[trigger] rest_clause_ok(ds, neg, j, negation_scan(ds, neg, b)[i].source, ds.now_spec(), b),
    ensures
        negation_blocks(ds, neg, b, iv),
{
    let events = negation_scan(ds, neg, b);
    assert(violates(ds, neg, b, iv, ds.now_spec(), events[i]));
}

/// All edges with `label` over the whole history whose target satisfies the
/// scan constraint of `target` under the bindings; `None` when that
/// constraint names an unbound variable. A constraint that names no
/// variable is handed to the graph as it is.
fn scan_history_for<DS: DataSource>(
    ds: &DS,
    label: &DS::L,
    target: &Target<DS::V>,
    bindings: &StrMap<BoundValue<DS::N, DS::V>>,
) -> (r: Option<Vec<Edge<DS::N, DS::V, i64>>>)
    ensures
        (r is Some) == (scan_constraint_spec(*target, bindings@) is Some),
        lawful::<DS>() && r is Some ==> r->0@ == ds.scan_any_time_spec(*label, scan_constraint_spec(*target, bindings@)->0),
{
    match target {
        Target::Literal(v) => {
            let c = v.clone();
            proof {
                if lawful::<DS>() {
                    assert(cloned(*v, c));
                }
            }
            let k = ValueConstraint::Eq(c);
            Some(ds.scan_any_time(label, &k))
        },
        Target::Constraint(c) => {
            if c.is_var() {
                match resolve_constraint(c, bindings) {
                    Some(k) => {
                        proof {
                            if lawful::<DS>() {
                                lemma_resolved_var_exact(*c, bindings@, k);
                            }
                        }
                        Some(ds.scan_any_time(label, &k))
                    },
                    None => None,
                }
            } else {
                Some(ds.scan_any_time(label, c))
            }
        },
        Target::Bind(_) => {
            let k = ValueConstraint::Any;
            Some(ds.scan_any_time(label, &k))
        },
    }
}

/// Resolving a variable constraint yields a constraint on a copy of the
/// bound value, which is the value itself when values clone exactly.
proof fn lemma_resolved_var_exact<N, V: Clone>(c: ValueConstraint<V>, b: BindingMap<N, V>, k: ValueConstraint<V>)
    requires
        crate::datasource::clone_exact::<V>(),
        c.is_var_spec(),
        resolve_spec(c, b) is Some,
        resolve_spec(c, b)->0.copied_to(k),
    ensures
        k == resolve_spec(c, b)->0,
{
    match (resolve_spec(c, b)->0, k) {
        (ValueConstraint::Eq(x), ValueConstraint::Eq(y)) => assert(cloned(x, y)),
        (ValueConstraint::Lt(x), ValueConstraint::Lt(y)) => assert(cloned(x, y)),
        (ValueConstraint::Gt(x), ValueConstraint::Gt(y)) => assert(cloned(x, y)),
        (ValueConstraint::Lte(x), ValueConstraint::Lte(y)) => assert(cloned(x, y)),
        (ValueConstraint::Gte(x), ValueConstraint::Gte(y)) => assert(cloned(x, y)),
        _ => {},
    }
}

/// Is the clause found from `src` at time `now` (its target resolved
/// against the bindings)?
fn clause_found<DS: DataSource>(
    ds: &DS,
    clause: &Clause<DS::L, DS::V>,
    src: &DS::N,
    now: &i64,
    bindings: &StrMap<BoundValue<DS::N, DS::V>>,
) -> (r: bool)
    ensures
        lawful::<DS>() ==> r == clause_found_from(*ds, *clause, *src, *now, bindings@),
{
    let edges = ds.edges_from(src, &clause.label, now);
    let resolved = match resolve_target(&clause.target, bindings) {
        Some(t) => t,
        None => return false,
    };
    let mut i: usize = 0;
    while i < edges.len()
        invariant
            i <= edges@.len(),
            edges@ == ds.edges_from_spec(*src, clause.label, *now),
            resolve_target_spec(clause.target, bindings@) is Some,
            resolve_target_spec(clause.target, bindings@)->0.copied_to(resolved),
            lawful::<DS>() ==> forall|j: int|
                0 <= j < i ==> !resolved_admits(
                    *ds,
                    resolve_target_spec(clause.target, bindings@)->0,
                    #[trigger] edges@[j].target,
                    bindings@,
                ),
        decreases edges@.len() - i,
    {
        let ok = resolved_matches(ds, &resolved, &edges[i].target, bindings);
        proof {
            if lawful::<DS>() {
                lemma_resolved_admits_copied(
                    *ds,
                    resolve_target_spec(clause.target, bindings@)->0,
                    resolved,
                    edges@[i as int].target,
                    bindings@,
                );
            }
        }
        if ok {
            return true;
        }
        i = i + 1;
    }
    false
}

/// Batch negation check for a complete candidate: `true` when no negation
/// of the pattern is violated by an event of the whole history inside its
/// window.
pub fn check_negations_batch<DS: DataSource>(
    ds: &DS,
    pattern: &Pattern<DS::L, DS::V>,
    match_bindings: &StrMap<BoundValue<DS::N, DS::V>>,
    intervals: &StrMap<Interval<i64>>,
) -> (r: bool)
    ensures
        lawful::<DS>() ==> r == negations_clear(*ds, *pattern, match_bindings@, intervals@),
{
    let now = ds.now();
    let mut n: usize = 0;
    while n < pattern.negations.len()
        invariant
            n <= pattern.negations@.len(),
            now == ds.now_spec(),
            lawful::<DS>() ==> forall|m: int|
                0 <= m < n ==> !negation_blocks(*ds, #[trigger] pattern.negations@[m], match_bindings@, intervals@),
        decreases pattern.negations@.len() - n,
    {
        let negation = &pattern.negations[n];
        if negation_violated(ds, negation, match_bindings, intervals, &now) {
            proof {
                assert(lawful::<DS>() ==> negation_blocks(*ds, pattern.negations@[n as int], match_bindings@, intervals@));
            }
            return false;
        }
        n = n + 1;
    }
    true
}

/// Does some event of the whole history violate this negation?
fn negation_violated<DS: DataSource>(
    ds: &DS,
    negation: &Negation<DS::L, DS::V>,
    match_bindings: &StrMap<BoundValue<DS::N, DS::V>>,
    intervals: &StrMap<Interval<i64>>,
    now: &i64,
) -> (r: bool)
    requires
        *now == ds.now_spec(),
    ensures
        lawful::<DS>() ==> r == negation_blocks(*ds, *negation, match_bindings@, intervals@),
{
    let start = match intervals.get(negation.between_start.0.as_str()) {
        Some(iv) => iv.start,
        None => return false,
    };
    let end: Option<i64> = match &negation.between_end {
        Some(v) => match intervals.get(v.0.as_str()) {
            Some(iv) => Some(iv.start),
            None => None,
        },
        None => None,
    };
    proof {
        assert(end == window_end(negation.between_end, intervals@));
    }
    if negation.clauses.len() == 0 {
        return false;
    }
    let first = &negation.clauses[0];
    let candidates = match scan_history_for(ds, &first.label, &first.target, match_bindings) {
        Some(c) => c,
        None => return false,
    };
    let mut ci: usize = 0;
    while ci < candidates.len()
        invariant
            ci <= candidates@.len(),
            negation.clauses@.len() > 0,
            *first == negation.clauses@[0],
            intervals@.contains_key(negation.between_start.0@),
            start == intervals@[negation.between_start.0@].start,
            end == window_end(negation.between_end, intervals@),
            *now == ds.now_spec(),
            scan_constraint_spec(first.target, match_bindings@) is Some,
            lawful::<DS>() ==> candidates@ == ds.scan_any_time_spec(
                first.label,
                scan_constraint_spec(first.target, match_bindings@)->0,
            ),
            lawful::<DS>() ==> forall|j: int|
                0 <= j < ci ==> !violates(*ds, *negation, match_bindings@, intervals@, *now, #[trigger] candidates@[j]),
        decreases candidates@.len() - ci,
    {
        let cand = &candidates[ci];
        let t = cand.interval.start;
        let in_win = t > start && match end {
            Some(e) => t < e,
            None => true,
        };
        if in_win {
            if rest_found(ds, negation, &cand.source, now, match_bindings) {
                proof {
                    if lawful::<DS>() {
                        assert(violates(*ds, *negation, match_bindings@, intervals@, *now, candidates@[ci as int]));
                    }
                }
                return true;
            }
        }
        ci = ci + 1;
    }
    false
}

/// Every clause of the negation after the first shares the first clause's
/// source and is found from `src`.
fn rest_found<DS: DataSource>(
    ds: &DS,
    negation: &Negation<DS::L, DS::V>,
    src: &DS::N,
    now: &i64,
    bindings: &StrMap<BoundValue<DS::N, DS::V>>,
) -> (r: bool)
    requires
        negation.clauses@.len() > 0,
    ensures
        lawful::<DS>() ==> r == forall|j: int|
            1 <= j < negation.clauses@.len() ==> #[trigger] rest_clause_ok(*ds, *negation, j, *src, *now, bindings@),
{
    let first = &negation.clauses[0];
    let mut j: usize = 1;
    while j < negation.clauses.len()
        invariant
            1 <= j <= negation.clauses@.len(),
            *first == negation.clauses@[0],
            lawful::<DS>() ==> forall|j2: int|
                1 <= j2 < j ==> #[trigger] rest_clause_ok(*ds, *negation, j2, *src, *now, bindings@),
        decreases negation.clauses@.len() - j,
    {
        let clause = &negation.clauses[j];
        if !(clause.source.0 == first.source.0) {
            proof {
                assert(!rest_clause_ok(*ds, *negation, j as int, *src, *now, bindings@));
            }
            return false;
        }
        if !clause_found(ds, clause, src, now, bindings) {
            proof {
                assert(lawful::<DS>() ==> !rest_clause_ok(*ds, *negation, j as int, *src, *now, bindings@));
            }
            return false;
        }
        j = j + 1;
    }
    true
}

/// `format!("{:?}", x)`: the value's `Debug` text.
#[verifier::external_body]
pub(crate) fn debug_text<X: Debug>(x: &X) -> String {
    format!("{:?}", x)
}

/// A negation window is open for a partial match when a new event starts at
/// `t`: the window's start stage has matched, its end stage (if any) has not,
/// and the event starts after the window's start.
pub open spec fn window_open<L, V>(neg: Negation<L, V>, pmi: Map<Seq<char>, Interval<i64>>, t: i64) -> bool {
    &&& pmi.contains_key(neg.between_start.0@)
    &&& !(neg.between_end matches Some(ev) && pmi.contains_key(ev.0@))
    &&& t > pmi[neg.between_start.0@].start
}

/// A new edge kills a partial match only through a negation whose window
/// is open: its start stage has matched, the edge starts strictly after
/// that stage, and its end stage, if it has one, has not matched yet.
pub proof fn law_kill_needs_open_window<DS: DataSource>(
    ds: DS,
    p: Pattern<DS::L, DS::V>,
    pmb: BindingMap<DS::N, DS::V>,
    pmi: Map<Seq<char>, Interval<i64>>,
    source: DS::N,
    label: DS::L,
    value: DS::V,
    t: i64,
    now: i64,
)
    requires
        kills(ds, p, pmb, pmi, source, label, value, t, now),
    ensures
        exists|n: int|
            0 <= n < p.negations@.len() && pmi.contains_key((#[trigger] p.negations@[n]).between_start.0@) && t
                > pmi[p.negations@[n].between_start.0@].start && !(p.negations@[n].between_end is Some && pmi.contains_key(
                (p.negations@[n].between_end->0).0@,
            )),
{
    let (n, i) = choose|n: int, i: int|
        0 <= n < p.negations@.len() && 0 <= i < p.negations@[n].clauses@.len() && window_open(p.negations@[n], pmi, t)
            && #[trigger] kill_by(ds, p.negations@[n], i, pmb, source, label, value, now);
    assert(0 <= n < p.negations@.len() && pmi.contains_key(p.negations@[n].between_start.0@));
}

/// Once every negation window of a partial match has closed (its end stage
/// has matched), no new edge kills it.
pub proof fn law_closed_windows_never_kill<DS: DataSource>(
    ds: DS,
    p: Pattern<DS::L, DS::V>,
    pmb: BindingMap<DS::N, DS::V>,
    pmi: Map<Seq<char>, Interval<i64>>,
    source: DS::N,
    label: DS::L,
    value: DS::V,
    t: i64,
    now: i64,
)
    requires
        forall|n: int|
            0 <= n < p.negations@.len() ==> (#[trigger] p.negations@[n]).between_end is Some && pmi.contains_key(
                (p.negations@[n].between_end->0).0@,
            ),
    ensures
        !kills(ds, p, pmb, pmi, source, label, value, t, now),
{
    if kills(ds, p, pmb, pmi, source, label, value, t, now) {
        law_kill_needs_open_window(ds, p, pmb, pmi, source, label, value, t, now);
        let n = choose|n: int|
            0 <= n < p.negations@.len() && pmi.contains_key((#[trigger] p.negations@[n]).between_start.0@) && t
                > pmi[p.negations@[n].between_start.0@].start && !(p.negations@[n].between_end is Some && pmi.contains_key(
                (p.negations@[n].between_end->0).0@,
            ));
        assert(p.negations@[n].between_end is Some);
    }
}

/// Conversely, an edge that triggers a clause of a negation whose window is
/// open, with every other clause found, kills the partial match.
pub proof fn law_open_window_kills<DS: DataSource>(
    ds: DS,
    p: Pattern<DS::L, DS::V>,
    pmb: BindingMap<DS::N, DS::V>,
    pmi: Map<Seq<char>, Interval<i64>>,
    source: DS::N,
    label: DS::L,
    value: DS::V,
    t: i64,
    now: i64,
    n: int,
    i: int,
)
    requires
        0 <= n < p.negations@.len(),
        0 <= i < p.negations@[n].clauses@.len(),
        pmi.contains_key(p.negations@[n].between_start.0@),
        t > pmi[p.negations@[n].between_start.0@].start,
        !(p.negations@[n].between_end is Some && pmi.contains_key((p.negations@[n].between_end->0).0@)),
        kill_by(ds, p.negations@[n], i, pmb, source, label, value, now),
    ensures
        kills(ds, p, pmb, pmi, source, label, value, t, now),
{
    assert(window_open(p.negations@[n], pmi, t));
}

/// The new edge `source --label--> value` triggers clause `c` of a negation
/// for a partial match with bindings `pmb`: the label is the clause's, the
/// target admits the value (a bound target variable must match it), and
/// the clause's source, if bound to a node, is the edge's source.
pub open spec fn trigger_accepts<DS: DataSource>(
    ds: DS,
    c: Clause<DS::L, DS::V>,
    pmb: BindingMap<DS::N, DS::V>,
    source: DS::N,
    label: DS::L,
    value: DS::V,
) -> bool {
    &&& c.label.eq_spec(&label)
    &&& match c.target {
        Target::Literal(v) => value.eq_spec(&v),
        Target::Constraint(k) => match resolve_spec(k, pmb) {
            Some(r) => r.admits(value),
            None => false,
        },
        Target::Bind(var) => pmb.contains_key(var.0@) ==> bound_matches(ds, pmb[var.0@], value),
    }
    &&& (node_of(pmb, c.source.0@) matches Some(n) ==> source.eq_spec(&n))
}

/// Another clause of the negation is found: from the new edge's source when
/// it shares the triggering clause's source variable, else from the node its
/// source is bound to.
pub open spec fn other_found<DS: DataSource>(
    ds: DS,
    other: Clause<DS::L, DS::V>,
    trigger_source: Seq<char>,
    source: DS::N,
    pmb: BindingMap<DS::N, DS::V>,
    now: i64,
) -> bool {
    if other.source.0@ == trigger_source {
        clause_found_from(ds, other, source, now, pmb)
    } else {
        match node_of(pmb, other.source.0@) {
            Some(n) => clause_found_from(ds, other, n, now, pmb),
            None => false,
        }
    }
}

/// Clause `i` of the negation, triggered by the new edge, completes a
/// violation: every other clause is found.
pub open spec fn kill_by<DS: DataSource>(
    ds: DS,
    neg: Negation<DS::L, DS::V>,
    i: int,
    pmb: BindingMap<DS::N, DS::V>,
    source: DS::N,
    label: DS::L,
    value: DS::V,
    now: i64,
) -> bool {
    &&& trigger_accepts(ds, neg.clauses@[i], pmb, source, label, value)
    &&& forall|j: int|
        0 <= j < neg.clauses@.len() && j != i ==> #[trigger] other_found(
            ds,
            neg.clauses@[j],
            neg.clauses@[i].source.0@,
            source,
            pmb,
            now,
        )
}

/// The new edge, starting at `t`, violates an open negation window of the
/// partial match.
pub open spec fn kills<DS: DataSource>(
    ds: DS,
    p: Pattern<DS::L, DS::V>,
    pmb: BindingMap<DS::N, DS::V>,
    pmi: Map<Seq<char>, Interval<i64>>,
    source: DS::N,
    label: DS::L,
    value: DS::V,
    t: i64,
    now: i64,
) -> bool {
    exists|n: int, i: int|
        0 <= n < p.negations@.len() && 0 <= i < p.negations@[n].clauses@.len() && window_open(
            p.negations@[n],
            pmi,
            t,
        ) && #[trigger] kill_by(ds, p.negations@[n], i, pmb, source, label, value, now)
}

/// Does the new edge trigger clause `clause` of a negation?
fn trigger_ok<DS: DataSource>(
    ds: &DS,
    clause: &Clause<DS::L, DS::V>,
    pmb: &StrMap<BoundValue<DS::N, DS::V>>,
    source: &DS::N,
    label: &DS::L,
    value: &DS::V,
) -> (r: bool)
    ensures
        lawful::<DS>() ==> r == trigger_accepts(*ds, *clause, pmb@, *source, *label, *value),
{
    if !(clause.label == *label) {
        return false;
    }
    let target_ok = match &clause.target {
        Target::Literal(v) => *value == *v,
        Target::Constraint(c) => {
            if c.is_var() {
                match resolve_constraint(c, pmb) {
                    Some(k) => {
                        let m = k.matches(value);
                        proof {
                            if lawful::<DS>() {
                                lemma_admits_copied(resolve_spec(*c, pmb@)->0, k, *value);
                            }
                        }
                        m
                    },
                    None => false,
                }
            } else {
                c.matches(value)
            }
        },
        Target::Bind(_) => true,
    };
    if !target_ok {
        return false;
    }
    match pmb.get(clause.source.0.as_str()) {
        Some(BoundValue::Node(n)) => {
            if !(*source == *n) {
                return false;
            }
        },
        _ => {},
    }
    match &clause.target {
        Target::Bind(var) => match pmb.get(var.0.as_str()) {
            Some(bound) => {
                let f = |v: &DS::V| -> (o: Option<DS::N>)
                    ensures
                        o == ds.value_as_node_spec(*v),
                    { ds.value_as_node(v) };
                if !bound.matches_value(&f, value) {
                    return false;
                }
            },
            None => {},
        },
        _ => {},
    }
    true
}

/// Is another clause of the negation found (see `other_found`)?
fn other_ok<DS: DataSource>(
    ds: &DS,
    other: &Clause<DS::L, DS::V>,
    trigger_source: &String,
    source: &DS::N,
    pmb: &StrMap<BoundValue<DS::N, DS::V>>,
    now: &i64,
) -> (r: bool)
    ensures
        lawful::<DS>() ==> r == other_found(*ds, *other, trigger_source@, *source, pmb@, *now),
{
    if other.source.0 == *trigger_source {
        clause_found(ds, other, source, now, pmb)
    } else {
        match pmb.get(other.source.0.as_str()) {
            Some(BoundValue::Node(n)) => clause_found(ds, other, n, now, pmb),
            _ => false,
        }
    }
}

/// Is the negation's window open for an event starting at `t`?
fn window_is_open<L, V>(negation: &Negation<L, V>, intervals: &StrMap<Interval<i64>>, t: i64) -> (r: bool)
    ensures
        r == window_open(*negation, intervals@, t),
{
    match intervals.get(negation.between_start.0.as_str()) {
        Some(start) => {
            let end_matched = match &negation.between_end {
                Some(end_var) => intervals.contains_key(end_var.0.as_str()),
                None => false,
            };
            !end_matched && t > start.start
        },
        None => false,
    }
}

/// Is every clause of the negation other than clause `i` found?
fn all_others_found<DS: DataSource>(
    ds: &DS,
    negation: &Negation<DS::L, DS::V>,
    i: usize,
    source: &DS::N,
    pmb: &StrMap<BoundValue<DS::N, DS::V>>,
    now: &i64,
) -> (r: bool)
    requires
        i < negation.clauses@.len(),
    ensures
        lawful::<DS>() ==> r == forall|j: int|
            0 <= j < negation.clauses@.len() && j != i ==> #[trigger] other_found(
                *ds,
                negation.clauses@[j],
                negation.clauses@[i as int].source.0@,
                *source,
                pmb@,
                *now,
            ),
{
    let trig = &negation.clauses[i].source.0;
    let mut j: usize = 0;
    while j < negation.clauses.len()
        invariant
            j <= negation.clauses@.len(),
            i < negation.clauses@.len(),
            *trig == negation.clauses@[i as int].source.0,
            lawful::<DS>() ==> forall|j2: int|
                0 <= j2 < j && j2 != i ==> #[trigger] other_found(
                    *ds,
                    negation.clauses@[j2],
                    negation.clauses@[i as int].source.0@,
                    *source,
                    pmb@,
                    *now,
                ),
        decreases negation.clauses@.len() - j,
    {
        if j != i {
            if !other_ok(ds, &negation.clauses[j], trig, source, pmb, now) {
                return false;
            }
        }
        j = j + 1;
    }
    true
}

/// Incremental negation check: does the new edge `source --label--> value`
/// during `interval` violate an open negation window of the partial match?
/// Returns the `Debug` text of the triggering clause's label.
pub fn check_negation_kill<DS: DataSource>(
    ds: &DS,
    pattern: &Pattern<DS::L, DS::V>,
    pm: &PartialMatch<DS::N, DS::V, i64>,
    source: &DS::N,
    label: &DS::L,
    value: &DS::V,
    interval: &Interval<i64>,
) -> (r: Option<String>)
    ensures
        lawful::<DS>() ==> ((r is Some) == kills(
            *ds,
            *pattern,
            pm.bindings@,
            pm.intervals@,
            *source,
            *label,
            *value,
            interval.start,
            ds.now_spec(),
        )),
        lawful::<DS>() && (forall|n: int|
            0 <= n < pattern.negations@.len() ==> (#[trigger] pattern.negations@[n]).between_end is Some
                && pm.intervals@.contains_key((pattern.negations@[n].between_end->0).0@)) ==> r is None,
{
    proof {
        if lawful::<DS>() && (forall|n: int|
            0 <= n < pattern.negations@.len() ==> (#[trigger] pattern.negations@[n]).between_end is Some
                && pm.intervals@.contains_key((pattern.negations@[n].between_end->0).0@)) {
            law_closed_windows_never_kill(*ds, *pattern, pm.bindings@, pm.intervals@, *source, *label, *value, interval.start, ds.now_spec());
        }
    }
    let ghost pmb = pm.bindings@;
    let ghost pmi = pm.intervals@;
    let ghost t = interval.start;
    let ghost now_s = ds.now_spec();
    let mut n: usize = 0;
    while n < pattern.negations.len()
        invariant
            n <= pattern.negations@.len(),
            pmb == pm.bindings@,
            pmi == pm.intervals@,
            t == interval.start,
            now_s == ds.now_spec(),
            lawful::<DS>() ==> forall|n2: int, i2: int|
                0 <= n2 < n && 0 <= i2 < pattern.negations@[n2].clauses@.len() && window_open(
                    pattern.negations@[n2],
                    pmi,
                    t,
                ) ==> !#[trigger] kill_by(*ds, pattern.negations@[n2], i2, pmb, *source, *label, *value, now_s),
        decreases pattern.negations@.len() - n,
    {
        let negation = &pattern.negations[n];
        if window_is_open(negation, &pm.intervals, interval.start) {
            let mut i: usize = 0;
            while i < negation.clauses.len()
                invariant
                    i <= negation.clauses@.len(),
                    n < pattern.negations@.len(),
                    *negation == pattern.negations@[n as int],
                    pmb == pm.bindings@,
                    pmi == pm.intervals@,
                    t == interval.start,
                    window_open(pattern.negations@[n as int], pmi, t),
                    now_s == ds.now_spec(),
                    lawful::<DS>() ==> forall|i2: int|
                        0 <= i2 < i ==> !#[trigger] kill_by(*ds, *negation, i2, pmb, *source, *label, *value, now_s),
                decreases negation.clauses@.len() - i,
            {
                let clause = &negation.clauses[i];
                if trigger_ok(ds, clause, &pm.bindings, source, label, value) {
                    let now = ds.now();
                    if all_others_found(ds, negation, i, source, &pm.bindings, &now) {
                        proof {
                            if lawful::<DS>() {
                                assert(kill_by(*ds, pattern.negations@[n as int], i as int, pmb, *source, *label, *value, now_s));
                            }
                        }
                        return Some(debug_text(&clause.label));
                    }
                }
                i = i + 1;
            }
        }
        n = n + 1;
    }
    None
}

} // verus!
