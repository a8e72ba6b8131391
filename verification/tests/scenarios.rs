use fabula::builder::PatternBuilder;
use fabula::compose;
use fabula::datasource::{DataSource, Edge, ValueConstraint};
use fabula::engine::{
    BoundValue, DefaultLetEvaluator, MatchState, SiftEngine, SiftEngineFor, SiftEvent, StageStatus,
};
use fabula::expr::ArithmeticValue;
use fabula::interval::{AllenRelation, Interval};
use fabula::pattern::Pattern;
use std::hash::{Hash, Hasher};

/// Values of the in-memory graph: strings, node references and numbers.
#[derive(Debug, Clone, PartialEq, PartialOrd)]
enum MemValue {
    Str(String),
    Node(String),
    Num(f64),
}

impl Hash for MemValue {
    fn hash<H: Hasher>(&self, state: &mut H) {
        std::mem::discriminant(self).hash(state);
        match self {
            MemValue::Str(s) | MemValue::Node(s) => s.hash(state),
            MemValue::Num(n) => n.to_bits().hash(state),
        }
    }
}

impl ArithmeticValue for MemValue {
    fn try_add(&self, other: &Self) -> Option<Self> {
        match (self, other) {
            (MemValue::Num(a), MemValue::Num(b)) => Some(MemValue::Num(a + b)),
            _ => None,
        }
    }
    fn try_sub(&self, other: &Self) -> Option<Self> {
        match (self, other) {
            (MemValue::Num(a), MemValue::Num(b)) => Some(MemValue::Num(a - b)),
            _ => None,
        }
    }
    fn try_mul(&self, other: &Self) -> Option<Self> {
        match (self, other) {
            (MemValue::Num(a), MemValue::Num(b)) => Some(MemValue::Num(a * b)),
            _ => None,
        }
    }
    fn try_div(&self, other: &Self) -> Option<Self> {
        match (self, other) {
            (MemValue::Num(_), MemValue::Num(b)) if *b == 0.0 => None,
            (MemValue::Num(a), MemValue::Num(b)) => Some(MemValue::Num(a / b)),
            _ => None,
        }
    }
}

/// An in-memory temporal graph: each edge is active during its interval.
#[derive(Default)]
struct Mem {
    edges: Vec<(String, String, MemValue, Interval<i64>)>,
    time: i64,
}

fn edge_of(e: &(String, String, MemValue, Interval<i64>)) -> Edge<String, MemValue, i64> {
    Edge { source: e.0.clone(), target: e.2.clone(), interval: e.3 }
}

impl DataSource for Mem {
    type N = String;
    type L = String;
    type V = MemValue;
    fn now(&self) -> i64 {
        self.time
    }
    fn value_as_node(&self, v: &MemValue) -> Option<String> {
        match v {
            MemValue::Node(n) => Some(n.clone()),
            _ => None,
        }
    }
    fn edges_from(&self, node: &String, label: &String, at: &i64) -> Vec<Edge<String, MemValue, i64>> {
        self.edges.iter().filter(|e| &e.0 == node && &e.1 == label && e.3.covers(at)).map(edge_of).collect()
    }
    fn edges_from_any_time(&self, node: &String, label: &String) -> Vec<Edge<String, MemValue, i64>> {
        self.edges.iter().filter(|e| &e.0 == node && &e.1 == label).map(edge_of).collect()
    }
    fn scan(&self, label: &String, constraint: &ValueConstraint<MemValue>, at: &i64) -> Vec<Edge<String, MemValue, i64>> {
        self.edges
            .iter()
            .filter(|e| &e.1 == label && constraint.matches(&e.2) && e.3.covers(at))
            .map(edge_of)
            .collect()
    }
    fn scan_any_time(&self, label: &String, constraint: &ValueConstraint<MemValue>) -> Vec<Edge<String, MemValue, i64>> {
        self.edges.iter().filter(|e| &e.1 == label && constraint.matches(&e.2)).map(edge_of).collect()
    }
}

/// How the scenarios build graphs and values.
trait TestGraph: DataSource<N = String, L = String> + Sized {
    fn new_graph() -> Self;
    fn set_current_time(&mut self, t: i64);
    fn add_str_edge(&mut self, from: &str, label: &str, value: &str, start: i64);
    fn add_ref_edge(&mut self, from: &str, label: &str, to: &str, start: i64);
    fn add_num_edge(&mut self, from: &str, label: &str, value: f64, start: i64);
    fn add_str_edge_bounded(&mut self, from: &str, label: &str, value: &str, start: i64, end: i64);
    fn add_ref_edge_bounded(&mut self, from: &str, label: &str, to: &str, start: i64, end: i64);
    fn str_val(s: &str) -> Self::V;
    fn node_val(s: &str) -> Self::V;
    fn num_val(n: f64) -> Self::V;
    fn is_node_eq(value: &BoundValue<String, Self::V>, expected: &str) -> bool {
        match value {
            BoundValue::Node(n) => n == expected,
            _ => false,
        }
    }
}

impl TestGraph for Mem {
    fn new_graph() -> Self {
        Mem::default()
    }
    fn set_current_time(&mut self, t: i64) {
        self.time = t;
    }
    fn add_str_edge(&mut self, from: &str, label: &str, value: &str, start: i64) {
        self.edges.push((from.into(), label.into(), MemValue::Str(value.into()), Interval::open(start)));
    }
    fn add_ref_edge(&mut self, from: &str, label: &str, to: &str, start: i64) {
        self.edges.push((from.into(), label.into(), MemValue::Node(to.into()), Interval::open(start)));
    }
    fn add_num_edge(&mut self, from: &str, label: &str, value: f64, start: i64) {
        self.edges.push((from.into(), label.into(), MemValue::Num(value), Interval::open(start)));
    }
    fn add_str_edge_bounded(&mut self, from: &str, label: &str, value: &str, start: i64, end: i64) {
        self.edges.push((from.into(), label.into(), MemValue::Str(value.into()), Interval::new(start, end)));
    }
    fn add_ref_edge_bounded(&mut self, from: &str, label: &str, to: &str, start: i64, end: i64) {
        self.edges.push((from.into(), label.into(), MemValue::Node(to.into()), Interval::new(start, end)));
    }
    fn str_val(s: &str) -> MemValue {
        MemValue::Str(s.into())
    }
    fn node_val(s: &str) -> MemValue {
        MemValue::Node(s.into())
    }
    fn num_val(n: f64) -> MemValue {
        MemValue::Num(n)
    }
}

type G = Mem;

// ---- allen temporal ----

/// Batch: explicit Before constraint using open-ended intervals.
/// For open-ended intervals, the engine falls back to checking start < start
/// when the relation is Before or Meets.
#[test]
fn batch_explicit_before_constraint() {
    // Case 1: e1 starts at 1, e2 starts at 5 -> Before fallback holds -> match
    let mut g = G::new_graph();
    g.add_str_edge("ev1", "eventType", "start", 1);
    g.add_str_edge("ev2", "eventType", "finish", 5);
    g.set_current_time(10);

    let pattern = PatternBuilder::new("before_pattern")
        .stage("e1", |s| {
            s.edge("e1", "eventType".into(), G::str_val("start"))
        })
        .stage("e2", |s| {
            s.edge("e2", "eventType".into(), G::str_val("finish"))
        })
        .temporal("e1", AllenRelation::Before, "e2")
        .build();

    let mut engine: SiftEngineFor<G> = SiftEngine::new(DefaultLetEvaluator);
    engine.register(pattern);
    assert_eq!(
        engine.evaluate(&g).len(),
        1,
        "e1 at t=1 before e2 at t=5 should match"
    );

    // Case 2: reverse order -> no match
    let mut g2 = G::new_graph();
    g2.add_str_edge("ev1", "eventType", "start", 5);
    g2.add_str_edge("ev2", "eventType", "finish", 1);
    g2.set_current_time(10);

    let pattern2 = PatternBuilder::new("before_pattern")
        .stage("e1", |s| {
            s.edge("e1", "eventType".into(), G::str_val("start"))
        })
        .stage("e2", |s| {
            s.edge("e2", "eventType".into(), G::str_val("finish"))
        })
        .temporal("e1", AllenRelation::Before, "e2")
        .build();

    let mut engine2: SiftEngineFor<G> = SiftEngine::new(DefaultLetEvaluator);
    engine2.register(pattern2);
    assert_eq!(
        engine2.evaluate(&g2).len(),
        0,
        "e1 at t=5, e2 at t=1 -> temporal order violated -> no match"
    );
}

/// Batch: explicit During constraint with bounded intervals that overlap at query time.
/// The outer event starts first (satisfying implicit stage ordering),
/// and the inner event is contained within it (During relation).
/// outer=[1,100), inner=[3,5). Stage order: outer first, inner second.
/// Then we assert inner During outer via explicit temporal constraint.
#[test]
fn batch_explicit_during_constraint() {
    let mut g = G::new_graph();
    g.add_str_edge_bounded("ev_outer", "eventType", "outer", 1, 100);
    g.add_str_edge_bounded("ev_inner", "eventType", "inner", 3, 5);
    g.set_current_time(4); // Both intervals are active at t=4

    let pattern = PatternBuilder::new("during_pattern")
        .stage("e_outer", |s| {
            s.edge("e_outer", "eventType".into(), G::str_val("outer"))
        })
        .stage("e_inner", |s| {
            s.edge("e_inner", "eventType".into(), G::str_val("inner"))
        })
        .temporal("e_inner", AllenRelation::During, "e_outer")
        .build();

    let mut engine: SiftEngineFor<G> = SiftEngine::new(DefaultLetEvaluator);
    engine.register(pattern);
    assert_eq!(
        engine.evaluate(&g).len(),
        1,
        "inner=[3,5) during outer=[1,100) should match"
    );
}

/// Batch: explicit Overlaps constraint with bounded intervals active at query time.
/// e1=[1,6) overlaps e2=[3,100). Query at t=4 where both are active.
#[test]
fn batch_explicit_overlaps_constraint() {
    let mut g = G::new_graph();
    g.add_str_edge_bounded("ev1", "eventType", "early", 1, 6);
    g.add_str_edge_bounded("ev2", "eventType", "late", 3, 100);
    g.set_current_time(4); // Both intervals are active at t=4

    let pattern = PatternBuilder::new("overlaps_pattern")
        .stage("e1", |s| {
            s.edge("e1", "eventType".into(), G::str_val("early"))
        })
        .stage("e2", |s| {
            s.edge("e2", "eventType".into(), G::str_val("late"))
        })
        .temporal("e1", AllenRelation::Overlaps, "e2")
        .build();

    let mut engine: SiftEngineFor<G> = SiftEngine::new(DefaultLetEvaluator);
    engine.register(pattern);
    assert_eq!(
        engine.evaluate(&g).len(),
        1,
        "e1=[1,6) overlaps e2=[3,100) should match"
    );
}

// ---- composition ----

// ---------------------------------------------------------------------------
// Sequence: setup then payoff, shared character binding
// ---------------------------------------------------------------------------

/// A character promises, then fulfills. Shared "char" binding ensures same person.
#[test]
fn batch_sequence_shared_binding() {
    let setup = PatternBuilder::<String, MemValue>::new("setup")
        .stage("e1", |s| {
            s.edge("e1", "eventType".into(), G::str_val("promise"))
                .edge_bind("e1", "actor".into(), "char")
        })
        .build();

    let payoff = PatternBuilder::<String, MemValue>::new("payoff")
        .stage("e2", |s| {
            s.edge("e2", "eventType".into(), G::str_val("fulfill"))
                .edge_bind("e2", "actor".into(), "char")
        })
        .build();

    let arc = compose::sequence("promise_kept", &setup, &payoff, &["char"]);

    let mut g = G::new_graph();
    g.add_str_edge("ev1", "eventType", "promise", 1);
    g.add_ref_edge("ev1", "actor", "alice", 1);
    g.add_str_edge("ev2", "eventType", "fulfill", 5);
    g.add_ref_edge("ev2", "actor", "alice", 5);
    g.set_current_time(10);

    let mut engine: SiftEngineFor<G> = SiftEngine::new(DefaultLetEvaluator);
    engine.register(arc);

    let matches = engine.evaluate(&g);
    assert_eq!(matches.len(), 1);
    assert_eq!(matches[0].pattern, "promise_kept");
    assert!(G::is_node_eq(&matches[0].bindings.get("char").unwrap(), "alice"));
}

/// Sequence doesn't match when different characters do setup vs payoff.
#[test]
fn batch_sequence_different_actors_no_match() {
    let setup = PatternBuilder::<String, MemValue>::new("setup")
        .stage("e1", |s| {
            s.edge("e1", "eventType".into(), G::str_val("promise"))
                .edge_bind("e1", "actor".into(), "char")
        })
        .build();

    let payoff = PatternBuilder::<String, MemValue>::new("payoff")
        .stage("e2", |s| {
            s.edge("e2", "eventType".into(), G::str_val("fulfill"))
                .edge_bind("e2", "actor".into(), "char")
        })
        .build();

    let arc = compose::sequence("promise_kept", &setup, &payoff, &["char"]);

    let mut g = G::new_graph();
    g.add_str_edge("ev1", "eventType", "promise", 1);
    g.add_ref_edge("ev1", "actor", "alice", 1);
    g.add_str_edge("ev2", "eventType", "fulfill", 5);
    g.add_ref_edge("ev2", "actor", "bob", 5); // different actor
    g.set_current_time(10);

    let mut engine: SiftEngineFor<G> = SiftEngine::new(DefaultLetEvaluator);
    engine.register(arc);

    let matches = engine.evaluate(&g);
    assert_eq!(matches.len(), 0);
}

// ---------------------------------------------------------------------------
// Sequence with negation: setup's negation carries into composed pattern
// ---------------------------------------------------------------------------

/// Promise kept — unless cancelled in between.
#[test]
fn batch_sequence_with_negation() {
    let setup = PatternBuilder::<String, MemValue>::new("setup")
        .stage("e1", |s| {
            s.edge("e1", "eventType".into(), G::str_val("promise"))
                .edge_bind("e1", "actor".into(), "char")
        })
        .stage("e2", |s| {
            s.edge("e2", "eventType".into(), G::str_val("fulfill"))
                .edge_bind("e2", "actor".into(), "char")
        })
        .unless_between("e1", "e2", |neg| {
            neg.edge("cancel_ev", "eventType".into(), G::str_val("cancel"))
                .edge_bind("cancel_ev", "actor".into(), "char")
        })
        .build();

    // Compose with a second pattern (reaction)
    let reaction = PatternBuilder::<String, MemValue>::new("reaction")
        .stage("e3", |s| {
            s.edge("e3", "eventType".into(), G::str_val("celebrate"))
                .edge_bind("e3", "actor".into(), "char")
        })
        .build();

    let arc = compose::sequence("promise_then_celebrate", &setup, &reaction, &["char"]);

    // Graph WITH cancel — should not match
    let mut g = G::new_graph();
    g.add_str_edge("ev1", "eventType", "promise", 1);
    g.add_ref_edge("ev1", "actor", "alice", 1);
    g.add_str_edge("ev_cancel", "eventType", "cancel", 3);
    g.add_ref_edge("ev_cancel", "actor", "alice", 3);
    g.add_str_edge("ev2", "eventType", "fulfill", 5);
    g.add_ref_edge("ev2", "actor", "alice", 5);
    g.add_str_edge("ev3", "eventType", "celebrate", 7);
    g.add_ref_edge("ev3", "actor", "alice", 7);
    g.set_current_time(10);

    let mut engine: SiftEngineFor<G> = SiftEngine::new(DefaultLetEvaluator);
    engine.register(arc);
    let matches = engine.evaluate(&g);
    assert_eq!(matches.len(), 0, "cancel should block the match");
}

// ---------------------------------------------------------------------------
// Choice: exclusive — first to complete kills others
// ---------------------------------------------------------------------------

/// Three crisis types, exclusive. Only the first to complete survives.
#[test]
fn incremental_choice_exclusive() {
    let war = PatternBuilder::<String, MemValue>::new("war")
        .stage("e1", |s| {
            s.edge("e1", "eventType".into(), G::str_val("war"))
        })
        .build();

    let famine = PatternBuilder::<String, MemValue>::new("famine")
        .stage("e1", |s| {
            s.edge("e1", "eventType".into(), G::str_val("famine"))
        })
        .build();

    let plague = PatternBuilder::<String, MemValue>::new("plague")
        .stage("e1", |s| {
            s.edge("e1", "eventType".into(), G::str_val("plague"))
        })
        .build();

    let crises = compose::choice("crisis", &[&war, &famine, &plague], true);

    let mut g = G::new_graph();
    let mut engine: SiftEngineFor<G> = SiftEngine::new(DefaultLetEvaluator);
    for c in crises {
        engine.register(c);
    }

    // Famine hits first
    g.add_str_edge("ev1", "eventType", "famine", 1);
    g.set_current_time(1);
    let events = engine.on_edge_added(
        &g,
        &"ev1".to_string(),
        &"eventType".to_string(),
        &G::str_val("famine"),
        &Interval::open(1),
    );

    let completed: Vec<_> = events
        .iter()
        .filter(|e| matches!(e, SiftEvent::Completed { .. }))
        .collect();
    assert_eq!(completed.len(), 1);

    // Now war hits — but it's still a single-stage pattern, so it completes immediately
    // However, the group kill from famine's completion already happened in the previous call.
    // War's completion is independent (single-stage patterns complete on initiation).
    // The exclusive group kills PMs, not completed matches — single-stage patterns
    // don't have active PMs to kill.
    // For multi-stage exclusive choice, see the next test.
}

/// Multi-stage exclusive choice: first to complete kills the others' PMs.
#[test]
fn incremental_choice_exclusive_multistage() {
    let path_a = PatternBuilder::<String, MemValue>::new("path_a")
        .stage("e1", |s| {
            s.edge("e1", "eventType".into(), G::str_val("start_a"))
        })
        .stage("e2", |s| {
            s.edge("e2", "eventType".into(), G::str_val("end_a"))
        })
        .build();

    let path_b = PatternBuilder::<String, MemValue>::new("path_b")
        .stage("e1", |s| {
            s.edge("e1", "eventType".into(), G::str_val("start_b"))
        })
        .stage("e2", |s| {
            s.edge("e2", "eventType".into(), G::str_val("end_b"))
        })
        .build();

    let paths = compose::choice("path", &[&path_a, &path_b], true);

    let mut g = G::new_graph();
    let mut engine: SiftEngineFor<G> = SiftEngine::new(DefaultLetEvaluator);
    for p in paths {
        engine.register(p);
    }

    // Both paths start
    g.add_str_edge("ev1", "eventType", "start_a", 1);
    g.add_str_edge("ev2", "eventType", "start_b", 2);
    g.set_current_time(2);
    engine.on_edge_added(&g, &"ev1".into(), &"eventType".into(), &G::str_val("start_a"), &Interval::open(1));
    engine.on_edge_added(&g, &"ev2".into(), &"eventType".into(), &G::str_val("start_b"), &Interval::open(2));

    // Both should have active PMs
    let active = engine.partial_matches().iter().filter(|pm| pm.state == MatchState::Active).count();
    assert_eq!(active, 2, "both paths should have active PMs");

    // Path A completes
    g.add_str_edge("ev3", "eventType", "end_a", 5);
    g.set_current_time(5);
    let events = engine.on_edge_added(&g, &"ev3".into(), &"eventType".into(), &G::str_val("end_a"), &Interval::open(5));

    let completed: Vec<_> = events.iter().filter(|e| matches!(e, SiftEvent::Completed { .. })).collect();
    assert_eq!(completed.len(), 1);

    // Path B's PM should be killed by the exclusive group
    let active_after = engine.partial_matches().iter().filter(|pm| pm.state == MatchState::Active).count();
    assert_eq!(active_after, 0, "path_b's PM should be killed by exclusive group");
}

// ---------------------------------------------------------------------------
// Repeat: same offender three times
// ---------------------------------------------------------------------------

/// Three offenses by the same character.
#[test]
fn batch_repeat_shared_binding() {
    let offense = PatternBuilder::<String, MemValue>::new("offense")
        .stage("e1", |s| {
            s.edge("e1", "eventType".into(), G::str_val("offense"))
                .edge_bind("e1", "actor".into(), "offender")
        })
        .build();

    let escalation = compose::repeat("three_strikes", &offense, 3, &["offender"]);
    assert_eq!(escalation.stages.len(), 3);

    let mut g = G::new_graph();
    g.add_str_edge("ev1", "eventType", "offense", 1);
    g.add_ref_edge("ev1", "actor", "alice", 1);
    g.add_str_edge("ev2", "eventType", "offense", 5);
    g.add_ref_edge("ev2", "actor", "alice", 5);
    g.add_str_edge("ev3", "eventType", "offense", 10);
    g.add_ref_edge("ev3", "actor", "alice", 10);
    g.set_current_time(15);

    let mut engine: SiftEngineFor<G> = SiftEngine::new(DefaultLetEvaluator);
    engine.register(escalation);

    let matches = engine.evaluate(&g);
    assert_eq!(matches.len(), 1);
    assert_eq!(matches[0].pattern, "three_strikes");
    assert!(G::is_node_eq(&matches[0].bindings.get("offender").unwrap(), "alice"));
}

/// Repeat doesn't match when different actors commit the offenses.
#[test]
fn batch_repeat_different_actors_no_match() {
    let offense = PatternBuilder::<String, MemValue>::new("offense")
        .stage("e1", |s| {
            s.edge("e1", "eventType".into(), G::str_val("offense"))
                .edge_bind("e1", "actor".into(), "offender")
        })
        .build();

    let escalation = compose::repeat("three_strikes", &offense, 3, &["offender"]);

    let mut g = G::new_graph();
    g.add_str_edge("ev1", "eventType", "offense", 1);
    g.add_ref_edge("ev1", "actor", "alice", 1);
    g.add_str_edge("ev2", "eventType", "offense", 5);
    g.add_ref_edge("ev2", "actor", "bob", 5); // different actor
    g.add_str_edge("ev3", "eventType", "offense", 10);
    g.add_ref_edge("ev3", "actor", "alice", 10);
    g.set_current_time(15);

    let mut engine: SiftEngineFor<G> = SiftEngine::new(DefaultLetEvaluator);
    engine.register(escalation);

    let matches = engine.evaluate(&g);
    assert_eq!(matches.len(), 0);
}

// ---- consistency ----

/// Build the VoH pattern.
fn voh_pattern_consistency() -> Pattern<String, MemValue> {
    PatternBuilder::new("violation_of_hospitality")
        .stage("e1", |s| {
            s.edge("e1", "eventType".into(), G::str_val("enterTown"))
                .edge_bind("e1", "actor".into(), "guest")
        })
        .stage("e2", |s| {
            s.edge("e2", "eventType".into(), G::str_val("showHospitality"))
                .edge_bind("e2", "actor".into(), "host")
                .edge_bind("e2", "target".into(), "guest")
        })
        .stage("e3", |s| {
            s.edge("e3", "eventType".into(), G::str_val("harm"))
                .edge_bind("e3", "actor".into(), "host")
                .edge_bind("e3", "target".into(), "guest")
        })
        .unless_between("e1", "e3", |neg| {
            neg.edge("eMid", "eventType".into(), G::str_val("leaveTown"))
                .edge_bind("eMid", "actor".into(), "guest")
        })
        .build()
}

/// Feed events incrementally. Each event is a set of edges added to the graph
/// before the trigger edge (eventType) is passed to on_edge_added.
struct EventSpec<'a> {
    node: &'a str,
    event_type: &'a str,
    str_edges: Vec<(&'a str, &'a str)>,
    ref_edges: Vec<(&'a str, &'a str)>,
    time: i64,
}

fn feed_events_incremental(
    g: &mut G,
    engine: &mut SiftEngineFor<G>,
    events: &[EventSpec<'_>],
) -> usize {
    let mut completed = 0;
    for ev in events {
        // Add all edges to the graph first
        g.add_str_edge(ev.node, "eventType", ev.event_type, ev.time);
        for &(label, val) in &ev.str_edges {
            g.add_str_edge(ev.node, label, val, ev.time);
        }
        for &(label, target) in &ev.ref_edges {
            g.add_ref_edge(ev.node, label, target, ev.time);
        }
        g.set_current_time(ev.time);
        // Trigger on the eventType edge
        let sift_events = engine.on_edge_added(
            g,
            &ev.node.into(),
            &"eventType".into(),
            &G::str_val(ev.event_type),
            &Interval::open(ev.time),
        );
        completed += sift_events
            .iter()
            .filter(|e| matches!(e, SiftEvent::Completed { .. }))
            .count();
    }
    completed
}

/// Batch and incremental produce the same result (0 matches) for a negated graph.
#[test]
fn batch_incremental_negation_consistency() {
    // Batch: hospitality + guest leaves -> 0 matches
    let mut g_batch = G::new_graph();
    g_batch.add_str_edge("ev1", "eventType", "enterTown", 1);
    g_batch.add_ref_edge("ev1", "actor", "alice", 1);
    g_batch.add_str_edge("ev2", "eventType", "showHospitality", 2);
    g_batch.add_ref_edge("ev2", "actor", "bob", 2);
    g_batch.add_ref_edge("ev2", "target", "alice", 2);
    g_batch.add_str_edge("ev_leave", "eventType", "leaveTown", 3);
    g_batch.add_ref_edge("ev_leave", "actor", "alice", 3);
    g_batch.add_str_edge("ev3", "eventType", "harm", 4);
    g_batch.add_ref_edge("ev3", "actor", "bob", 4);
    g_batch.add_ref_edge("ev3", "target", "alice", 4);
    g_batch.set_current_time(10);

    let mut engine_batch: SiftEngineFor<G> = SiftEngine::new(DefaultLetEvaluator);
    engine_batch.register(voh_pattern_consistency());
    let batch_count = engine_batch.evaluate(&g_batch).len();
    assert_eq!(batch_count, 0, "batch: negation should block");

    // Incremental: same events
    let mut g_inc = G::new_graph();
    let mut engine_inc: SiftEngineFor<G> = SiftEngine::new(DefaultLetEvaluator);
    engine_inc.register(voh_pattern_consistency());

    let events = vec![
        EventSpec {
            node: "ev1",
            event_type: "enterTown",
            str_edges: vec![],
            ref_edges: vec![("actor", "alice")],
            time: 1,
        },
        EventSpec {
            node: "ev2",
            event_type: "showHospitality",
            str_edges: vec![],
            ref_edges: vec![("actor", "bob"), ("target", "alice")],
            time: 2,
        },
        EventSpec {
            node: "ev_leave",
            event_type: "leaveTown",
            str_edges: vec![],
            ref_edges: vec![("actor", "alice")],
            time: 3,
        },
        EventSpec {
            node: "ev3",
            event_type: "harm",
            str_edges: vec![],
            ref_edges: vec![("actor", "bob"), ("target", "alice")],
            time: 4,
        },
    ];
    let inc_count = feed_events_incremental(&mut g_inc, &mut engine_inc, &events);
    assert_eq!(
        inc_count, batch_count,
        "incremental and batch should agree: both 0"
    );
}

/// Batch and incremental produce the same result (2 matches) for two independent violations.
#[test]
fn batch_incremental_multi_match_consistency() {
    // Two independent VoH instances: alice+bob and dave+charlie
    let mut g_batch = G::new_graph();
    g_batch.add_str_edge("ev1", "eventType", "enterTown", 1);
    g_batch.add_ref_edge("ev1", "actor", "alice", 1);
    g_batch.add_str_edge("ev2", "eventType", "showHospitality", 2);
    g_batch.add_ref_edge("ev2", "actor", "bob", 2);
    g_batch.add_ref_edge("ev2", "target", "alice", 2);
    g_batch.add_str_edge("ev3", "eventType", "harm", 3);
    g_batch.add_ref_edge("ev3", "actor", "bob", 3);
    g_batch.add_ref_edge("ev3", "target", "alice", 3);
    g_batch.add_str_edge("ev4", "eventType", "enterTown", 4);
    g_batch.add_ref_edge("ev4", "actor", "dave", 4);
    g_batch.add_str_edge("ev5", "eventType", "showHospitality", 5);
    g_batch.add_ref_edge("ev5", "actor", "charlie", 5);
    g_batch.add_ref_edge("ev5", "target", "dave", 5);
    g_batch.add_str_edge("ev6", "eventType", "harm", 6);
    g_batch.add_ref_edge("ev6", "actor", "charlie", 6);
    g_batch.add_ref_edge("ev6", "target", "dave", 6);
    g_batch.set_current_time(10);

    let mut engine_batch: SiftEngineFor<G> = SiftEngine::new(DefaultLetEvaluator);
    engine_batch.register(voh_pattern_consistency());
    let batch_count = engine_batch.evaluate(&g_batch).len();
    assert_eq!(batch_count, 2, "batch: should find 2 violations");

    // Incremental
    let mut g_inc = G::new_graph();
    let mut engine_inc: SiftEngineFor<G> = SiftEngine::new(DefaultLetEvaluator);
    engine_inc.register(voh_pattern_consistency());

    let events = vec![
        EventSpec {
            node: "ev1",
            event_type: "enterTown",
            str_edges: vec![],
            ref_edges: vec![("actor", "alice")],
            time: 1,
        },
        EventSpec {
            node: "ev2",
            event_type: "showHospitality",
            str_edges: vec![],
            ref_edges: vec![("actor", "bob"), ("target", "alice")],
            time: 2,
        },
        EventSpec {
            node: "ev3",
            event_type: "harm",
            str_edges: vec![],
            ref_edges: vec![("actor", "bob"), ("target", "alice")],
            time: 3,
        },
        EventSpec {
            node: "ev4",
            event_type: "enterTown",
            str_edges: vec![],
            ref_edges: vec![("actor", "dave")],
            time: 4,
        },
        EventSpec {
            node: "ev5",
            event_type: "showHospitality",
            str_edges: vec![],
            ref_edges: vec![("actor", "charlie"), ("target", "dave")],
            time: 5,
        },
        EventSpec {
            node: "ev6",
            event_type: "harm",
            str_edges: vec![],
            ref_edges: vec![("actor", "charlie"), ("target", "dave")],
            time: 6,
        },
    ];
    let inc_count = feed_events_incremental(&mut g_inc, &mut engine_inc, &events);
    assert_eq!(
        inc_count, batch_count,
        "incremental and batch should agree: both 2"
    );
}

/// drain_completed is idempotent -- second drain returns 0.
#[test]
fn drain_completed_idempotent() {
    let mut g = G::new_graph();
    let mut engine: SiftEngineFor<G> = SiftEngine::new(DefaultLetEvaluator);
    engine.register(
        PatternBuilder::new("find_harm")
            .stage("e", |s| s.edge("e", "eventType".into(), G::str_val("harm")))
            .build(),
    );

    g.add_str_edge("ev1", "eventType", "harm", 1);
    g.set_current_time(1);
    engine.on_edge_added(
        &g,
        &"ev1".into(),
        &"eventType".into(),
        &G::str_val("harm"),
        &Interval::open(1),
    );

    let first = engine.drain_completed();
    assert_eq!(first.len(), 1, "first drain should return 1 completed");

    let second = engine.drain_completed();
    assert_eq!(second.len(), 0, "second drain should return 0");
}

/// drain_completed interleaved -- complete A, drain, complete B, drain.
#[test]
fn drain_completed_interleaved() {
    let mut g = G::new_graph();
    let mut engine: SiftEngineFor<G> = SiftEngine::new(DefaultLetEvaluator);
    engine.register(
        PatternBuilder::new("find_harm")
            .stage("e", |s| s.edge("e", "eventType".into(), G::str_val("harm")))
            .build(),
    );
    engine.register(
        PatternBuilder::new("find_betray")
            .stage("e", |s| {
                s.edge("e", "eventType".into(), G::str_val("betray"))
            })
            .build(),
    );

    // Complete pattern A
    g.add_str_edge("ev1", "eventType", "harm", 1);
    g.set_current_time(1);
    engine.on_edge_added(
        &g,
        &"ev1".into(),
        &"eventType".into(),
        &G::str_val("harm"),
        &Interval::open(1),
    );

    let first = engine.drain_completed();
    assert_eq!(first.len(), 1, "first drain: 1 (harm)");
    assert_eq!(first[0].pattern, "find_harm");

    // Complete pattern B
    g.add_str_edge("ev2", "eventType", "betray", 2);
    g.set_current_time(2);
    engine.on_edge_added(
        &g,
        &"ev2".into(),
        &"eventType".into(),
        &G::str_val("betray"),
        &Interval::open(2),
    );

    let second = engine.drain_completed();
    assert_eq!(second.len(), 1, "second drain: 1 (betray)");
    assert_eq!(second[0].pattern, "find_betray");
}

// ---- cross stage constraints ----

/// Batch: GtVar matches when second value > first value.
#[test]
fn batch_cross_stage_gt_matches() {
    let mut g = G::new_graph();
    // Stage 1: order with price 100
    g.add_str_edge("ev1", "type", "order", 1);
    g.add_num_edge("ev1", "price", 100.0, 1);
    // Stage 2: order with price 150 (> 100)
    g.add_str_edge("ev2", "type", "order", 2);
    g.add_num_edge("ev2", "price", 150.0, 2);
    g.set_current_time(10);

    let pattern = PatternBuilder::new("escalating_price")
        .stage("e1", |s| {
            s.edge("e1", "type".into(), G::str_val("order")).edge_bind(
                "e1",
                "price".into(),
                "base_price",
            )
        })
        .stage("e2", |s| {
            s.edge("e2", "type".into(), G::str_val("order"))
                .edge_gt_var("e2", "price".into(), "base_price")
        })
        .build();

    let mut engine: SiftEngineFor<G> = SiftEngine::new(DefaultLetEvaluator);
    engine.register(pattern);
    assert_eq!(engine.evaluate(&g).len(), 1, "150 > 100 should match");
}

/// Batch: GtVar does NOT match when second value <= first value.
#[test]
fn batch_cross_stage_gt_no_match() {
    let mut g = G::new_graph();
    g.add_str_edge("ev1", "type", "order", 1);
    g.add_num_edge("ev1", "price", 100.0, 1);
    g.add_str_edge("ev2", "type", "order", 2);
    g.add_num_edge("ev2", "price", 80.0, 2);
    g.set_current_time(10);

    let pattern = PatternBuilder::new("escalating_price")
        .stage("e1", |s| {
            s.edge("e1", "type".into(), G::str_val("order")).edge_bind(
                "e1",
                "price".into(),
                "base_price",
            )
        })
        .stage("e2", |s| {
            s.edge("e2", "type".into(), G::str_val("order"))
                .edge_gt_var("e2", "price".into(), "base_price")
        })
        .build();

    let mut engine: SiftEngineFor<G> = SiftEngine::new(DefaultLetEvaluator);
    engine.register(pattern);
    assert_eq!(engine.evaluate(&g).len(), 0, "80 > 100 should not match");
}

/// Batch: LtVar matches when second value < first value (deterioration).
#[test]
fn batch_cross_stage_lt_matches() {
    let mut g = G::new_graph();
    g.add_str_edge("ev1", "type", "lab_result", 1);
    g.add_num_edge("ev1", "value", 7.5, 1);
    g.add_str_edge("ev2", "type", "lab_result", 2);
    g.add_num_edge("ev2", "value", 5.0, 2);
    g.set_current_time(10);

    let pattern = PatternBuilder::new("deterioration")
        .stage("e1", |s| {
            s.edge("e1", "type".into(), G::str_val("lab_result"))
                .edge_bind("e1", "value".into(), "baseline")
        })
        .stage("e2", |s| {
            s.edge("e2", "type".into(), G::str_val("lab_result"))
                .edge_lt_var("e2", "value".into(), "baseline")
        })
        .build();

    let mut engine: SiftEngineFor<G> = SiftEngine::new(DefaultLetEvaluator);
    engine.register(pattern);
    assert_eq!(engine.evaluate(&g).len(), 1, "5.0 < 7.5 should match");
}

/// Batch: EqVar matches when second value equals first value.
#[test]
fn batch_cross_stage_eq_matches() {
    let mut g = G::new_graph();
    g.add_str_edge("ev1", "type", "invoice", 1);
    g.add_num_edge("ev1", "amount", 500.0, 1);
    g.add_str_edge("ev2", "type", "payment", 2);
    g.add_num_edge("ev2", "amount", 500.0, 2);
    g.set_current_time(10);

    let pattern = PatternBuilder::new("exact_payment")
        .stage("e1", |s| {
            s.edge("e1", "type".into(), G::str_val("invoice"))
                .edge_bind("e1", "amount".into(), "expected")
        })
        .stage("e2", |s| {
            s.edge("e2", "type".into(), G::str_val("payment"))
                .edge_eq_var("e2", "amount".into(), "expected")
        })
        .build();

    let mut engine: SiftEngineFor<G> = SiftEngine::new(DefaultLetEvaluator);
    engine.register(pattern);
    assert_eq!(engine.evaluate(&g).len(), 1, "500 == 500 should match");
}

/// Incremental: GtVar works with on_edge_added.
#[test]
fn incremental_cross_stage_gt() {
    let mut g = G::new_graph();
    let mut engine: SiftEngineFor<G> = SiftEngine::new(DefaultLetEvaluator);

    engine.register(
        PatternBuilder::new("escalation")
            .stage("e1", |s| {
                s.edge("e1", "type".into(), G::str_val("bid")).edge_bind(
                    "e1",
                    "price".into(),
                    "prev_price",
                )
            })
            .stage("e2", |s| {
                s.edge("e2", "type".into(), G::str_val("bid")).edge_gt_var(
                    "e2",
                    "price".into(),
                    "prev_price",
                )
            })
            .build(),
    );

    // Tick 1: bid at 100
    g.add_str_edge("ev1", "type", "bid", 1);
    g.add_num_edge("ev1", "price", 100.0, 1);
    g.set_current_time(1);
    let events = engine.on_edge_added(
        &g,
        &"ev1".into(),
        &"type".into(),
        &G::str_val("bid"),
        &Interval::open(1),
    );
    let advanced = events
        .iter()
        .filter(|e| matches!(e, SiftEvent::Advanced { .. }))
        .count();
    assert!(advanced > 0, "first bid should initiate a PM");

    // Tick 2: bid at 150 — should complete
    g.add_str_edge("ev2", "type", "bid", 2);
    g.add_num_edge("ev2", "price", 150.0, 2);
    g.set_current_time(2);
    let events = engine.on_edge_added(
        &g,
        &"ev2".into(),
        &"type".into(),
        &G::str_val("bid"),
        &Interval::open(2),
    );
    let completed = events
        .iter()
        .filter(|e| matches!(e, SiftEvent::Completed { .. }))
        .count();
    assert_eq!(completed, 1, "150 > 100 should complete the pattern");
}

// ---- gap analysis ----

fn voh_pattern_gap_analysis() -> Pattern<String, MemValue> {
    PatternBuilder::new("violation_of_hospitality")
        .stage("e1", |s| {
            s.edge("e1", "eventType".into(), G::str_val("enterTown"))
                .edge_bind("e1", "actor".into(), "guest")
        })
        .stage("e2", |s| {
            s.edge("e2", "eventType".into(), G::str_val("showHospitality"))
                .edge_bind("e2", "actor".into(), "host")
                .edge_bind("e2", "target".into(), "guest")
        })
        .stage("e3", |s| {
            s.edge("e3", "eventType".into(), G::str_val("harm"))
                .edge_bind("e3", "actor".into(), "host")
                .edge_bind("e3", "target".into(), "guest")
        })
        .unless_between("e1", "e3", |neg| {
            neg.edge("eMid", "eventType".into(), G::str_val("leaveTown"))
                .edge_bind("eMid", "actor".into(), "guest")
        })
        .build()
}

/// why_not on an empty graph stops at the first unmatched stage.
#[test]
fn gap_empty_graph() {
    let g = G::new_graph();
    let mut engine: SiftEngineFor<G> = SiftEngine::new(DefaultLetEvaluator);
    engine.register(voh_pattern_gap_analysis());
    let analysis = engine.why_not(&g, "violation_of_hospitality").unwrap();
    assert_eq!(
        analysis.stages.len(),
        1,
        "should stop at first unmatched stage"
    );
    match analysis.stages[0].status {
        StageStatus::Unmatched => {}
        ref other => panic!("expected Unmatched, got {:?}", other),
    }
}

/// why_not returns None for an unregistered pattern.
#[test]
fn gap_unknown_pattern() {
    let g = G::new_graph();
    let mut engine: SiftEngineFor<G> = SiftEngine::new(DefaultLetEvaluator);
    engine.register(voh_pattern_gap_analysis());
    let result = engine.why_not(&g, "nonexistent_pattern");
    assert!(result.is_none(), "unknown pattern should return None");
}

/// why_not: 3-clause stage where clauses 1 and 2 match but clause 3 doesn't.
#[test]
fn gap_partially_matched_stage() {
    let mut g = G::new_graph();
    // ev1 has eventType and actor, but missing "tag"
    g.add_str_edge("ev1", "eventType", "enterTown", 1);
    g.add_ref_edge("ev1", "actor", "alice", 1);
    g.set_current_time(10);

    let pattern = PatternBuilder::new("tagged_entry")
        .stage("e1", |s| {
            s.edge("e1", "eventType".into(), G::str_val("enterTown"))
                .edge_bind("e1", "actor".into(), "person")
                .edge("e1", "tag".into(), G::str_val("important"))
        })
        .build();

    let mut engine: SiftEngineFor<G> = SiftEngine::new(DefaultLetEvaluator);
    engine.register(pattern);
    let analysis = engine.why_not(&g, "tagged_entry").unwrap();

    assert_eq!(analysis.stages.len(), 1, "should analyze first stage");
    // The stage should be partially matched (some clauses ok, some not)
    // Note: why_not doesn't propagate bindings, so source var is unbound.
    // The first stage analysis depends on implementation — it might be Unmatched
    // because the source var for the first clause is unbound in why_not.
    assert!(
        !analysis.stages[0].clauses.is_empty(),
        "should have clause analyses"
    );
}

/// why_not: stage 2 fails because binding doesn't carry expected property.
#[test]
fn gap_second_stage_fails_binding() {
    let mut g = G::new_graph();
    // Stage 1 data is present
    g.add_str_edge("ev1", "eventType", "enterTown", 1);
    g.add_ref_edge("ev1", "actor", "alice", 1);
    // alice does NOT have status=leader
    g.set_current_time(10);

    let pattern = PatternBuilder::new("leader_entry")
        .stage("e1", |s| {
            s.edge("e1", "eventType".into(), G::str_val("enterTown"))
                .edge_bind("e1", "actor".into(), "char")
        })
        .stage("e2", |s| {
            s.edge("e2", "eventType".into(), G::str_val("showHospitality"))
                .edge("char", "status".into(), G::str_val("leader"))
        })
        .build();

    let mut engine: SiftEngineFor<G> = SiftEngine::new(DefaultLetEvaluator);
    engine.register(pattern);
    let analysis = engine.why_not(&g, "leader_entry").unwrap();

    // why_not should stop at the first unmatched stage
    // Stage 1 source var is unbound in why_not, so it may report stage 1 as unmatched
    assert!(
        !analysis.stages.is_empty(),
        "should have at least one stage analysis"
    );
    // The last reported stage should be unmatched
    let last = analysis.stages.last().unwrap();
    assert!(
        !matches!(last.status, StageStatus::Matched),
        "last stage should not be Matched, got {:?}",
        last.status
    );
}

/// why_not: pattern with not_edge in stage where edge exists -> should report failure.
#[test]
fn gap_negated_clause_in_stage() {
    let mut g = G::new_graph();
    g.add_str_edge("ev1", "eventType", "action", 1);
    g.add_str_edge("ev1", "tag", "forbidden", 1);
    g.set_current_time(10);

    let pattern = PatternBuilder::new("clean_action")
        .stage("e1", |s| {
            s.edge("e1", "eventType".into(), G::str_val("action"))
                .not_edge("e1", "tag".into(), G::str_val("forbidden"))
        })
        .build();

    let mut engine: SiftEngineFor<G> = SiftEngine::new(DefaultLetEvaluator);
    engine.register(pattern);

    // Batch: should not match because tag=forbidden exists
    assert_eq!(
        engine.evaluate(&g).len(),
        0,
        "tag=forbidden exists -> not_edge blocks match"
    );

    // why_not should report the issue
    let analysis = engine.why_not(&g, "clean_action").unwrap();
    assert!(
        !analysis.stages.is_empty(),
        "should have stage analysis"
    );
}

/// why_not with data present still reports first stage unmatched (bindings
/// are not propagated in why_not's current implementation).
#[test]
fn gap_with_partial_data() {
    let mut g = G::new_graph();
    g.add_str_edge("ev1", "eventType", "enterTown", 1);
    g.add_ref_edge("ev1", "actor", "alice", 1);
    g.set_current_time(10);

    let mut engine: SiftEngineFor<G> = SiftEngine::new(DefaultLetEvaluator);
    engine.register(voh_pattern_gap_analysis());
    let analysis = engine.why_not(&g, "violation_of_hospitality").unwrap();
    // why_not stops at the first unmatched stage. Since bindings don't
    // propagate, the first stage's source var (?e1) is unbound.
    assert_eq!(
        analysis.stages.len(),
        1,
        "should stop at first stage (unbound source var)"
    );
    // The stage should have clause analyses with reasons
    assert!(
        !analysis.stages[0].clauses.is_empty(),
        "should have clause analyses"
    );
}

// ---- hospitality ----

/// Build the violation_of_hospitality pattern.
fn voh_pattern_hospitality() -> Pattern<String, MemValue> {
    PatternBuilder::new("violation_of_hospitality")
        .stage("e1", |s| {
            s.edge("e1", "eventType".into(), G::str_val("enterTown"))
                .edge_bind("e1", "actor".into(), "guest")
        })
        .stage("e2", |s| {
            s.edge("e2", "eventType".into(), G::str_val("showHospitality"))
                .edge_bind("e2", "actor".into(), "host")
                .edge_bind("e2", "target".into(), "guest")
        })
        .stage("e3", |s| {
            s.edge("e3", "eventType".into(), G::str_val("harm"))
                .edge_bind("e3", "actor".into(), "host")
                .edge_bind("e3", "target".into(), "guest")
        })
        .unless_between("e1", "e3", |neg| {
            neg.edge("eMid", "eventType".into(), G::str_val("leaveTown"))
                .edge_bind("eMid", "actor".into(), "guest")
        })
        .build()
}

/// Build the standard hospitality graph.
fn hospitality_graph() -> G {
    let mut g = G::new_graph();
    g.add_str_edge("ev1", "eventType", "enterTown", 1);
    g.add_ref_edge("ev1", "actor", "alice", 1);
    g.add_str_edge("ev2", "eventType", "showHospitality", 2);
    g.add_ref_edge("ev2", "actor", "bob", 2);
    g.add_ref_edge("ev2", "target", "alice", 2);
    g.add_str_edge("ev3", "eventType", "harm", 3);
    g.add_ref_edge("ev3", "actor", "bob", 3);
    g.add_ref_edge("ev3", "target", "alice", 3);
    g.set_current_time(10);
    g
}

/// Batch: hospitality violation fires when all three stages match.
#[test]
fn batch_hospitality_matches() {
    let g = hospitality_graph();
    let mut engine: SiftEngineFor<G> = SiftEngine::new(DefaultLetEvaluator);
    engine.register(voh_pattern_hospitality());
    let matches = engine.evaluate(&g);
    assert_eq!(matches.len(), 1, "should find exactly one violation");
    assert_eq!(matches[0].pattern, "violation_of_hospitality");
    assert!(
        G::is_node_eq(&matches[0].bindings.get("guest").unwrap(), "alice"),
        "guest should be alice"
    );
    assert!(
        G::is_node_eq(&matches[0].bindings.get("host").unwrap(), "bob"),
        "host should be bob"
    );
}

/// Batch: guest leaving between entry and harm negates the match.
#[test]
fn batch_hospitality_negated_when_guest_leaves() {
    let mut g = hospitality_graph();
    g.add_str_edge("ev_leave", "eventType", "leaveTown", 2);
    g.add_ref_edge("ev_leave", "actor", "alice", 2);
    let mut engine: SiftEngineFor<G> = SiftEngine::new(DefaultLetEvaluator);
    engine.register(voh_pattern_hospitality());
    assert_eq!(engine.evaluate(&g).len(), 0, "guest left -- should negate");
}

/// Batch: an unrelated character leaving does NOT negate.
#[test]
fn batch_hospitality_unrelated_leave() {
    let mut g = hospitality_graph();
    g.add_str_edge("ev_leave", "eventType", "leaveTown", 2);
    g.add_ref_edge("ev_leave", "actor", "charlie", 2);
    let mut engine: SiftEngineFor<G> = SiftEngine::new(DefaultLetEvaluator);
    engine.register(voh_pattern_hospitality());
    assert_eq!(
        engine.evaluate(&g).len(),
        1,
        "charlie leaving should not negate alice's violation"
    );
}

/// Batch: two guests enter, both receive hospitality from bob, bob harms both -> 2 matches.
#[test]
fn batch_hospitality_two_guests() {
    let mut g = G::new_graph();
    // alice enters
    g.add_str_edge("ev1", "eventType", "enterTown", 1);
    g.add_ref_edge("ev1", "actor", "alice", 1);
    // dave enters
    g.add_str_edge("ev2", "eventType", "enterTown", 2);
    g.add_ref_edge("ev2", "actor", "dave", 2);
    // bob shows hospitality to alice
    g.add_str_edge("ev3", "eventType", "showHospitality", 3);
    g.add_ref_edge("ev3", "actor", "bob", 3);
    g.add_ref_edge("ev3", "target", "alice", 3);
    // bob shows hospitality to dave
    g.add_str_edge("ev4", "eventType", "showHospitality", 4);
    g.add_ref_edge("ev4", "actor", "bob", 4);
    g.add_ref_edge("ev4", "target", "dave", 4);
    // bob harms alice
    g.add_str_edge("ev5", "eventType", "harm", 5);
    g.add_ref_edge("ev5", "actor", "bob", 5);
    g.add_ref_edge("ev5", "target", "alice", 5);
    // bob harms dave
    g.add_str_edge("ev6", "eventType", "harm", 6);
    g.add_ref_edge("ev6", "actor", "bob", 6);
    g.add_ref_edge("ev6", "target", "dave", 6);
    g.set_current_time(10);

    let mut engine: SiftEngineFor<G> = SiftEngine::new(DefaultLetEvaluator);
    engine.register(voh_pattern_hospitality());
    assert_eq!(
        engine.evaluate(&g).len(),
        2,
        "should find two violations (alice + dave)"
    );
}

/// Batch: enter + harm but no showHospitality -> 0 matches (missing middle stage).
#[test]
fn batch_hospitality_missing_middle() {
    let mut g = G::new_graph();
    g.add_str_edge("ev1", "eventType", "enterTown", 1);
    g.add_ref_edge("ev1", "actor", "alice", 1);
    g.add_str_edge("ev3", "eventType", "harm", 3);
    g.add_ref_edge("ev3", "actor", "bob", 3);
    g.add_ref_edge("ev3", "target", "alice", 3);
    g.set_current_time(10);

    let mut engine: SiftEngineFor<G> = SiftEngine::new(DefaultLetEvaluator);
    engine.register(voh_pattern_hospitality());
    assert_eq!(
        engine.evaluate(&g).len(),
        0,
        "missing showHospitality -> no match"
    );
}

/// Batch: VoH with host property check (communalism). Match only when property exists.
#[test]
fn batch_hospitality_host_property_check() {
    // Pattern with property check on host
    let pattern_with_prop = PatternBuilder::new("voh_with_communalism")
        .stage("e1", |s| {
            s.edge("e1", "eventType".into(), G::str_val("enterTown"))
                .edge_bind("e1", "actor".into(), "guest")
        })
        .stage("e2", |s| {
            s.edge("e2", "eventType".into(), G::str_val("showHospitality"))
                .edge_bind("e2", "actor".into(), "host")
                .edge_bind("e2", "target".into(), "guest")
                .edge("host", "value".into(), G::str_val("communalism"))
        })
        .stage("e3", |s| {
            s.edge("e3", "eventType".into(), G::str_val("harm"))
                .edge_bind("e3", "actor".into(), "host")
                .edge_bind("e3", "target".into(), "guest")
        })
        .build();

    // Case 1: bob has value=communalism -> match
    let mut g = hospitality_graph();
    g.add_str_edge("bob", "value", "communalism", 0);

    let mut engine: SiftEngineFor<G> = SiftEngine::new(DefaultLetEvaluator);
    engine.register(pattern_with_prop);
    assert_eq!(
        engine.evaluate(&g).len(),
        1,
        "bob has communalism -> should match"
    );

    // Case 2: bob does NOT have value=communalism -> no match
    let g2 = hospitality_graph();
    let pattern_with_prop2 = PatternBuilder::new("voh_with_communalism")
        .stage("e1", |s| {
            s.edge("e1", "eventType".into(), G::str_val("enterTown"))
                .edge_bind("e1", "actor".into(), "guest")
        })
        .stage("e2", |s| {
            s.edge("e2", "eventType".into(), G::str_val("showHospitality"))
                .edge_bind("e2", "actor".into(), "host")
                .edge_bind("e2", "target".into(), "guest")
                .edge("host", "value".into(), G::str_val("communalism"))
        })
        .stage("e3", |s| {
            s.edge("e3", "eventType".into(), G::str_val("harm"))
                .edge_bind("e3", "actor".into(), "host")
                .edge_bind("e3", "target".into(), "guest")
        })
        .build();

    let mut engine2: SiftEngineFor<G> = SiftEngine::new(DefaultLetEvaluator);
    engine2.register(pattern_with_prop2);
    assert_eq!(
        engine2.evaluate(&g2).len(),
        0,
        "bob lacks communalism -> no match"
    );
}

// ---- incremental ----

/// Helper: build the violation_of_hospitality pattern.
fn voh_pattern_incremental() -> Pattern<String, MemValue> {
    PatternBuilder::new("violation_of_hospitality")
        .stage("e1", |s| {
            s.edge("e1", "eventType".into(), G::str_val("enterTown"))
                .edge_bind("e1", "actor".into(), "guest")
        })
        .stage("e2", |s| {
            s.edge("e2", "eventType".into(), G::str_val("showHospitality"))
                .edge_bind("e2", "actor".into(), "host")
                .edge_bind("e2", "target".into(), "guest")
        })
        .stage("e3", |s| {
            s.edge("e3", "eventType".into(), G::str_val("harm"))
                .edge_bind("e3", "actor".into(), "host")
                .edge_bind("e3", "target".into(), "guest")
        })
        .unless_between("e1", "e3", |neg| {
            neg.edge("eMid", "eventType".into(), G::str_val("leaveTown"))
                .edge_bind("eMid", "actor".into(), "guest")
        })
        .build()
}

/// Incremental: three stages fire Advanced, Advanced, Completed.
#[test]
fn incremental_hospitality_three_stages() {
    let mut g = G::new_graph();
    let mut engine: SiftEngineFor<G> = SiftEngine::new(DefaultLetEvaluator);
    engine.register(voh_pattern_incremental());

    // Stage 1
    g.add_str_edge("ev1", "eventType", "enterTown", 1);
    g.add_ref_edge("ev1", "actor", "alice", 1);
    g.set_current_time(1);
    let ev = engine.on_edge_added(
        &g,
        &"ev1".into(),
        &"eventType".into(),
        &G::str_val("enterTown"),
        &Interval::open(1),
    );
    assert!(
        ev.iter().any(|e| matches!(e, SiftEvent::Advanced { pattern, .. } if pattern == "violation_of_hospitality")),
        "stage 1 should advance"
    );

    // Stage 2
    g.add_str_edge("ev2", "eventType", "showHospitality", 2);
    g.add_ref_edge("ev2", "actor", "bob", 2);
    g.add_ref_edge("ev2", "target", "alice", 2);
    g.set_current_time(2);
    let ev = engine.on_edge_added(
        &g,
        &"ev2".into(),
        &"eventType".into(),
        &G::str_val("showHospitality"),
        &Interval::open(2),
    );
    assert!(
        ev.iter().any(|e| matches!(e, SiftEvent::Advanced { pattern, .. } if pattern == "violation_of_hospitality")),
        "stage 2 should advance"
    );

    // Stage 3 -> complete
    g.add_str_edge("ev3", "eventType", "harm", 3);
    g.add_ref_edge("ev3", "actor", "bob", 3);
    g.add_ref_edge("ev3", "target", "alice", 3);
    g.set_current_time(3);
    let ev = engine.on_edge_added(
        &g,
        &"ev3".into(),
        &"eventType".into(),
        &G::str_val("harm"),
        &Interval::open(3),
    );
    assert!(
        ev.iter().any(|e| matches!(e, SiftEvent::Completed { pattern, .. } if pattern == "violation_of_hospitality")),
        "stage 3 should complete"
    );
}

/// Incremental: negation kills an in-progress match.
#[test]
fn incremental_negation_kills() {
    let mut g = G::new_graph();
    let mut engine: SiftEngineFor<G> = SiftEngine::new(DefaultLetEvaluator);
    engine.register(voh_pattern_incremental());

    // Stages 1 + 2
    g.add_str_edge("ev1", "eventType", "enterTown", 1);
    g.add_ref_edge("ev1", "actor", "alice", 1);
    g.set_current_time(1);
    engine.on_edge_added(&g, &"ev1".into(), &"eventType".into(), &G::str_val("enterTown"), &Interval::open(1));
    g.add_str_edge("ev2", "eventType", "showHospitality", 2);
    g.add_ref_edge("ev2", "actor", "bob", 2);
    g.add_ref_edge("ev2", "target", "alice", 2);
    g.set_current_time(2);
    engine.on_edge_added(&g, &"ev2".into(), &"eventType".into(), &G::str_val("showHospitality"), &Interval::open(2));
    assert!(
        !engine.active_matches_for("violation_of_hospitality").is_empty(),
        "should have active partial match"
    );

    // Guest leaves -> kill
    g.add_str_edge("ev_leave", "eventType", "leaveTown", 3);
    g.add_ref_edge("ev_leave", "actor", "alice", 3);
    g.set_current_time(3);
    let ev = engine.on_edge_added(&g, &"ev_leave".into(), &"eventType".into(), &G::str_val("leaveTown"), &Interval::open(3));
    assert!(
        ev.iter().any(|e| matches!(e, SiftEvent::Negated { .. })),
        "should emit Negated event"
    );
    assert!(
        engine.active_matches_for("violation_of_hospitality").is_empty(),
        "partial match should be dead"
    );
}

/// Incremental: unrelated character leaving does NOT kill match.
#[test]
fn incremental_unrelated_leave_no_kill() {
    let mut g = G::new_graph();
    let mut engine: SiftEngineFor<G> = SiftEngine::new(DefaultLetEvaluator);
    engine.register(voh_pattern_incremental());

    // Stages 1 + 2
    g.add_str_edge("ev1", "eventType", "enterTown", 1);
    g.add_ref_edge("ev1", "actor", "alice", 1);
    g.set_current_time(1);
    engine.on_edge_added(&g, &"ev1".into(), &"eventType".into(), &G::str_val("enterTown"), &Interval::open(1));
    g.add_str_edge("ev2", "eventType", "showHospitality", 2);
    g.add_ref_edge("ev2", "actor", "bob", 2);
    g.add_ref_edge("ev2", "target", "alice", 2);
    g.set_current_time(2);
    engine.on_edge_added(&g, &"ev2".into(), &"eventType".into(), &G::str_val("showHospitality"), &Interval::open(2));

    // Charlie leaves — should NOT kill
    g.add_str_edge("ev_leave", "eventType", "leaveTown", 3);
    g.add_ref_edge("ev_leave", "actor", "charlie", 3);
    g.set_current_time(3);
    let ev = engine.on_edge_added(&g, &"ev_leave".into(), &"eventType".into(), &G::str_val("leaveTown"), &Interval::open(3));
    assert!(
        !ev.iter().any(|e| matches!(e, SiftEvent::Negated { .. })),
        "charlie leaving should not negate"
    );
    assert!(
        !engine.active_matches_for("violation_of_hospitality").is_empty(),
        "partial match should still be alive"
    );
}

/// Incremental: single-stage pattern completes immediately.
#[test]
fn incremental_single_stage_completes() {
    let mut g = G::new_graph();
    let mut engine: SiftEngineFor<G> = SiftEngine::new(DefaultLetEvaluator);
    let pattern = PatternBuilder::new("find_harm")
        .stage("e", |s| {
            s.edge("e", "eventType".into(), G::str_val("harm"))
                .edge_bind("e", "actor".into(), "attacker")
        })
        .build();
    engine.register(pattern);

    g.add_str_edge("ev1", "eventType", "harm", 1);
    g.add_ref_edge("ev1", "actor", "bob", 1);
    g.set_current_time(1);
    let ev = engine.on_edge_added(
        &g,
        &"ev1".into(),
        &"eventType".into(),
        &G::str_val("harm"),
        &Interval::open(1),
    );
    assert!(
        ev.iter().any(|e| matches!(e, SiftEvent::Completed { .. })),
        "single-stage should complete immediately"
    );
}

/// Incremental: drain_completed removes completed matches.
#[test]
fn incremental_drain_completed() {
    let mut g = G::new_graph();
    let mut engine: SiftEngineFor<G> = SiftEngine::new(DefaultLetEvaluator);
    engine.register(
        PatternBuilder::new("find_harm")
            .stage("e", |s| s.edge("e", "eventType".into(), G::str_val("harm")))
            .build(),
    );

    g.add_str_edge("ev1", "eventType", "harm", 1);
    g.set_current_time(1);
    engine.on_edge_added(&g, &"ev1".into(), &"eventType".into(), &G::str_val("harm"), &Interval::open(1));

    let completed = engine.drain_completed();
    assert_eq!(completed.len(), 1, "should have one completed match");
    assert!(
        engine
            .partial_matches()
            .iter()
            .all(|pm| pm.state != MatchState::Complete),
        "no Complete matches should remain after drain"
    );
}

/// Incremental: irrelevant edges produce no events.
#[test]
fn incremental_irrelevant_edges_silent() {
    let mut g = G::new_graph();
    let mut engine: SiftEngineFor<G> = SiftEngine::new(DefaultLetEvaluator);
    engine.register(voh_pattern_incremental());

    // Match stage 1
    g.add_str_edge("ev1", "eventType", "enterTown", 1);
    g.add_ref_edge("ev1", "actor", "alice", 1);
    g.set_current_time(1);
    engine.on_edge_added(&g, &"ev1".into(), &"eventType".into(), &G::str_val("enterTown"), &Interval::open(1));

    // Unrelated edge
    g.add_str_edge("noise", "eventType", "tradeMerchant", 2);
    g.set_current_time(2);
    let ev = engine.on_edge_added(&g, &"noise".into(), &"eventType".into(), &G::str_val("tradeMerchant"), &Interval::open(2));
    assert!(ev.is_empty(), "irrelevant edge should produce no events");
    assert!(
        !engine.active_matches_for("violation_of_hospitality").is_empty(),
        "partial match should survive"
    );
}

/// Incremental: second host creates a fork (two active PMs).
#[test]
fn incremental_second_host_forks_pm() {
    let mut g = G::new_graph();
    let mut engine: SiftEngineFor<G> = SiftEngine::new(DefaultLetEvaluator);
    engine.register(voh_pattern_incremental());

    // Stage 1: alice enters
    g.add_str_edge("ev1", "eventType", "enterTown", 1);
    g.add_ref_edge("ev1", "actor", "alice", 1);
    g.set_current_time(1);
    engine.on_edge_added(
        &g,
        &"ev1".into(),
        &"eventType".into(),
        &G::str_val("enterTown"),
        &Interval::open(1),
    );

    // Stage 2a: bob shows hospitality -> PM advances
    g.add_str_edge("ev2", "eventType", "showHospitality", 2);
    g.add_ref_edge("ev2", "actor", "bob", 2);
    g.add_ref_edge("ev2", "target", "alice", 2);
    g.set_current_time(2);
    engine.on_edge_added(
        &g,
        &"ev2".into(),
        &"eventType".into(),
        &G::str_val("showHospitality"),
        &Interval::open(2),
    );

    // Stage 2b: charlie shows hospitality -> FORK
    g.add_str_edge("ev3", "eventType", "showHospitality", 3);
    g.add_ref_edge("ev3", "actor", "charlie", 3);
    g.add_ref_edge("ev3", "target", "alice", 3);
    g.set_current_time(3);
    engine.on_edge_added(
        &g,
        &"ev3".into(),
        &"eventType".into(),
        &G::str_val("showHospitality"),
        &Interval::open(3),
    );

    // Should have at least 2 active PMs (one with host=bob, one with host=charlie)
    let active = engine.active_matches_for("violation_of_hospitality");
    assert!(
        active.len() >= 2,
        "should have at least 2 active PMs after fork, got {}",
        active.len()
    );
}

/// Incremental: original PM at stage 0 survives after advancing to stage 1.
#[test]
fn incremental_original_pm_survives_advance() {
    let mut g = G::new_graph();
    let mut engine: SiftEngineFor<G> = SiftEngine::new(DefaultLetEvaluator);
    engine.register(voh_pattern_incremental());

    // alice enters -> PM at stage 1
    g.add_str_edge("ev1", "eventType", "enterTown", 1);
    g.add_ref_edge("ev1", "actor", "alice", 1);
    g.set_current_time(1);
    engine.on_edge_added(
        &g,
        &"ev1".into(),
        &"eventType".into(),
        &G::str_val("enterTown"),
        &Interval::open(1),
    );

    let pm_count = engine.partial_matches().len();
    assert!(
        pm_count >= 1,
        "should have at least 1 partial match after stage 1"
    );
}

/// Incremental: a completed single-stage pattern does not emit new events on subsequent edges.
#[test]
fn incremental_dead_and_complete_inert() {
    let mut g = G::new_graph();
    let mut engine: SiftEngineFor<G> = SiftEngine::new(DefaultLetEvaluator);
    let pattern = PatternBuilder::new("find_harm")
        .stage("e", |s| {
            s.edge("e", "eventType".into(), G::str_val("harm"))
                .edge_bind("e", "actor".into(), "attacker")
        })
        .build();
    engine.register(pattern);

    // Complete it
    g.add_str_edge("ev1", "eventType", "harm", 1);
    g.add_ref_edge("ev1", "actor", "bob", 1);
    g.set_current_time(1);
    let ev = engine.on_edge_added(
        &g,
        &"ev1".into(),
        &"eventType".into(),
        &G::str_val("harm"),
        &Interval::open(1),
    );
    assert!(
        ev.iter()
            .any(|e| matches!(e, SiftEvent::Completed { .. })),
        "should complete"
    );

    // Drain the completed match
    engine.drain_completed();

    // Add more harm edges — the completed PM should not emit new events
    g.add_str_edge("ev2", "eventType", "harm", 2);
    g.add_ref_edge("ev2", "actor", "charlie", 2);
    g.set_current_time(2);
    let ev = engine.on_edge_added(
        &g,
        &"ev2".into(),
        &"eventType".into(),
        &G::str_val("harm"),
        &Interval::open(2),
    );
    // A new PM will be created and completed for this pattern (it's a single-stage pattern
    // that matches new events). This is correct behavior — the pattern template stays active.
    // The key point is that the *old* completed PM doesn't emit duplicate events.
    let completed_count = ev
        .iter()
        .filter(|e| matches!(e, SiftEvent::Completed { .. }))
        .count();
    assert!(
        completed_count <= 1,
        "should have at most 1 new completion (from the template), not duplicates from old PM"
    );
}

/// Incremental: negation is checked before advance (Phase 1 before Phase 3).
#[test]
fn incremental_negation_checked_before_advance() {
    let mut g = G::new_graph();
    let mut engine: SiftEngineFor<G> = SiftEngine::new(DefaultLetEvaluator);

    // Pattern: promise -> fulfill, unless break_promise after promise
    let pattern = PatternBuilder::new("kept_promise")
        .stage("e1", |s| {
            s.edge("e1", "eventType".into(), G::str_val("promise"))
                .edge_bind("e1", "actor".into(), "person")
        })
        .stage("e2", |s| {
            s.edge("e2", "eventType".into(), G::str_val("fulfill"))
                .edge_bind("e2", "actor".into(), "person")
        })
        .unless_between("e1", "e2", |neg| {
            neg.edge("mid", "eventType".into(), G::str_val("break_promise"))
                .edge_bind("mid", "actor".into(), "person")
        })
        .build();
    engine.register(pattern);

    // alice promises
    g.add_str_edge("ev1", "eventType", "promise", 1);
    g.add_ref_edge("ev1", "actor", "alice", 1);
    g.set_current_time(1);
    engine.on_edge_added(
        &g,
        &"ev1".into(),
        &"eventType".into(),
        &G::str_val("promise"),
        &Interval::open(1),
    );

    // alice breaks promise -> should kill the PM
    g.add_str_edge("ev2", "eventType", "break_promise", 2);
    g.add_ref_edge("ev2", "actor", "alice", 2);
    g.set_current_time(2);
    let ev = engine.on_edge_added(
        &g,
        &"ev2".into(),
        &"eventType".into(),
        &G::str_val("break_promise"),
        &Interval::open(2),
    );
    assert!(
        ev.iter().any(|e| matches!(e, SiftEvent::Negated { .. })),
        "break_promise should kill the PM"
    );
    assert!(
        engine.active_matches_for("kept_promise").is_empty(),
        "PM should be dead"
    );
}

/// Incremental: negation window closes after e3 is bound (unless_between e1..e3).
#[test]
fn incremental_negation_only_when_window_open() {
    let mut g = G::new_graph();
    let mut engine: SiftEngineFor<G> = SiftEngine::new(DefaultLetEvaluator);
    engine.register(voh_pattern_incremental());

    // Complete the 3-stage pattern fully
    g.add_str_edge("ev1", "eventType", "enterTown", 1);
    g.add_ref_edge("ev1", "actor", "alice", 1);
    g.set_current_time(1);
    engine.on_edge_added(
        &g,
        &"ev1".into(),
        &"eventType".into(),
        &G::str_val("enterTown"),
        &Interval::open(1),
    );

    g.add_str_edge("ev2", "eventType", "showHospitality", 2);
    g.add_ref_edge("ev2", "actor", "bob", 2);
    g.add_ref_edge("ev2", "target", "alice", 2);
    g.set_current_time(2);
    engine.on_edge_added(
        &g,
        &"ev2".into(),
        &"eventType".into(),
        &G::str_val("showHospitality"),
        &Interval::open(2),
    );

    g.add_str_edge("ev3", "eventType", "harm", 3);
    g.add_ref_edge("ev3", "actor", "bob", 3);
    g.add_ref_edge("ev3", "target", "alice", 3);
    g.set_current_time(3);
    let ev = engine.on_edge_added(
        &g,
        &"ev3".into(),
        &"eventType".into(),
        &G::str_val("harm"),
        &Interval::open(3),
    );
    assert!(
        ev.iter()
            .any(|e| matches!(e, SiftEvent::Completed { .. })),
        "should complete"
    );

    // Drain the completed match so it's safely out of the engine
    let completed = engine.drain_completed();
    assert_eq!(completed.len(), 1, "should have 1 completed match to drain");

    // Now add leaveTown AFTER the pattern completed (at t=4).
    // The completed match was already drained, so it cannot be affected.
    // Some ACTIVE partial matches (e.g., from stage 0/1 forks) may still be negated,
    // but the already-completed match is safe.
    g.add_str_edge("ev_leave", "eventType", "leaveTown", 4);
    g.add_ref_edge("ev_leave", "actor", "alice", 4);
    g.set_current_time(4);
    engine.on_edge_added(
        &g,
        &"ev_leave".into(),
        &"eventType".into(),
        &G::str_val("leaveTown"),
        &Interval::open(4),
    );

    // The drained completed match is still valid — not retroactively invalidated
    assert_eq!(
        completed[0].pattern,
        "violation_of_hospitality",
        "the already-drained completed match is unaffected"
    );
}

/// Incremental: adding a negation edge AFTER completion does NOT invalidate the completed match.
#[test]
fn incremental_negation_after_completion_no_retroactive() {
    let mut g = G::new_graph();
    let mut engine: SiftEngineFor<G> = SiftEngine::new(DefaultLetEvaluator);
    engine.register(voh_pattern_incremental());

    // Complete the pattern
    g.add_str_edge("ev1", "eventType", "enterTown", 1);
    g.add_ref_edge("ev1", "actor", "alice", 1);
    g.set_current_time(1);
    engine.on_edge_added(
        &g,
        &"ev1".into(),
        &"eventType".into(),
        &G::str_val("enterTown"),
        &Interval::open(1),
    );
    g.add_str_edge("ev2", "eventType", "showHospitality", 2);
    g.add_ref_edge("ev2", "actor", "bob", 2);
    g.add_ref_edge("ev2", "target", "alice", 2);
    g.set_current_time(2);
    engine.on_edge_added(
        &g,
        &"ev2".into(),
        &"eventType".into(),
        &G::str_val("showHospitality"),
        &Interval::open(2),
    );
    g.add_str_edge("ev3", "eventType", "harm", 3);
    g.add_ref_edge("ev3", "actor", "bob", 3);
    g.add_ref_edge("ev3", "target", "alice", 3);
    g.set_current_time(3);
    let ev = engine.on_edge_added(
        &g,
        &"ev3".into(),
        &"eventType".into(),
        &G::str_val("harm"),
        &Interval::open(3),
    );
    assert!(
        ev.iter()
            .any(|e| matches!(e, SiftEvent::Completed { .. })),
        "should complete the pattern"
    );

    // Now drain to confirm completion
    let completed = engine.drain_completed();
    assert_eq!(completed.len(), 1, "should have 1 completed match");

    // Add a negation edge in the original window (t=2, between e1=1 and e3=3)
    // This should NOT invalidate the already-completed+drained match.
    // Some active PMs (forks/originals) may get negated, but that's fine.
    g.add_str_edge("ev_late_leave", "eventType", "leaveTown", 2);
    g.add_ref_edge("ev_late_leave", "actor", "alice", 2);
    g.set_current_time(4);
    engine.on_edge_added(
        &g,
        &"ev_late_leave".into(),
        &"eventType".into(),
        &G::str_val("leaveTown"),
        &Interval::open(2),
    );

    // The key assertion: the completed match we already drained is unaffected.
    // We still have it in hand and it's valid.
    assert_eq!(
        completed[0].pattern,
        "violation_of_hospitality",
        "the drained completed match is not retroactively invalidated"
    );

    // No NEW completed matches should appear (the pattern should not re-complete)
    let new_completed = engine.drain_completed();
    assert_eq!(
        new_completed.len(),
        0,
        "no new completions after the negation edge"
    );
}

/// Incremental: negation event includes meaningful details.
#[test]
fn incremental_negation_event_details() {
    let mut g = G::new_graph();
    let mut engine: SiftEngineFor<G> = SiftEngine::new(DefaultLetEvaluator);
    engine.register(voh_pattern_incremental());

    // Set up stages 1+2
    g.add_str_edge("ev1", "eventType", "enterTown", 1);
    g.add_ref_edge("ev1", "actor", "alice", 1);
    g.set_current_time(1);
    engine.on_edge_added(&g, &"ev1".into(), &"eventType".into(), &G::str_val("enterTown"), &Interval::open(1));
    g.add_str_edge("ev2", "eventType", "showHospitality", 2);
    g.add_ref_edge("ev2", "actor", "bob", 2);
    g.add_ref_edge("ev2", "target", "alice", 2);
    g.set_current_time(2);
    engine.on_edge_added(&g, &"ev2".into(), &"eventType".into(), &G::str_val("showHospitality"), &Interval::open(2));

    // Kill it
    g.add_str_edge("ev_leave", "eventType", "leaveTown", 3);
    g.add_ref_edge("ev_leave", "actor", "alice", 3);
    g.set_current_time(3);
    let ev = engine.on_edge_added(&g, &"ev_leave".into(), &"eventType".into(), &G::str_val("leaveTown"), &Interval::open(3));

    let negated = ev.iter().find(|e| matches!(e, SiftEvent::Negated { .. }));
    assert!(negated.is_some(), "should emit Negated event");
    if let Some(SiftEvent::Negated { trigger_source, clause_label, .. }) = negated {
        assert_eq!(trigger_source, "ev_leave");
        assert!(
            clause_label.contains("eventType"),
            "clause_label should reference the matching label, got: {}",
            clause_label
        );
    }
}

// ---- multi pattern ----

/// Batch: four patterns registered, only VoH matches the graph data.
#[test]
fn multi_pattern_all_four_winnow() {
    let mut g = G::new_graph();
    // VoH data
    g.add_str_edge("ev1", "eventType", "enterTown", 1);
    g.add_ref_edge("ev1", "actor", "alice", 1);
    g.add_str_edge("ev2", "eventType", "showHospitality", 2);
    g.add_ref_edge("ev2", "actor", "bob", 2);
    g.add_ref_edge("ev2", "target", "alice", 2);
    g.add_str_edge("ev3", "eventType", "harm", 3);
    g.add_ref_edge("ev3", "actor", "bob", 3);
    g.add_ref_edge("ev3", "target", "alice", 3);
    g.set_current_time(10);

    let mut engine: SiftEngineFor<G> = SiftEngine::new(DefaultLetEvaluator);

    // Pattern 1: VoH
    engine.register(
        PatternBuilder::new("violation_of_hospitality")
            .stage("e1", |s| {
                s.edge("e1", "eventType".into(), G::str_val("enterTown"))
                    .edge_bind("e1", "actor".into(), "guest")
            })
            .stage("e2", |s| {
                s.edge("e2", "eventType".into(), G::str_val("showHospitality"))
                    .edge_bind("e2", "actor".into(), "host")
                    .edge_bind("e2", "target".into(), "guest")
            })
            .stage("e3", |s| {
                s.edge("e3", "eventType".into(), G::str_val("harm"))
                    .edge_bind("e3", "actor".into(), "host")
                    .edge_bind("e3", "target".into(), "guest")
            })
            .build(),
    );

    // Pattern 2: romantic_arc (won't match — no romantic tags)
    engine.register(
        PatternBuilder::new("romantic_arc")
            .stage("e1", |s| {
                s.edge("e1", "tag".into(), G::str_val("negative"))
                    .edge("e1", "tag".into(), G::str_val("romantic"))
            })
            .stage("e2", |s| {
                s.edge("e2", "tag".into(), G::str_val("negative"))
                    .edge("e2", "tag".into(), G::str_val("romantic"))
            })
            .stage("e3", |s| {
                s.edge("e3", "tag".into(), G::str_val("positive"))
                    .edge("e3", "tag".into(), G::str_val("romantic"))
            })
            .build(),
    );

    // Pattern 3: two betrayals (won't match — no betray events)
    engine.register(
        PatternBuilder::new("two_betrayals")
            .stage("e1", |s| {
                s.edge("e1", "eventType".into(), G::str_val("betray"))
            })
            .stage("e2", |s| {
                s.edge("e2", "eventType".into(), G::str_val("betray"))
            })
            .build(),
    );

    // Pattern 4: hypocrisy-like (won't match — no preach events)
    engine.register(
        PatternBuilder::new("hypocrisy")
            .stage("e1", |s| {
                s.edge("e1", "eventType".into(), G::str_val("preach"))
            })
            .stage("e2", |s| {
                s.edge("e2", "eventType".into(), G::str_val("violate"))
            })
            .build(),
    );

    let matches = engine.evaluate(&g);
    assert_eq!(matches.len(), 1, "only VoH should match");
    assert_eq!(matches[0].pattern, "violation_of_hospitality");
}

/// Batch: two single-stage patterns that both match the same eventType.
#[test]
fn multi_pattern_shared_events() {
    let mut g = G::new_graph();
    g.add_str_edge("ev1", "eventType", "harm", 1);
    g.add_ref_edge("ev1", "actor", "bob", 1);
    g.set_current_time(10);

    let mut engine: SiftEngineFor<G> = SiftEngine::new(DefaultLetEvaluator);
    // Pattern 1: find any harm
    engine.register(
        PatternBuilder::new("any_harm")
            .stage("e", |s| s.edge("e", "eventType".into(), G::str_val("harm")))
            .build(),
    );
    // Pattern 2: find harm with actor binding
    engine.register(
        PatternBuilder::new("harm_with_actor")
            .stage("e", |s| {
                s.edge("e", "eventType".into(), G::str_val("harm"))
                    .edge_bind("e", "actor".into(), "attacker")
            })
            .build(),
    );

    let matches = engine.evaluate(&g);
    assert_eq!(
        matches.len(),
        2,
        "both patterns should match the same harm event"
    );
    let pattern_names: Vec<&str> = matches.iter().map(|m| m.pattern.as_str()).collect();
    assert!(pattern_names.contains(&"any_harm"));
    assert!(pattern_names.contains(&"harm_with_actor"));
}

/// Two patterns fire independently from the same edge event.
#[test]
fn incremental_multiple_patterns_fire() {
    let mut g = G::new_graph();
    let mut engine: SiftEngineFor<G> = SiftEngine::new(DefaultLetEvaluator);

    // Pattern 1: full hospitality (3 stages)
    engine.register(
        PatternBuilder::new("violation_of_hospitality")
            .stage("e1", |s| {
                s.edge("e1", "eventType".into(), G::str_val("enterTown"))
                    .edge_bind("e1", "actor".into(), "guest")
            })
            .stage("e2", |s| {
                s.edge("e2", "eventType".into(), G::str_val("showHospitality"))
                    .edge_bind("e2", "actor".into(), "host")
                    .edge_bind("e2", "target".into(), "guest")
            })
            .stage("e3", |s| {
                s.edge("e3", "eventType".into(), G::str_val("harm"))
                    .edge_bind("e3", "actor".into(), "host")
                    .edge_bind("e3", "target".into(), "guest")
            })
            .build(),
    );

    // Pattern 2: any enterTown (single stage — completes immediately)
    engine.register(
        PatternBuilder::new("any_enter")
            .stage("e", |s| {
                s.edge("e", "eventType".into(), G::str_val("enterTown"))
            })
            .build(),
    );

    g.add_str_edge("ev1", "eventType", "enterTown", 1);
    g.add_ref_edge("ev1", "actor", "alice", 1);
    g.set_current_time(1);
    let ev = engine.on_edge_added(
        &g,
        &"ev1".into(),
        &"eventType".into(),
        &G::str_val("enterTown"),
        &Interval::open(1),
    );

    assert!(
        ev.iter().any(|e| matches!(e, SiftEvent::Completed { pattern, .. } if pattern == "any_enter")),
        "any_enter should complete"
    );
    assert!(
        ev.iter().any(|e| matches!(e, SiftEvent::Advanced { pattern, .. } if pattern == "violation_of_hospitality")),
        "violation_of_hospitality should advance"
    );
}

// ---- negation ----

/// Batch: unless_after blocks match when negation event exists after anchor.
#[test]
fn batch_unless_after_blocks() {
    let mut g = G::new_graph();
    g.add_str_edge("ev1", "eventType", "promise", 1);
    g.add_ref_edge("ev1", "actor", "alice", 1);
    g.add_str_edge("ev2", "eventType", "break_promise", 2);
    g.add_ref_edge("ev2", "actor", "alice", 2);
    g.set_current_time(10);

    let pattern = PatternBuilder::new("broken_promise")
        .stage("e1", |s| {
            s.edge("e1", "eventType".into(), G::str_val("promise"))
                .edge_bind("e1", "actor".into(), "person")
        })
        .stage("e2", |s| {
            s.edge("e2", "eventType".into(), G::str_val("break_promise"))
                .edge_bind("e2", "actor".into(), "person")
        })
        .unless_after("e1", |neg| {
            neg.edge("apology", "eventType".into(), G::str_val("apologize"))
                .edge_bind("apology", "actor".into(), "person")
        })
        .build();

    let mut engine: SiftEngineFor<G> = SiftEngine::new(DefaultLetEvaluator);
    engine.register(pattern);

    // No apology -> should match
    assert_eq!(engine.evaluate(&g).len(), 1, "no apology -- should match");

    // Add apology after promise -> should NOT match
    g.add_str_edge("ev_apology", "eventType", "apologize", 3);
    g.add_ref_edge("ev_apology", "actor", "alice", 3);
    assert_eq!(
        engine.evaluate(&g).len(),
        0,
        "apology exists -- should not match"
    );
}

/// Batch: unless_global blocks match when negation event exists anywhere.
#[test]
fn batch_unless_global() {
    let mut g = G::new_graph();
    g.add_str_edge("ev1", "eventType", "betray", 1);
    g.add_ref_edge("ev1", "actor", "alice", 1);
    g.add_str_edge("ev2", "eventType", "betray", 3);
    g.add_ref_edge("ev2", "actor", "alice", 3);
    g.set_current_time(10);

    let pattern = PatternBuilder::new("double_betrayal")
        .stage("e1", |s| {
            s.edge("e1", "eventType".into(), G::str_val("betray"))
                .edge_bind("e1", "actor".into(), "char")
        })
        .stage("e2", |s| {
            s.edge("e2", "eventType".into(), G::str_val("betray"))
                .edge_bind("e2", "actor".into(), "char")
        })
        .unless_global(|neg| {
            neg.edge("mid", "eventType".into(), G::str_val("reconcile"))
                .edge_bind("mid", "actor".into(), "char")
        })
        .build();

    let mut engine: SiftEngineFor<G> = SiftEngine::new(DefaultLetEvaluator);
    engine.register(pattern);
    assert_eq!(
        engine.evaluate(&g).len(),
        1,
        "no reconciliation -- should match"
    );

    // Add reconciliation between betrayals -> no match
    g.add_str_edge("ev_rec", "eventType", "reconcile", 2);
    g.add_ref_edge("ev_rec", "actor", "alice", 2);
    assert_eq!(
        engine.evaluate(&g).len(),
        0,
        "reconciliation blocks double_betrayal"
    );
}

/// Batch: double negation -- two unless_between windows. Either one blocks.
#[test]
fn batch_double_negation_two_windows() {
    // Pattern: e1 -> e2 -> e3, unless leave between e1..e2, unless betray between e2..e3
    let pattern = PatternBuilder::new("guarded_sequence")
        .stage("e1", |s| {
            s.edge("e1", "eventType".into(), G::str_val("start"))
                .edge_bind("e1", "actor".into(), "person")
        })
        .stage("e2", |s| {
            s.edge("e2", "eventType".into(), G::str_val("middle"))
                .edge_bind("e2", "actor".into(), "person")
        })
        .stage("e3", |s| {
            s.edge("e3", "eventType".into(), G::str_val("end"))
                .edge_bind("e3", "actor".into(), "person")
        })
        .unless_between("e1", "e2", |neg| {
            neg.edge("n1", "eventType".into(), G::str_val("leave"))
                .edge_bind("n1", "actor".into(), "person")
        })
        .unless_between("e2", "e3", |neg| {
            neg.edge("n2", "eventType".into(), G::str_val("betray"))
                .edge_bind("n2", "actor".into(), "person")
        })
        .build();

    // Case 1: clean sequence -> match
    let mut g = G::new_graph();
    g.add_str_edge("ev1", "eventType", "start", 1);
    g.add_ref_edge("ev1", "actor", "alice", 1);
    g.add_str_edge("ev2", "eventType", "middle", 3);
    g.add_ref_edge("ev2", "actor", "alice", 3);
    g.add_str_edge("ev3", "eventType", "end", 5);
    g.add_ref_edge("ev3", "actor", "alice", 5);
    g.set_current_time(10);

    let mut engine: SiftEngineFor<G> = SiftEngine::new(DefaultLetEvaluator);
    engine.register(pattern);
    assert_eq!(engine.evaluate(&g).len(), 1, "clean sequence should match");

    // Case 2: leave between e1..e2 -> no match
    g.add_str_edge("ev_leave", "eventType", "leave", 2);
    g.add_ref_edge("ev_leave", "actor", "alice", 2);
    assert_eq!(
        engine.evaluate(&g).len(),
        0,
        "leave between e1..e2 should block"
    );

    // Reset: no leave, but betray between e2..e3 -> no match
    let mut g2 = G::new_graph();
    g2.add_str_edge("ev1", "eventType", "start", 1);
    g2.add_ref_edge("ev1", "actor", "alice", 1);
    g2.add_str_edge("ev2", "eventType", "middle", 3);
    g2.add_ref_edge("ev2", "actor", "alice", 3);
    g2.add_str_edge("ev_betray", "eventType", "betray", 4);
    g2.add_ref_edge("ev_betray", "actor", "alice", 4);
    g2.add_str_edge("ev3", "eventType", "end", 5);
    g2.add_ref_edge("ev3", "actor", "alice", 5);
    g2.set_current_time(10);

    let pattern2 = PatternBuilder::new("guarded_sequence")
        .stage("e1", |s| {
            s.edge("e1", "eventType".into(), G::str_val("start"))
                .edge_bind("e1", "actor".into(), "person")
        })
        .stage("e2", |s| {
            s.edge("e2", "eventType".into(), G::str_val("middle"))
                .edge_bind("e2", "actor".into(), "person")
        })
        .stage("e3", |s| {
            s.edge("e3", "eventType".into(), G::str_val("end"))
                .edge_bind("e3", "actor".into(), "person")
        })
        .unless_between("e1", "e2", |neg| {
            neg.edge("n1", "eventType".into(), G::str_val("leave"))
                .edge_bind("n1", "actor".into(), "person")
        })
        .unless_between("e2", "e3", |neg| {
            neg.edge("n2", "eventType".into(), G::str_val("betray"))
                .edge_bind("n2", "actor".into(), "person")
        })
        .build();

    let mut engine2: SiftEngineFor<G> = SiftEngine::new(DefaultLetEvaluator);
    engine2.register(pattern2);
    assert_eq!(
        engine2.evaluate(&g2).len(),
        0,
        "betray between e2..e3 should block"
    );
}

/// Batch: negation with multi-clause body -- only blocks when ALL clauses match.
#[test]
fn batch_negation_multi_clause_body() {
    // Pattern: promise -> fulfill, unless (eventType=leave AND actor=?person) between
    let pattern = PatternBuilder::new("kept_promise")
        .stage("e1", |s| {
            s.edge("e1", "eventType".into(), G::str_val("promise"))
                .edge_bind("e1", "actor".into(), "person")
        })
        .stage("e2", |s| {
            s.edge("e2", "eventType".into(), G::str_val("fulfill"))
                .edge_bind("e2", "actor".into(), "person")
        })
        .unless_between("e1", "e2", |neg| {
            neg.edge("mid", "eventType".into(), G::str_val("leave"))
                .edge_bind("mid", "actor".into(), "person")
        })
        .build();

    // Case 1: different person leaves -> negation should NOT fire (actor doesn't match)
    let mut g = G::new_graph();
    g.add_str_edge("ev1", "eventType", "promise", 1);
    g.add_ref_edge("ev1", "actor", "alice", 1);
    g.add_str_edge("ev_leave", "eventType", "leave", 2);
    g.add_ref_edge("ev_leave", "actor", "bob", 2); // bob, not alice
    g.add_str_edge("ev2", "eventType", "fulfill", 3);
    g.add_ref_edge("ev2", "actor", "alice", 3);
    g.set_current_time(10);

    let mut engine: SiftEngineFor<G> = SiftEngine::new(DefaultLetEvaluator);
    engine.register(pattern);
    assert_eq!(
        engine.evaluate(&g).len(),
        1,
        "bob leaving should not block alice's promise"
    );

    // Case 2: alice leaves -> negation fires
    let pattern2 = PatternBuilder::new("kept_promise")
        .stage("e1", |s| {
            s.edge("e1", "eventType".into(), G::str_val("promise"))
                .edge_bind("e1", "actor".into(), "person")
        })
        .stage("e2", |s| {
            s.edge("e2", "eventType".into(), G::str_val("fulfill"))
                .edge_bind("e2", "actor".into(), "person")
        })
        .unless_between("e1", "e2", |neg| {
            neg.edge("mid", "eventType".into(), G::str_val("leave"))
                .edge_bind("mid", "actor".into(), "person")
        })
        .build();

    let mut g2 = G::new_graph();
    g2.add_str_edge("ev1", "eventType", "promise", 1);
    g2.add_ref_edge("ev1", "actor", "alice", 1);
    g2.add_str_edge("ev_leave", "eventType", "leave", 2);
    g2.add_ref_edge("ev_leave", "actor", "alice", 2); // alice
    g2.add_str_edge("ev2", "eventType", "fulfill", 3);
    g2.add_ref_edge("ev2", "actor", "alice", 3);
    g2.set_current_time(10);

    let mut engine2: SiftEngineFor<G> = SiftEngine::new(DefaultLetEvaluator);
    engine2.register(pattern2);
    assert_eq!(
        engine2.evaluate(&g2).len(),
        0,
        "alice leaving should block alice's promise"
    );
}

/// Batch: negation event at exact same timestamp as window start.
/// Per B4 fix (exclusive start), it's outside the window.
#[test]
fn batch_negation_at_boundary_exclusive() {
    // Pattern: e1 -> e2, unless leave between e1..e2
    let pattern = PatternBuilder::new("boundary_test")
        .stage("e1", |s| {
            s.edge("e1", "eventType".into(), G::str_val("start"))
                .edge_bind("e1", "actor".into(), "person")
        })
        .stage("e2", |s| {
            s.edge("e2", "eventType".into(), G::str_val("end"))
                .edge_bind("e2", "actor".into(), "person")
        })
        .unless_between("e1", "e2", |neg| {
            neg.edge("mid", "eventType".into(), G::str_val("leave"))
                .edge_bind("mid", "actor".into(), "person")
        })
        .build();

    // Negation event at t=1 (same as e1 at t=1) -- window is (1, 3) exclusive start
    let mut g = G::new_graph();
    g.add_str_edge("ev1", "eventType", "start", 1);
    g.add_ref_edge("ev1", "actor", "alice", 1);
    g.add_str_edge("ev_leave", "eventType", "leave", 1); // same timestamp as e1
    g.add_ref_edge("ev_leave", "actor", "alice", 1);
    g.add_str_edge("ev2", "eventType", "end", 3);
    g.add_ref_edge("ev2", "actor", "alice", 3);
    g.set_current_time(10);

    let mut engine: SiftEngineFor<G> = SiftEngine::new(DefaultLetEvaluator);
    engine.register(pattern);
    assert_eq!(
        engine.evaluate(&g).len(),
        1,
        "negation at exact start boundary should NOT block (exclusive start, B4 fix)"
    );
}

// ---- romantic arc ----

fn romantic_pattern() -> Pattern<String, MemValue> {
    PatternBuilder::new("romantic_arc")
        .stage("e1", |s| {
            s.edge("e1", "tag".into(), G::str_val("negative"))
                .edge("e1", "tag".into(), G::str_val("romantic"))
                .edge_bind("e1", "actor".into(), "char")
        })
        .stage("e2", |s| {
            s.edge("e2", "tag".into(), G::str_val("negative"))
                .edge("e2", "tag".into(), G::str_val("romantic"))
                .edge_bind("e2", "actor".into(), "char")
        })
        .stage("e3", |s| {
            s.edge("e3", "tag".into(), G::str_val("positive"))
                .edge("e3", "tag".into(), G::str_val("romantic"))
                .edge_bind("e3", "actor".into(), "char")
        })
        .build()
}

/// Batch: romantic arc matches when same character has neg, neg, pos.
#[test]
fn batch_romantic_arc_matches() {
    let mut g = G::new_graph();
    g.add_str_edge("r1", "tag", "negative", 1);
    g.add_str_edge("r1", "tag", "romantic", 1);
    g.add_ref_edge("r1", "actor", "mira", 1);
    g.add_str_edge("r2", "tag", "negative", 2);
    g.add_str_edge("r2", "tag", "romantic", 2);
    g.add_ref_edge("r2", "actor", "mira", 2);
    g.add_str_edge("r3", "tag", "positive", 3);
    g.add_str_edge("r3", "tag", "romantic", 3);
    g.add_ref_edge("r3", "actor", "mira", 3);
    g.set_current_time(10);

    let mut engine: SiftEngineFor<G> = SiftEngine::new(DefaultLetEvaluator);
    engine.register(romantic_pattern());
    let matches = engine.evaluate(&g);
    assert_eq!(matches.len(), 1);
    assert!(G::is_node_eq(&matches[0].bindings.get("char").unwrap(), "mira"));
}

/// Batch: inline not_edge in stage 1 -- event WITH tag=major -> no match, without -> match.
#[test]
fn batch_romantic_arc_inline_negation() {
    // Pattern: stage 1 has not_edge for tag=major
    let pattern = PatternBuilder::new("romantic_arc_no_major")
        .stage("e1", |s| {
            s.edge("e1", "tag".into(), G::str_val("negative"))
                .edge("e1", "tag".into(), G::str_val("romantic"))
                .edge_bind("e1", "actor".into(), "char")
                .not_edge("e1", "tag".into(), G::str_val("major"))
        })
        .stage("e2", |s| {
            s.edge("e2", "tag".into(), G::str_val("negative"))
                .edge("e2", "tag".into(), G::str_val("romantic"))
                .edge_bind("e2", "actor".into(), "char")
        })
        .stage("e3", |s| {
            s.edge("e3", "tag".into(), G::str_val("positive"))
                .edge("e3", "tag".into(), G::str_val("romantic"))
                .edge_bind("e3", "actor".into(), "char")
        })
        .build();

    // Case 1: r1 has tag=major -> no match (negated clause fires)
    let mut g = G::new_graph();
    g.add_str_edge("r1", "tag", "negative", 1);
    g.add_str_edge("r1", "tag", "romantic", 1);
    g.add_str_edge("r1", "tag", "major", 1);
    g.add_ref_edge("r1", "actor", "mira", 1);
    g.add_str_edge("r2", "tag", "negative", 2);
    g.add_str_edge("r2", "tag", "romantic", 2);
    g.add_ref_edge("r2", "actor", "mira", 2);
    g.add_str_edge("r3", "tag", "positive", 3);
    g.add_str_edge("r3", "tag", "romantic", 3);
    g.add_ref_edge("r3", "actor", "mira", 3);
    g.set_current_time(10);

    let mut engine: SiftEngineFor<G> = SiftEngine::new(DefaultLetEvaluator);
    engine.register(pattern);
    assert_eq!(
        engine.evaluate(&g).len(),
        0,
        "r1 has tag=major -> negated clause blocks stage 1"
    );

    // Case 2: no tag=major -> match
    let pattern2 = PatternBuilder::new("romantic_arc_no_major")
        .stage("e1", |s| {
            s.edge("e1", "tag".into(), G::str_val("negative"))
                .edge("e1", "tag".into(), G::str_val("romantic"))
                .edge_bind("e1", "actor".into(), "char")
                .not_edge("e1", "tag".into(), G::str_val("major"))
        })
        .stage("e2", |s| {
            s.edge("e2", "tag".into(), G::str_val("negative"))
                .edge("e2", "tag".into(), G::str_val("romantic"))
                .edge_bind("e2", "actor".into(), "char")
        })
        .stage("e3", |s| {
            s.edge("e3", "tag".into(), G::str_val("positive"))
                .edge("e3", "tag".into(), G::str_val("romantic"))
                .edge_bind("e3", "actor".into(), "char")
        })
        .build();

    let mut g2 = G::new_graph();
    g2.add_str_edge("r1", "tag", "negative", 1);
    g2.add_str_edge("r1", "tag", "romantic", 1);
    g2.add_ref_edge("r1", "actor", "mira", 1);
    g2.add_str_edge("r2", "tag", "negative", 2);
    g2.add_str_edge("r2", "tag", "romantic", 2);
    g2.add_ref_edge("r2", "actor", "mira", 2);
    g2.add_str_edge("r3", "tag", "positive", 3);
    g2.add_str_edge("r3", "tag", "romantic", 3);
    g2.add_ref_edge("r3", "actor", "mira", 3);
    g2.set_current_time(10);

    let mut engine2: SiftEngineFor<G> = SiftEngine::new(DefaultLetEvaluator);
    engine2.register(pattern2);
    assert_eq!(
        engine2.evaluate(&g2).len(),
        1,
        "no tag=major -> should match"
    );
}

/// Batch: 3 negative + 1 positive romantic events -> multiple matches from different combinations.
#[test]
fn batch_romantic_arc_combinatorial() {
    let mut g = G::new_graph();
    // Three negative romantic events
    g.add_str_edge("r1", "tag", "negative", 1);
    g.add_str_edge("r1", "tag", "romantic", 1);
    g.add_ref_edge("r1", "actor", "mira", 1);
    g.add_str_edge("r2", "tag", "negative", 2);
    g.add_str_edge("r2", "tag", "romantic", 2);
    g.add_ref_edge("r2", "actor", "mira", 2);
    g.add_str_edge("r3", "tag", "negative", 3);
    g.add_str_edge("r3", "tag", "romantic", 3);
    g.add_ref_edge("r3", "actor", "mira", 3);
    // One positive romantic event
    g.add_str_edge("r4", "tag", "positive", 4);
    g.add_str_edge("r4", "tag", "romantic", 4);
    g.add_ref_edge("r4", "actor", "mira", 4);
    g.set_current_time(10);

    let mut engine: SiftEngineFor<G> = SiftEngine::new(DefaultLetEvaluator);
    engine.register(romantic_pattern());
    let matches = engine.evaluate(&g);
    // Combinations of 2 negatives from {r1,r2,r3} + r4 positive:
    // (r1,r2,r4), (r1,r3,r4), (r2,r3,r4) = 3 matches
    assert!(
        matches.len() >= 2,
        "should have multiple matches from combinatorial negatives, got {}",
        matches.len()
    );
}

/// Batch: different characters across stages means no match.
#[test]
fn batch_romantic_arc_different_characters() {
    let mut g = G::new_graph();
    g.add_str_edge("r1", "tag", "negative", 1);
    g.add_str_edge("r1", "tag", "romantic", 1);
    g.add_ref_edge("r1", "actor", "mira", 1);
    g.add_str_edge("r2", "tag", "negative", 2);
    g.add_str_edge("r2", "tag", "romantic", 2);
    g.add_ref_edge("r2", "actor", "kaelen", 2); // different character
    g.add_str_edge("r3", "tag", "positive", 3);
    g.add_str_edge("r3", "tag", "romantic", 3);
    g.add_ref_edge("r3", "actor", "mira", 3);
    g.set_current_time(10);

    let mut engine: SiftEngineFor<G> = SiftEngine::new(DefaultLetEvaluator);
    engine.register(romantic_pattern());
    assert_eq!(
        engine.evaluate(&g).len(),
        0,
        "different actors should not match"
    );
}

// ---- temporal ----

/// Batch: events in wrong temporal order should NOT match a two-stage pattern.
#[test]
fn batch_rejects_wrong_temporal_order() {
    let mut g = G::new_graph();
    // "enter" at time 5, "leave" at time 1 — reverse order
    g.add_str_edge("ev1", "eventType", "enter", 5);
    g.add_ref_edge("ev1", "actor", "alice", 5);
    g.add_str_edge("ev2", "eventType", "leave", 1);
    g.add_ref_edge("ev2", "actor", "alice", 1);
    g.set_current_time(10);

    let pattern = PatternBuilder::new("enter_then_leave")
        .stage("e1", |s| {
            s.edge("e1", "eventType".into(), G::str_val("enter"))
                .edge_bind("e1", "actor".into(), "person")
        })
        .stage("e2", |s| {
            s.edge("e2", "eventType".into(), G::str_val("leave"))
                .edge_bind("e2", "actor".into(), "person")
        })
        .build();

    let mut engine: SiftEngineFor<G> = SiftEngine::new(DefaultLetEvaluator);
    engine.register(pattern);
    assert_eq!(
        engine.evaluate(&g).len(),
        0,
        "temporal order violated — should not match"
    );
}

/// Batch: two events at the same timestamp should NOT match a 2-stage pattern (strict < ordering).
#[test]
fn temporal_same_timestamp_no_sequence() {
    let mut g = G::new_graph();
    g.add_str_edge("ev1", "eventType", "enter", 5);
    g.add_ref_edge("ev1", "actor", "alice", 5);
    g.add_str_edge("ev2", "eventType", "leave", 5);
    g.add_ref_edge("ev2", "actor", "alice", 5);
    g.set_current_time(10);

    let pattern = PatternBuilder::new("enter_then_leave")
        .stage("e1", |s| {
            s.edge("e1", "eventType".into(), G::str_val("enter"))
                .edge_bind("e1", "actor".into(), "person")
        })
        .stage("e2", |s| {
            s.edge("e2", "eventType".into(), G::str_val("leave"))
                .edge_bind("e2", "actor".into(), "person")
        })
        .build();

    let mut engine: SiftEngineFor<G> = SiftEngine::new(DefaultLetEvaluator);
    engine.register(pattern);
    assert_eq!(
        engine.evaluate(&g).len(),
        0,
        "same timestamp should not satisfy strict < ordering"
    );
}

/// Batch: events separated by a large gap still match.
#[test]
fn temporal_large_gap_still_matches() {
    let mut g = G::new_graph();
    g.add_str_edge("ev1", "eventType", "enter", 1);
    g.add_ref_edge("ev1", "actor", "alice", 1);
    g.add_str_edge("ev2", "eventType", "leave", 1_000_000);
    g.add_ref_edge("ev2", "actor", "alice", 1_000_000);
    g.set_current_time(2_000_000);

    let pattern = PatternBuilder::new("enter_then_leave")
        .stage("e1", |s| {
            s.edge("e1", "eventType".into(), G::str_val("enter"))
                .edge_bind("e1", "actor".into(), "person")
        })
        .stage("e2", |s| {
            s.edge("e2", "eventType".into(), G::str_val("leave"))
                .edge_bind("e2", "actor".into(), "person")
        })
        .build();

    let mut engine: SiftEngineFor<G> = SiftEngine::new(DefaultLetEvaluator);
    engine.register(pattern);
    assert_eq!(
        engine.evaluate(&g).len(),
        1,
        "large temporal gap should still match"
    );
}

/// Batch: events in correct temporal order should match.
#[test]
fn batch_correct_temporal_order() {
    let mut g = G::new_graph();
    g.add_str_edge("ev1", "eventType", "enter", 1);
    g.add_ref_edge("ev1", "actor", "alice", 1);
    g.add_str_edge("ev2", "eventType", "leave", 5);
    g.add_ref_edge("ev2", "actor", "alice", 5);
    g.set_current_time(10);

    let pattern = PatternBuilder::new("enter_then_leave")
        .stage("e1", |s| {
            s.edge("e1", "eventType".into(), G::str_val("enter"))
                .edge_bind("e1", "actor".into(), "person")
        })
        .stage("e2", |s| {
            s.edge("e2", "eventType".into(), G::str_val("leave"))
                .edge_bind("e2", "actor".into(), "person")
        })
        .build();

    let mut engine: SiftEngineFor<G> = SiftEngine::new(DefaultLetEvaluator);
    engine.register(pattern);
    assert_eq!(
        engine.evaluate(&g).len(),
        1,
        "correct temporal order — should match"
    );
}

// ---- two betrayals ----

/// Build the two-impulsive-betrayals pattern.
fn two_betrayals_pattern() -> Pattern<String, MemValue> {
    PatternBuilder::new("two_impulsive_betrayals")
        .stage("e1", |s| {
            s.edge("e1", "eventType".into(), G::str_val("betray"))
                .edge_bind("e1", "actor".into(), "char")
                .edge("char", "trait".into(), G::str_val("impulsive"))
        })
        .stage("e2", |s| {
            s.edge("e2", "eventType".into(), G::str_val("betray"))
                .edge_bind("e2", "actor".into(), "char")
        })
        .unless_global(|neg| {
            neg.edge("mid", "eventType".into(), G::str_val("reconcile"))
                .edge_bind("mid", "actor".into(), "char")
        })
        .build()
}

/// Batch: two betrayals by an impulsive character match.
#[test]
fn batch_two_betrayals_match() {
    let mut g = G::new_graph();
    g.add_str_edge("alice", "trait", "impulsive", 0);
    g.add_str_edge("ev1", "eventType", "betray", 1);
    g.add_ref_edge("ev1", "actor", "alice", 1);
    g.add_str_edge("ev2", "eventType", "betray", 3);
    g.add_ref_edge("ev2", "actor", "alice", 3);
    g.set_current_time(10);

    let mut engine: SiftEngineFor<G> = SiftEngine::new(DefaultLetEvaluator);
    engine.register(two_betrayals_pattern());
    let matches = engine.evaluate(&g);
    assert_eq!(
        matches.len(),
        1,
        "should match two betrayals by impulsive character"
    );
    assert!(G::is_node_eq(&matches[0].bindings.get("char").unwrap(), "alice"));
}

/// Batch: intervening reconcile blocks via unless_global.
#[test]
fn batch_two_betrayals_intervening_blocks() {
    let mut g = G::new_graph();
    g.add_str_edge("alice", "trait", "impulsive", 0);
    g.add_str_edge("ev1", "eventType", "betray", 1);
    g.add_ref_edge("ev1", "actor", "alice", 1);
    g.add_str_edge("ev_mid", "eventType", "reconcile", 2);
    g.add_ref_edge("ev_mid", "actor", "alice", 2);
    g.add_str_edge("ev2", "eventType", "betray", 3);
    g.add_ref_edge("ev2", "actor", "alice", 3);
    g.set_current_time(10);

    let mut engine: SiftEngineFor<G> = SiftEngine::new(DefaultLetEvaluator);
    engine.register(two_betrayals_pattern());
    assert_eq!(
        engine.evaluate(&g).len(),
        0,
        "reconcile between betrayals should block"
    );
}

/// Batch: other actor's reconcile does not block.
#[test]
fn batch_two_betrayals_other_actor_doesnt_block() {
    let mut g = G::new_graph();
    g.add_str_edge("alice", "trait", "impulsive", 0);
    g.add_str_edge("ev1", "eventType", "betray", 1);
    g.add_ref_edge("ev1", "actor", "alice", 1);
    g.add_str_edge("ev_mid", "eventType", "reconcile", 2);
    g.add_ref_edge("ev_mid", "actor", "bob", 2);
    g.add_str_edge("ev2", "eventType", "betray", 3);
    g.add_ref_edge("ev2", "actor", "alice", 3);
    g.set_current_time(10);

    let mut engine: SiftEngineFor<G> = SiftEngine::new(DefaultLetEvaluator);
    engine.register(two_betrayals_pattern());
    assert_eq!(
        engine.evaluate(&g).len(),
        1,
        "bob's reconcile should not block alice's pattern"
    );
}

/// Batch: non-impulsive character does not match.
#[test]
fn batch_two_betrayals_non_impulsive_no_match() {
    let mut g = G::new_graph();
    g.add_str_edge("alice", "trait", "cautious", 0);
    g.add_str_edge("ev1", "eventType", "betray", 1);
    g.add_ref_edge("ev1", "actor", "alice", 1);
    g.add_str_edge("ev2", "eventType", "betray", 3);
    g.add_ref_edge("ev2", "actor", "alice", 3);
    g.set_current_time(10);

    let mut engine: SiftEngineFor<G> = SiftEngine::new(DefaultLetEvaluator);
    engine.register(two_betrayals_pattern());
    assert_eq!(
        engine.evaluate(&g).len(),
        0,
        "cautious character should not match impulsive pattern"
    );
}

// ---- unordered groups ----

/// Batch: Two stages in an unordered group match regardless of event order.
#[test]
fn batch_unordered_group_any_order() {
    let pattern = PatternBuilder::<String, MemValue>::new("concurrent_events")
        .unordered_group(|g| {
            g.stage("a", |s| s.edge("a", "type".into(), G::str_val("alpha")))
                .stage("b", |s| s.edge("b", "type".into(), G::str_val("beta")))
        })
        .build();

    // Order 1: alpha before beta
    let mut g1 = G::new_graph();
    g1.add_str_edge("ev1", "type", "alpha", 1);
    g1.add_str_edge("ev2", "type", "beta", 2);
    g1.set_current_time(10);

    let mut engine: SiftEngineFor<G> = SiftEngine::new(DefaultLetEvaluator);
    engine.register(pattern.clone());
    let matches = engine.evaluate(&g1);
    assert_eq!(matches.len(), 1, "should match with alpha before beta");

    // Order 2: beta before alpha
    let mut g2 = G::new_graph();
    g2.add_str_edge("ev1", "type", "beta", 1);
    g2.add_str_edge("ev2", "type", "alpha", 2);
    g2.set_current_time(10);

    let mut engine2: SiftEngineFor<G> = SiftEngine::new(DefaultLetEvaluator);
    engine2.register(pattern);
    let matches2 = engine2.evaluate(&g2);
    assert_eq!(matches2.len(), 1, "should match with beta before alpha");
}

/// Batch: Unordered group with a preceding ordered stage.
#[test]
fn batch_unordered_group_after_ordered() {
    let pattern = PatternBuilder::<String, MemValue>::new("setup_then_concurrent")
        .stage("setup", |s| s.edge("setup", "type".into(), G::str_val("start")))
        .unordered_group(|g| {
            g.stage("a", |s| s.edge("a", "type".into(), G::str_val("alpha")))
                .stage("b", |s| s.edge("b", "type".into(), G::str_val("beta")))
        })
        .build();

    let mut g = G::new_graph();
    g.add_str_edge("ev0", "type", "start", 1);
    g.add_str_edge("ev1", "type", "beta", 2); // beta first
    g.add_str_edge("ev2", "type", "alpha", 3); // alpha second
    g.set_current_time(10);

    let mut engine: SiftEngineFor<G> = SiftEngine::new(DefaultLetEvaluator);
    engine.register(pattern);
    let matches = engine.evaluate(&g);
    assert_eq!(matches.len(), 1);
}

/// Batch: Unordered group followed by an ordered stage.
#[test]
fn batch_unordered_group_before_ordered() {
    let pattern = PatternBuilder::<String, MemValue>::new("concurrent_then_end")
        .unordered_group(|g| {
            g.stage("a", |s| s.edge("a", "type".into(), G::str_val("alpha")))
                .stage("b", |s| s.edge("b", "type".into(), G::str_val("beta")))
        })
        .stage("end", |s| s.edge("end", "type".into(), G::str_val("finish")))
        .build();

    let mut g = G::new_graph();
    g.add_str_edge("ev1", "type", "beta", 1);
    g.add_str_edge("ev2", "type", "alpha", 2);
    g.add_str_edge("ev3", "type", "finish", 3);
    g.set_current_time(10);

    let mut engine: SiftEngineFor<G> = SiftEngine::new(DefaultLetEvaluator);
    engine.register(pattern);
    let matches = engine.evaluate(&g);
    assert_eq!(matches.len(), 1);
}

/// Batch: finish event before concurrent group should not match.
#[test]
fn batch_unordered_group_ordering_with_ordered() {
    let pattern = PatternBuilder::<String, MemValue>::new("concurrent_then_end")
        .unordered_group(|g| {
            g.stage("a", |s| s.edge("a", "type".into(), G::str_val("alpha")))
                .stage("b", |s| s.edge("b", "type".into(), G::str_val("beta")))
        })
        .stage("end", |s| s.edge("end", "type".into(), G::str_val("finish")))
        .build();

    // Finish happens before one of the concurrent events -> should not match
    let mut g = G::new_graph();
    g.add_str_edge("ev1", "type", "alpha", 1);
    g.add_str_edge("ev2", "type", "finish", 2);
    g.add_str_edge("ev3", "type", "beta", 3);
    g.set_current_time(10);

    let mut engine: SiftEngineFor<G> = SiftEngine::new(DefaultLetEvaluator);
    engine.register(pattern);
    let matches = engine.evaluate(&g);
    // This should not match because "finish" at t=2 comes before "beta" at t=3,
    // but "finish" must come after the entire concurrent group
    assert_eq!(matches.len(), 0, "finish before group completion should not match");
}

/// Incremental: unordered group matches with events arriving in any order.
#[test]
fn incremental_unordered_group() {
    let pattern = PatternBuilder::<String, MemValue>::new("concurrent_events")
        .unordered_group(|g| {
            g.stage("a", |s| s.edge("a", "type".into(), G::str_val("alpha")))
                .stage("b", |s| s.edge("b", "type".into(), G::str_val("beta")))
        })
        .build();

    let mut g = G::new_graph();
    let mut engine: SiftEngineFor<G> = SiftEngine::new(DefaultLetEvaluator);
    engine.register(pattern);

    // Add beta first
    g.add_str_edge("ev1", "type", "beta", 1);
    g.set_current_time(1);
    let iv1 = fabula::interval::Interval::open(1);
    let events1 = engine.on_edge_added(&g, &"ev1".into(), &"type".into(), &G::str_val("beta"), &iv1);
    // Should advance (one stage of two matched)
    assert!(
        events1.iter().any(|e| matches!(e, fabula::engine::SiftEvent::Advanced { .. })),
        "should advance after first stage match"
    );

    // Add alpha
    g.add_str_edge("ev2", "type", "alpha", 2);
    g.set_current_time(2);
    let iv2 = fabula::interval::Interval::open(2);
    let events2 = engine.on_edge_added(&g, &"ev2".into(), &"type".into(), &G::str_val("alpha"), &iv2);
    // Should complete
    assert!(
        events2.iter().any(|e| matches!(e, fabula::engine::SiftEvent::Completed { .. })),
        "should complete after both stages matched"
    );
}

/// Batch: shared binding across unordered group stages.
#[test]
fn batch_unordered_group_shared_binding() {
    let pattern = PatternBuilder::<String, MemValue>::new("shared_actor")
        .unordered_group(|g| {
            g.stage("a", |s| {
                s.edge("a", "type".into(), G::str_val("alpha"))
                    .edge_bind("a", "actor".into(), "person")
            })
            .stage("b", |s| {
                s.edge("b", "type".into(), G::str_val("beta"))
                    .edge_bind("b", "actor".into(), "person")
            })
        })
        .build();

    // Same actor for both events
    let mut g = G::new_graph();
    g.add_str_edge("ev1", "type", "alpha", 1);
    g.add_ref_edge("ev1", "actor", "alice", 1);
    g.add_str_edge("ev2", "type", "beta", 2);
    g.add_ref_edge("ev2", "actor", "alice", 2);
    g.set_current_time(10);

    let mut engine: SiftEngineFor<G> = SiftEngine::new(DefaultLetEvaluator);
    engine.register(pattern.clone());
    let matches = engine.evaluate(&g);
    assert_eq!(matches.len(), 1);
    assert_eq!(*matches[0].bindings.get("person").unwrap(), BoundValue::Node("alice".into()));

    // Different actors — should not match
    let mut g2 = G::new_graph();
    g2.add_str_edge("ev1", "type", "alpha", 1);
    g2.add_ref_edge("ev1", "actor", "alice", 1);
    g2.add_str_edge("ev2", "type", "beta", 2);
    g2.add_ref_edge("ev2", "actor", "bob", 2);
    g2.set_current_time(10);

    let mut engine2: SiftEngineFor<G> = SiftEngine::new(DefaultLetEvaluator);
    engine2.register(pattern);
    let matches2 = engine2.evaluate(&g2);
    assert_eq!(matches2.len(), 0, "different actors should not match");
}

// ---- value constraints ----

/// Batch: Lt constraint matches when value is below threshold.
#[test]
fn batch_value_lt_matches() {
    let mut g = G::new_graph();
    g.add_str_edge("ev1", "eventType", "loyalty_check", 1);
    g.add_num_edge("ev1", "loyalty", 0.3, 1);
    g.set_current_time(10);

    let pattern = PatternBuilder::new("low_loyalty")
        .stage("e", |s| {
            s.edge("e", "eventType".into(), G::str_val("loyalty_check"))
                .edge_constrained("e", "loyalty".into(), ValueConstraint::Lt(G::num_val(0.5)))
        })
        .build();

    let mut engine: SiftEngineFor<G> = SiftEngine::new(DefaultLetEvaluator);
    engine.register(pattern);
    assert_eq!(engine.evaluate(&g).len(), 1, "0.3 < 0.5 should match");
}

/// Batch: Lt constraint does NOT match when value is above threshold.
#[test]
fn batch_value_lt_no_match() {
    let mut g = G::new_graph();
    g.add_str_edge("ev1", "eventType", "loyalty_check", 1);
    g.add_num_edge("ev1", "loyalty", 0.8, 1);
    g.set_current_time(10);

    let pattern = PatternBuilder::new("low_loyalty")
        .stage("e", |s| {
            s.edge("e", "eventType".into(), G::str_val("loyalty_check"))
                .edge_constrained("e", "loyalty".into(), ValueConstraint::Lt(G::num_val(0.5)))
        })
        .build();

    let mut engine: SiftEngineFor<G> = SiftEngine::new(DefaultLetEvaluator);
    engine.register(pattern);
    assert_eq!(engine.evaluate(&g).len(), 0, "0.8 < 0.5 should not match");
}

/// Batch: Between constraint matches when value is in range.
#[test]
fn batch_value_between_matches() {
    let mut g = G::new_graph();
    g.add_str_edge("ev1", "eventType", "morale_check", 1);
    g.add_num_edge("ev1", "morale", 0.5, 1);
    g.set_current_time(10);

    let pattern = PatternBuilder::new("mid_morale")
        .stage("e", |s| {
            s.edge("e", "eventType".into(), G::str_val("morale_check"))
                .edge_constrained(
                    "e",
                    "morale".into(),
                    ValueConstraint::Between(G::num_val(0.3), G::num_val(0.7)),
                )
        })
        .build();

    let mut engine: SiftEngineFor<G> = SiftEngine::new(DefaultLetEvaluator);
    engine.register(pattern);
    assert_eq!(
        engine.evaluate(&g).len(),
        1,
        "0.5 in [0.3, 0.7] should match"
    );
}

/// Batch: Gt constraint matches when value is above threshold.
#[test]
fn batch_value_gt_matches() {
    let mut g = G::new_graph();
    g.add_str_edge("ev1", "eventType", "power_check", 1);
    g.add_num_edge("ev1", "power", 0.8, 1);
    g.set_current_time(10);

    let pattern = PatternBuilder::new("high_power")
        .stage("e", |s| {
            s.edge("e", "eventType".into(), G::str_val("power_check"))
                .edge_constrained("e", "power".into(), ValueConstraint::Gt(G::num_val(0.5)))
        })
        .build();

    let mut engine: SiftEngineFor<G> = SiftEngine::new(DefaultLetEvaluator);
    engine.register(pattern);
    assert_eq!(engine.evaluate(&g).len(), 1, "0.8 > 0.5 should match");

    // No match case: 0.3 > 0.5 is false
    let mut g2 = G::new_graph();
    g2.add_str_edge("ev1", "eventType", "power_check", 1);
    g2.add_num_edge("ev1", "power", 0.3, 1);
    g2.set_current_time(10);

    let pattern2 = PatternBuilder::new("high_power")
        .stage("e", |s| {
            s.edge("e", "eventType".into(), G::str_val("power_check"))
                .edge_constrained("e", "power".into(), ValueConstraint::Gt(G::num_val(0.5)))
        })
        .build();

    let mut engine2: SiftEngineFor<G> = SiftEngine::new(DefaultLetEvaluator);
    engine2.register(pattern2);
    assert_eq!(engine2.evaluate(&g2).len(), 0, "0.3 > 0.5 should not match");
}

/// Batch: Eq constraint on a string value.
#[test]
fn batch_value_eq_string() {
    let mut g = G::new_graph();
    g.add_str_edge("ev1", "eventType", "tag_check", 1);
    g.add_str_edge("ev1", "priority", "important", 1);
    g.set_current_time(10);

    let pattern = PatternBuilder::new("important_check")
        .stage("e", |s| {
            s.edge("e", "eventType".into(), G::str_val("tag_check"))
                .edge_constrained(
                    "e",
                    "priority".into(),
                    ValueConstraint::Eq(G::str_val("important")),
                )
        })
        .build();

    let mut engine: SiftEngineFor<G> = SiftEngine::new(DefaultLetEvaluator);
    engine.register(pattern);
    assert_eq!(
        engine.evaluate(&g).len(),
        1,
        "priority=important should match Eq"
    );

    // No match case
    let mut g2 = G::new_graph();
    g2.add_str_edge("ev1", "eventType", "tag_check", 1);
    g2.add_str_edge("ev1", "priority", "trivial", 1);
    g2.set_current_time(10);

    let pattern2 = PatternBuilder::new("important_check")
        .stage("e", |s| {
            s.edge("e", "eventType".into(), G::str_val("tag_check"))
                .edge_constrained(
                    "e",
                    "priority".into(),
                    ValueConstraint::Eq(G::str_val("important")),
                )
        })
        .build();

    let mut engine2: SiftEngineFor<G> = SiftEngine::new(DefaultLetEvaluator);
    engine2.register(pattern2);
    assert_eq!(
        engine2.evaluate(&g2).len(),
        0,
        "priority=trivial should not match Eq(important)"
    );
}

/// Batch: value constraint in negation -- negation fires when loyalty < 0.5.
#[test]
fn batch_value_constraint_in_negation() {
    // Pattern: promise -> fulfill, unless low loyalty (< 0.5) event between
    let pattern = PatternBuilder::new("loyal_promise")
        .stage("e1", |s| {
            s.edge("e1", "eventType".into(), G::str_val("promise"))
                .edge_bind("e1", "actor".into(), "person")
        })
        .stage("e2", |s| {
            s.edge("e2", "eventType".into(), G::str_val("fulfill"))
                .edge_bind("e2", "actor".into(), "person")
        })
        .unless_between("e1", "e2", |neg| {
            neg.edge("mid", "eventType".into(), G::str_val("loyalty_check"))
                .edge_constrained(
                    "mid",
                    "loyalty".into(),
                    ValueConstraint::Lt(G::num_val(0.5)),
                )
        })
        .build();

    // Case 1: loyalty=0.3 (< 0.5) -> negation blocks
    let mut g = G::new_graph();
    g.add_str_edge("ev1", "eventType", "promise", 1);
    g.add_ref_edge("ev1", "actor", "alice", 1);
    g.add_str_edge("ev_check", "eventType", "loyalty_check", 2);
    g.add_num_edge("ev_check", "loyalty", 0.3, 2);
    g.add_str_edge("ev2", "eventType", "fulfill", 3);
    g.add_ref_edge("ev2", "actor", "alice", 3);
    g.set_current_time(10);

    let mut engine: SiftEngineFor<G> = SiftEngine::new(DefaultLetEvaluator);
    engine.register(pattern);
    assert_eq!(
        engine.evaluate(&g).len(),
        0,
        "loyalty=0.3 < 0.5 should trigger negation and block"
    );

    // Case 2: loyalty=0.8 (>= 0.5) -> negation doesn't fire -> match
    let pattern2 = PatternBuilder::new("loyal_promise")
        .stage("e1", |s| {
            s.edge("e1", "eventType".into(), G::str_val("promise"))
                .edge_bind("e1", "actor".into(), "person")
        })
        .stage("e2", |s| {
            s.edge("e2", "eventType".into(), G::str_val("fulfill"))
                .edge_bind("e2", "actor".into(), "person")
        })
        .unless_between("e1", "e2", |neg| {
            neg.edge("mid", "eventType".into(), G::str_val("loyalty_check"))
                .edge_constrained(
                    "mid",
                    "loyalty".into(),
                    ValueConstraint::Lt(G::num_val(0.5)),
                )
        })
        .build();

    let mut g2 = G::new_graph();
    g2.add_str_edge("ev1", "eventType", "promise", 1);
    g2.add_ref_edge("ev1", "actor", "alice", 1);
    g2.add_str_edge("ev_check", "eventType", "loyalty_check", 2);
    g2.add_num_edge("ev_check", "loyalty", 0.8, 2);
    g2.add_str_edge("ev2", "eventType", "fulfill", 3);
    g2.add_ref_edge("ev2", "actor", "alice", 3);
    g2.set_current_time(10);

    let mut engine2: SiftEngineFor<G> = SiftEngine::new(DefaultLetEvaluator);
    engine2.register(pattern2);
    assert_eq!(
        engine2.evaluate(&g2).len(),
        1,
        "loyalty=0.8 >= 0.5 should not trigger negation -> match"
    );
}

/// Batch: Between constraint does NOT match when value is outside range.
#[test]
fn batch_value_between_no_match() {
    let mut g = G::new_graph();
    g.add_str_edge("ev1", "eventType", "morale_check", 1);
    g.add_num_edge("ev1", "morale", 0.9, 1);
    g.set_current_time(10);

    let pattern = PatternBuilder::new("mid_morale")
        .stage("e", |s| {
            s.edge("e", "eventType".into(), G::str_val("morale_check"))
                .edge_constrained(
                    "e",
                    "morale".into(),
                    ValueConstraint::Between(G::num_val(0.3), G::num_val(0.7)),
                )
        })
        .build();

    let mut engine: SiftEngineFor<G> = SiftEngine::new(DefaultLetEvaluator);
    engine.register(pattern);
    assert_eq!(engine.evaluate(&g).len(), 0, "0.9 not in [0.3, 0.7]");
}

// ---- value disjunction ----

/// Batch: OneOf matches any listed value -- "attack" and "betray" match, "trade" does not.
#[test]
fn batch_one_of_matches_any() {
    let mut g = G::new_graph();
    g.add_str_edge("ev1", "eventType", "attack", 1);
    g.add_str_edge("ev2", "eventType", "trade", 2);
    g.add_str_edge("ev3", "eventType", "betray", 3);
    g.set_current_time(10);

    let pattern = PatternBuilder::new("harm_event")
        .stage("e", |s| {
            s.edge_one_of(
                "e",
                "eventType".into(),
                vec![
                    G::str_val("attack"),
                    G::str_val("betray"),
                    G::str_val("steal"),
                ],
            )
        })
        .build();

    let mut engine: SiftEngineFor<G> = SiftEngine::new(DefaultLetEvaluator);
    engine.register(pattern);
    let matches = engine.evaluate(&g);
    assert_eq!(
        matches.len(),
        2,
        "attack and betray should match OneOf, trade should not"
    );
}

/// Batch: OneOf rejects all when no listed values are present.
#[test]
fn batch_one_of_rejects_unlisted() {
    let mut g = G::new_graph();
    g.add_str_edge("ev1", "eventType", "trade", 1);
    g.add_str_edge("ev2", "eventType", "observe", 2);
    g.set_current_time(10);

    let pattern = PatternBuilder::new("harm_event")
        .stage("e", |s| {
            s.edge_one_of(
                "e",
                "eventType".into(),
                vec![
                    G::str_val("attack"),
                    G::str_val("betray"),
                    G::str_val("steal"),
                ],
            )
        })
        .build();

    let mut engine: SiftEngineFor<G> = SiftEngine::new(DefaultLetEvaluator);
    engine.register(pattern);
    let matches = engine.evaluate(&g);
    assert_eq!(
        matches.len(),
        0,
        "trade and observe are not in OneOf list, should get 0 matches"
    );
}

/// Batch: OneOf with variable join across two stages -- only Alice matches
/// because she both attacks and apologizes.
#[test]
fn batch_one_of_with_variable_join() {
    let mut g = G::new_graph();

    // Alice attacks at t=1
    g.add_str_edge("ev1", "eventType", "attack", 1);
    g.add_ref_edge("ev1", "actor", "alice", 1);

    // Alice apologizes at t=2
    g.add_str_edge("ev2", "eventType", "apologize", 2);
    g.add_ref_edge("ev2", "actor", "alice", 2);

    // Bob betrays at t=3
    g.add_str_edge("ev3", "eventType", "betray", 3);
    g.add_ref_edge("ev3", "actor", "bob", 3);

    // Bob does NOT apologize
    g.set_current_time(10);

    let pattern = PatternBuilder::new("harm_then_sorry")
        .stage("e1", |s| {
            s.edge_one_of(
                "e1",
                "eventType".into(),
                vec![
                    G::str_val("attack"),
                    G::str_val("betray"),
                    G::str_val("steal"),
                ],
            )
            .edge_bind("e1", "actor".into(), "person")
        })
        .stage("e2", |s| {
            s.edge("e2", "eventType".into(), G::str_val("apologize"))
                .edge_bind("e2", "actor".into(), "person")
        })
        .build();

    let mut engine: SiftEngineFor<G> = SiftEngine::new(DefaultLetEvaluator);
    engine.register(pattern);
    let matches = engine.evaluate(&g);
    assert_eq!(
        matches.len(),
        1,
        "only Alice has a harm event followed by an apology"
    );
}

/// Incremental: OneOf advances and completes via on_edge_added.
#[test]
fn incremental_one_of_advances() {
    let mut g = G::new_graph();
    let mut engine: SiftEngineFor<G> = SiftEngine::new(DefaultLetEvaluator);

    let pattern = PatternBuilder::new("harm_event")
        .stage("e", |s| {
            s.edge_one_of(
                "e",
                "eventType".into(),
                vec![
                    G::str_val("attack"),
                    G::str_val("betray"),
                    G::str_val("steal"),
                ],
            )
        })
        .build();
    engine.register(pattern);

    // Feed "trade" -- should NOT produce any events
    g.add_str_edge("ev1", "eventType", "trade", 1);
    g.set_current_time(1);
    let ev = engine.on_edge_added(
        &g,
        &"ev1".into(),
        &"eventType".into(),
        &G::str_val("trade"),
        &Interval::open(1),
    );
    assert!(
        ev.is_empty(),
        "trade is not in OneOf list, no events expected"
    );

    // Feed "attack" -- single-stage pattern should complete immediately
    g.add_str_edge("ev2", "eventType", "attack", 2);
    g.set_current_time(2);
    let ev = engine.on_edge_added(
        &g,
        &"ev2".into(),
        &"eventType".into(),
        &G::str_val("attack"),
        &Interval::open(2),
    );
    assert!(
        ev.iter()
            .any(|e| matches!(e, SiftEvent::Completed { pattern, .. } if pattern == "harm_event")),
        "attack is in OneOf list, single-stage pattern should complete"
    );
}

// ---- winnow replay ----

/// Build the VoH pattern used in the 7-step replay.
fn voh_pattern_winnow_replay() -> Pattern<String, MemValue> {
    PatternBuilder::new("violation_of_hospitality")
        .stage("e1", |s| {
            s.edge("e1", "eventType".into(), G::str_val("enterTown"))
                .edge_bind("e1", "actor".into(), "guest")
        })
        .stage("e2", |s| {
            s.edge("e2", "eventType".into(), G::str_val("showHospitality"))
                .edge_bind("e2", "actor".into(), "host")
                .edge_bind("e2", "target".into(), "guest")
        })
        .stage("e3", |s| {
            s.edge("e3", "eventType".into(), G::str_val("harm"))
                .edge_bind("e3", "actor".into(), "host")
                .edge_bind("e3", "target".into(), "guest")
        })
        .unless_between("e1", "e3", |neg| {
            neg.edge("eMid", "eventType".into(), G::str_val("leaveTown"))
                .edge_bind("eMid", "actor".into(), "guest")
        })
        .build()
}

/// Incremental: the canonical Winnow 7-step sequence.
///
/// 1. enter(alice, t=1) -> PM advances (stage 1)
/// 2. hospitality(bob->alice, t=2) -> PM advances (stage 2)
/// 3. hospitality(charlie->alice, t=3) -> FORK: second PM at stage 2
/// 4. enter(dave, t=4) -> new PM for dave at stage 1
/// 5. leave(alice, t=5) -> KILLS all alice-related PMs (negation)
/// 6. harm(bob->alice, t=6) -> no completion (alice PMs dead)
/// 7. harm(charlie->alice, t=7) -> no completion (alice PMs dead)
#[test]
fn incremental_winnow_7step_sequence() {
    let mut g = G::new_graph();
    let mut engine: SiftEngineFor<G> = SiftEngine::new(DefaultLetEvaluator);
    engine.register(voh_pattern_winnow_replay());

    // Step 1: enter(alice, t=1) -> PM advances to stage 1
    g.add_str_edge("ev1", "eventType", "enterTown", 1);
    g.add_ref_edge("ev1", "actor", "alice", 1);
    g.set_current_time(1);
    let ev = engine.on_edge_added(
        &g,
        &"ev1".into(),
        &"eventType".into(),
        &G::str_val("enterTown"),
        &Interval::open(1),
    );
    assert!(
        ev.iter()
            .any(|e| matches!(e, SiftEvent::Advanced { pattern, .. } if pattern == "violation_of_hospitality")),
        "step 1: alice enters -> should advance"
    );

    // Step 2: hospitality(bob->alice, t=2) -> PM advances to stage 2
    g.add_str_edge("ev2", "eventType", "showHospitality", 2);
    g.add_ref_edge("ev2", "actor", "bob", 2);
    g.add_ref_edge("ev2", "target", "alice", 2);
    g.set_current_time(2);
    let ev = engine.on_edge_added(
        &g,
        &"ev2".into(),
        &"eventType".into(),
        &G::str_val("showHospitality"),
        &Interval::open(2),
    );
    assert!(
        ev.iter()
            .any(|e| matches!(e, SiftEvent::Advanced { pattern, .. } if pattern == "violation_of_hospitality")),
        "step 2: bob shows hospitality -> should advance"
    );

    // Step 3: hospitality(charlie->alice, t=3) -> FORK: second PM with host=charlie
    g.add_str_edge("ev3", "eventType", "showHospitality", 3);
    g.add_ref_edge("ev3", "actor", "charlie", 3);
    g.add_ref_edge("ev3", "target", "alice", 3);
    g.set_current_time(3);
    let ev = engine.on_edge_added(
        &g,
        &"ev3".into(),
        &"eventType".into(),
        &G::str_val("showHospitality"),
        &Interval::open(3),
    );
    assert!(
        ev.iter()
            .any(|e| matches!(e, SiftEvent::Advanced { pattern, .. } if pattern == "violation_of_hospitality")),
        "step 3: charlie shows hospitality -> should fork/advance"
    );

    // Step 4: enter(dave, t=4) -> new PM for dave at stage 1
    g.add_str_edge("ev4", "eventType", "enterTown", 4);
    g.add_ref_edge("ev4", "actor", "dave", 4);
    g.set_current_time(4);
    let ev = engine.on_edge_added(
        &g,
        &"ev4".into(),
        &"eventType".into(),
        &G::str_val("enterTown"),
        &Interval::open(4),
    );
    assert!(
        ev.iter()
            .any(|e| matches!(e, SiftEvent::Advanced { pattern, .. } if pattern == "violation_of_hospitality")),
        "step 4: dave enters -> should create new PM"
    );

    // Step 5: leave(alice, t=5) -> KILLS all alice-related PMs
    g.add_str_edge("ev_leave", "eventType", "leaveTown", 5);
    g.add_ref_edge("ev_leave", "actor", "alice", 5);
    g.set_current_time(5);
    let ev = engine.on_edge_added(
        &g,
        &"ev_leave".into(),
        &"eventType".into(),
        &G::str_val("leaveTown"),
        &Interval::open(5),
    );
    // Should emit Negated events for alice's PMs
    let negated_count = ev
        .iter()
        .filter(|e| matches!(e, SiftEvent::Negated { .. }))
        .count();
    assert!(
        negated_count > 0,
        "step 5: alice leaves -> should negate alice PMs, got {} negated",
        negated_count
    );
    // No completions at this step
    assert!(
        !ev.iter()
            .any(|e| matches!(e, SiftEvent::Completed { .. })),
        "step 5: should have no completions"
    );

    // Step 6: harm(bob->alice, t=6) -> no completion (alice PMs dead)
    g.add_str_edge("ev6", "eventType", "harm", 6);
    g.add_ref_edge("ev6", "actor", "bob", 6);
    g.add_ref_edge("ev6", "target", "alice", 6);
    g.set_current_time(6);
    let ev = engine.on_edge_added(
        &g,
        &"ev6".into(),
        &"eventType".into(),
        &G::str_val("harm"),
        &Interval::open(6),
    );
    assert!(
        !ev.iter()
            .any(|e| matches!(e, SiftEvent::Completed { .. })),
        "step 6: bob harms alice -> should NOT complete (alice PMs are dead)"
    );

    // Step 7: harm(charlie->alice, t=7) -> no completion (alice PMs dead)
    g.add_str_edge("ev7", "eventType", "harm", 7);
    g.add_ref_edge("ev7", "actor", "charlie", 7);
    g.add_ref_edge("ev7", "target", "alice", 7);
    g.set_current_time(7);
    let ev = engine.on_edge_added(
        &g,
        &"ev7".into(),
        &"eventType".into(),
        &G::str_val("harm"),
        &Interval::open(7),
    );
    assert!(
        !ev.iter()
            .any(|e| matches!(e, SiftEvent::Completed { .. })),
        "step 7: charlie harms alice -> should NOT complete (alice PMs are dead)"
    );
}

/// Batch: multiple patterns registered, only VoH matches the graph.
#[test]
fn batch_winnow_multi_pattern() {
    let mut g = G::new_graph();
    // Build a graph that satisfies VoH only
    g.add_str_edge("ev1", "eventType", "enterTown", 1);
    g.add_ref_edge("ev1", "actor", "alice", 1);
    g.add_str_edge("ev2", "eventType", "showHospitality", 2);
    g.add_ref_edge("ev2", "actor", "bob", 2);
    g.add_ref_edge("ev2", "target", "alice", 2);
    g.add_str_edge("ev3", "eventType", "harm", 3);
    g.add_ref_edge("ev3", "actor", "bob", 3);
    g.add_ref_edge("ev3", "target", "alice", 3);
    g.set_current_time(10);

    let mut engine: SiftEngineFor<G> = SiftEngine::new(DefaultLetEvaluator);

    // Register VoH
    engine.register(voh_pattern_winnow_replay());

    // Register romantic arc (needs neg, neg, pos romantic tags -- not in graph)
    engine.register(
        PatternBuilder::new("romantic_arc")
            .stage("e1", |s| {
                s.edge("e1", "tag".into(), G::str_val("negative"))
                    .edge("e1", "tag".into(), G::str_val("romantic"))
                    .edge_bind("e1", "actor".into(), "char")
            })
            .stage("e2", |s| {
                s.edge("e2", "tag".into(), G::str_val("negative"))
                    .edge("e2", "tag".into(), G::str_val("romantic"))
                    .edge_bind("e2", "actor".into(), "char")
            })
            .stage("e3", |s| {
                s.edge("e3", "tag".into(), G::str_val("positive"))
                    .edge("e3", "tag".into(), G::str_val("romantic"))
                    .edge_bind("e3", "actor".into(), "char")
            })
            .build(),
    );

    // Register two-betrayals (needs betray events + impulsive trait -- not in graph)
    engine.register(
        PatternBuilder::new("two_impulsive_betrayals")
            .stage("e1", |s| {
                s.edge("e1", "eventType".into(), G::str_val("betray"))
                    .edge_bind("e1", "actor".into(), "char")
                    .edge("char", "trait".into(), G::str_val("impulsive"))
            })
            .stage("e2", |s| {
                s.edge("e2", "eventType".into(), G::str_val("betray"))
                    .edge_bind("e2", "actor".into(), "char")
            })
            .build(),
    );

    let matches = engine.evaluate(&g);
    assert_eq!(
        matches.len(),
        1,
        "only VoH should match, got {}",
        matches.len()
    );
    assert_eq!(matches[0].pattern, "violation_of_hospitality");
}
