use fabula::builder::PatternBuilder;
use fabula::datasource::{DataSource, Edge, ValueConstraint};
use fabula::engine::{
    BoundValue, evaluate_pattern_first, evaluate_pattern_limit, gap_analysis, DefaultLetEvaluator, MatchState,
    SiftEngine, SiftEngineFor, SiftEvent, StageStatus,
};
use fabula::interval::{AllenRelation, Interval};
use fabula::pattern::{MetricGap, Pattern};

#[derive(Default)]
struct Graph {
    edges: Vec<(String, String, String, i64, Option<i64>)>,
    time: i64,
}

impl Graph {
    fn add(&mut self, src: &str, label: &str, val: &str, t: i64) {
        self.edges.push((src.into(), label.into(), val.into(), t, None));
    }
    fn add_closed(&mut self, src: &str, label: &str, val: &str, t: i64, end: i64) {
        self.edges.push((src.into(), label.into(), val.into(), t, Some(end)));
    }
}

fn edge_of(e: &(String, String, String, i64, Option<i64>)) -> Edge<String, String, i64> {
    let interval = match e.4 {
        Some(end) => Interval::new(e.3, end),
        None => Interval::open(e.3),
    };
    Edge { source: e.0.clone(), target: e.2.clone(), interval }
}

impl DataSource for Graph {
    type N = String;
    type L = String;
    type V = String;
    fn now(&self) -> i64 {
        self.time
    }
    fn value_as_node(&self, v: &String) -> Option<String> {
        Some(v.clone())
    }
    fn edges_from(&self, node: &String, label: &String, at: &i64) -> Vec<Edge<String, String, i64>> {
        self.edges
            .iter()
            .filter(|(s, l, _, t, _)| s == node && l == label && t <= at)
            .map(edge_of)
            .collect()
    }
    fn edges_from_any_time(&self, node: &String, label: &String) -> Vec<Edge<String, String, i64>> {
        self.edges
            .iter()
            .filter(|(s, l, _, _, _)| s == node && l == label)
            .map(edge_of)
            .collect()
    }
    fn scan(&self, label: &String, constraint: &ValueConstraint<String>, at: &i64) -> Vec<Edge<String, String, i64>> {
        self.edges
            .iter()
            .filter(|(_, l, v, t, _)| l == label && constraint.matches(v) && t <= at)
            .map(edge_of)
            .collect()
    }
    fn scan_any_time(&self, label: &String, constraint: &ValueConstraint<String>) -> Vec<Edge<String, String, i64>> {
        self.edges
            .iter()
            .filter(|(_, l, v, _, _)| l == label && constraint.matches(v))
            .map(edge_of)
            .collect()
    }
}

fn event(engine: &mut SiftEngineFor<Graph>, g: &mut Graph, ev: &str, kind: &str, t: i64) -> Vec<SiftEvent<String, String>> {
    g.add(ev, "type", kind, t);
    g.time = t;
    engine.on_edge_added(g, &ev.to_string(), &"type".to_string(), &kind.to_string(), &Interval::open(t))
}

fn completed(events: &[SiftEvent<String, String>]) -> usize {
    events.iter().filter(|e| matches!(e, SiftEvent::Completed { .. })).count()
}

fn negated(events: &[SiftEvent<String, String>]) -> usize {
    events.iter().filter(|e| matches!(e, SiftEvent::Negated { .. })).count()
}

fn setup_payoff() -> Pattern<String, String> {
    PatternBuilder::<String, String>::new("setup_payoff")
        .stage("a", |s| s.edge("a", "type".into(), "setup".into()))
        .stage("b", |s| s.edge("b", "type".into(), "payoff".into()))
        .unless_between("a", "b", |n| n.edge("c", "type".into(), "cancel".into()))
        .build()
}

#[test]
fn two_stage_pattern_completes_in_order() {
    let mut g = Graph::default();
    let mut engine: SiftEngineFor<Graph> = SiftEngine::new(DefaultLetEvaluator);
    engine.register(setup_payoff());
    let first = event(&mut engine, &mut g, "e1", "setup", 1);
    assert_eq!(completed(&first), 0);
    assert!(first.iter().any(|e| matches!(e, SiftEvent::Advanced { stage_index: 0, .. })));
    let second = event(&mut engine, &mut g, "e2", "payoff", 2);
    assert_eq!(completed(&second), 1);
    let drained = engine.drain_completed();
    assert_eq!(drained.len(), 1);
    assert_eq!(drained[0].pattern, "setup_payoff");
    assert_eq!(drained[0].intervals.get("a"), Some(&Interval::open(1)));
    assert_eq!(drained[0].intervals.get("b"), Some(&Interval::open(2)));
    assert!(engine.partial_matches().iter().all(|pm| pm.state != MatchState::Complete));
}

#[test]
fn payoff_before_setup_does_not_complete() {
    let mut g = Graph::default();
    let mut engine: SiftEngineFor<Graph> = SiftEngine::new(DefaultLetEvaluator);
    engine.register(setup_payoff());
    let first = event(&mut engine, &mut g, "e1", "payoff", 1);
    let second = event(&mut engine, &mut g, "e2", "setup", 2);
    assert_eq!(completed(&first) + completed(&second), 0);
}

#[test]
fn negation_between_kills_the_partial_match() {
    let mut g = Graph::default();
    let mut engine: SiftEngineFor<Graph> = SiftEngine::new(DefaultLetEvaluator);
    engine.register(setup_payoff());
    event(&mut engine, &mut g, "e1", "setup", 1);
    let cancel = event(&mut engine, &mut g, "e2", "cancel", 2);
    assert_eq!(negated(&cancel), 1);
    let after = event(&mut engine, &mut g, "e3", "payoff", 3);
    assert_eq!(completed(&after), 0);
    assert_eq!(engine.pattern_metrics(0).unwrap().negation_count, 1);
}

#[test]
fn disabled_pattern_neither_starts_nor_keeps_partial_matches() {
    let mut g = Graph::default();
    let mut engine: SiftEngineFor<Graph> = SiftEngine::new(DefaultLetEvaluator);
    engine.register(setup_payoff());
    event(&mut engine, &mut g, "e1", "setup", 1);
    assert_eq!(engine.active_matches_for("setup_payoff").len(), 1);
    engine.set_pattern_enabled(0, false);
    assert!(!engine.is_pattern_enabled(0));
    assert_eq!(engine.active_matches_for("setup_payoff").len(), 0);
    let more = event(&mut engine, &mut g, "e2", "setup", 2);
    assert!(more.is_empty());
    engine.set_pattern_enabled(0, true);
    let again = event(&mut engine, &mut g, "e3", "setup", 3);
    assert_eq!(again.len(), 1);
}

#[test]
fn kill_pms_involving_removes_bound_entity() {
    let mut g = Graph::default();
    let mut engine: SiftEngineFor<Graph> = SiftEngine::new(DefaultLetEvaluator);
    engine.register(setup_payoff());
    event(&mut engine, &mut g, "e1", "setup", 1);
    event(&mut engine, &mut g, "e2", "setup", 2);
    assert_eq!(engine.kill_pms_involving(&"e1".to_string()), 1);
    assert_eq!(engine.active_matches_for("setup_payoff").len(), 1);
    assert_eq!(engine.kill_pms_involving(&"nobody".to_string()), 0);
}

#[test]
fn deadline_expires_partial_match_at_end_of_tick() {
    let mut g = Graph::default();
    let mut engine: SiftEngineFor<Graph> = SiftEngine::new(DefaultLetEvaluator);
    let p = PatternBuilder::<String, String>::new("quick")
        .stage("a", |s| s.edge("a", "type".into(), "setup".into()))
        .stage("b", |s| s.edge("b", "type".into(), "payoff".into()))
        .deadline(2)
        .build();
    engine.register(p);
    event(&mut engine, &mut g, "e1", "setup", 1);
    let (d1, ex1) = engine.end_tick(10);
    assert!(ex1.is_empty());
    assert_eq!(d1.advanced, vec!["quick".to_string()]);
    assert_eq!(d1.active_pm_count, 1);
    let (_, ex2) = engine.end_tick(10);
    assert!(ex2.is_empty());
    let (d3, ex3) = engine.end_tick(10);
    assert_eq!(ex3.len(), 1);
    assert!(matches!(ex3[0], SiftEvent::Expired { stage_reached: 1, .. }));
    assert_eq!(d3.expired, vec!["quick".to_string()]);
    assert_eq!(d3.active_pm_count, 0);
    assert_eq!(engine.current_tick(), 3);
}

#[test]
fn private_pattern_events_are_suppressed() {
    let mut g = Graph::default();
    let mut engine: SiftEngineFor<Graph> = SiftEngine::new(DefaultLetEvaluator);
    let p = PatternBuilder::<String, String>::new("hidden")
        .stage("a", |s| s.edge("a", "type".into(), "setup".into()))
        .private()
        .build();
    engine.register(p);
    let evs = event(&mut engine, &mut g, "e1", "setup", 1);
    assert!(evs.is_empty());
    assert!(engine.drain_completed().is_empty());
    assert_eq!(engine.pattern_metrics(0).unwrap().completion_count, 1);
}

#[test]
fn exclusive_choice_kills_sibling_partial_matches() {
    let mut g = Graph::default();
    let mut engine: SiftEngineFor<Graph> = SiftEngine::new(DefaultLetEvaluator);
    let war = PatternBuilder::<String, String>::new("war")
        .stage("a", |s| s.edge("a", "type".into(), "tension".into()))
        .stage("b", |s| s.edge("b", "type".into(), "battle".into()))
        .build();
    let peace = PatternBuilder::<String, String>::new("peace")
        .stage("a", |s| s.edge("a", "type".into(), "tension".into()))
        .stage("b", |s| s.edge("b", "type".into(), "treaty".into()))
        .build();
    for p in fabula::compose::choice("crisis", &[&war, &peace], true) {
        engine.register(p);
    }
    event(&mut engine, &mut g, "e1", "tension", 1);
    assert_eq!(engine.active_matches_for("crisis_peace").len(), 1);
    let evs = event(&mut engine, &mut g, "e2", "battle", 2);
    assert_eq!(completed(&evs), 1);
    assert_eq!(engine.active_matches_for("crisis_peace").len(), 0);
}

#[test]
fn batch_evaluation_finds_all_and_limits() {
    let mut g = Graph::default();
    g.add("e1", "type", "setup", 1);
    g.add("e2", "type", "setup", 2);
    g.add("e3", "type", "payoff", 3);
    g.time = 10;
    let p = PatternBuilder::<String, String>::new("sp")
        .stage("a", |s| s.edge("a", "type".into(), "setup".into()))
        .stage("b", |s| s.edge("b", "type".into(), "payoff".into()))
        .build();
    let all = fabula::engine::evaluate_pattern(&g, &p, &DefaultLetEvaluator);
    assert_eq!(all.len(), 2);
    assert_eq!(evaluate_pattern_limit(&g, &p, &10, 1, &DefaultLetEvaluator).len(), 1);
    assert!(evaluate_pattern_first(&g, &p, &DefaultLetEvaluator).is_some());
    let mut engine: SiftEngineFor<Graph> = SiftEngine::new(DefaultLetEvaluator);
    engine.register(p);
    assert_eq!(engine.evaluate(&g).len(), 2);
}

#[test]
fn temporal_gap_bound_filters_matches() {
    let mut g = Graph::default();
    g.add_closed("e1", "type", "setup", 1, 2);
    g.add_closed("e2", "type", "payoff", 10, 11);
    g.time = 20;
    let tight = PatternBuilder::<String, String>::new("tight")
        .stage("a", |s| s.edge("a", "type".into(), "setup".into()))
        .stage("b", |s| s.edge("b", "type".into(), "payoff".into()))
        .temporal_with_gap("a", AllenRelation::Before, "b", MetricGap { min: None, max: Some(3) })
        .build();
    assert_eq!(fabula::engine::evaluate_pattern(&g, &tight, &DefaultLetEvaluator).len(), 0);
    let loose = PatternBuilder::<String, String>::new("loose")
        .stage("a", |s| s.edge("a", "type".into(), "setup".into()))
        .stage("b", |s| s.edge("b", "type".into(), "payoff".into()))
        .temporal_with_gap("a", AllenRelation::Before, "b", MetricGap { min: Some(2), max: Some(30) })
        .build();
    assert_eq!(fabula::engine::evaluate_pattern(&g, &loose, &DefaultLetEvaluator).len(), 1);
    // The gap is 10 - 2 = 8: a lower bound above it rejects the match.
    let far = PatternBuilder::<String, String>::new("far")
        .stage("a", |s| s.edge("a", "type".into(), "setup".into()))
        .stage("b", |s| s.edge("b", "type".into(), "payoff".into()))
        .temporal_with_gap("a", AllenRelation::Before, "b", MetricGap { min: Some(9), max: None })
        .build();
    assert_eq!(fabula::engine::evaluate_pattern(&g, &far, &DefaultLetEvaluator).len(), 0);
    let exact = PatternBuilder::<String, String>::new("exact")
        .stage("a", |s| s.edge("a", "type".into(), "setup".into()))
        .stage("b", |s| s.edge("b", "type".into(), "payoff".into()))
        .temporal_with_gap("a", AllenRelation::Before, "b", MetricGap { min: Some(8), max: Some(8) })
        .build();
    assert_eq!(fabula::engine::evaluate_pattern(&g, &exact, &DefaultLetEvaluator).len(), 1);
}

#[test]
fn why_not_reports_unmatched_stage() {
    let mut g = Graph::default();
    g.add("e1", "type", "setup", 1);
    g.time = 5;
    let mut engine: SiftEngineFor<Graph> = SiftEngine::new(DefaultLetEvaluator);
    engine.register(setup_payoff());
    let analysis = engine.why_not(&g, "setup_payoff").unwrap();
    assert_eq!(analysis.pattern, "setup_payoff");
    // Analysis starts from no bindings, so the first clause's source is
    // unbound and the analysis stops at the first stage.
    assert_eq!(analysis.stages.len(), 1);
    assert_eq!(analysis.stages[0].anchor, "a");
    assert_eq!(analysis.stages[0].status, StageStatus::Unmatched);
    assert_eq!(analysis.stages[0].clauses[0].reason, Some("?a is not bound".to_string()));
    assert_eq!(analysis.stages[0].clauses[0].description, "?a --[\"type\"]--> Literal(\"setup\")");
    assert!(!analysis.stages[0].clauses[0].matched);
    assert_eq!(analysis.clause_counts(), (0, 1));
    assert!(engine.why_not(&g, "missing").is_none());
    let direct = gap_analysis(&g, &setup_payoff());
    assert_eq!(direct.clause_counts(), (0, 1));
}

#[test]
fn stale_patterns_and_plant_status() {
    let mut g = Graph::default();
    let mut engine: SiftEngineFor<Graph> = SiftEngine::new(DefaultLetEvaluator);
    let plant = PatternBuilder::<String, String>::new("gun_on_wall")
        .stage("a", |s| s.edge("a", "type".into(), "gun".into()))
        .stage("b", |s| s.edge("b", "type".into(), "never".into()))
        .build();
    let payoff = PatternBuilder::<String, String>::new("gun_fired")
        .stage("a", |s| s.edge("a", "type".into(), "shot".into()))
        .build();
    let pi = engine.register(plant);
    let qi = engine.register(payoff);
    engine.register_plant_payoff(pi, qi, None);
    assert_eq!(engine.plant_payoff_pairs().len(), 1);
    event(&mut engine, &mut g, "e1", "gun", 1);
    for _ in 0..5 {
        engine.tick();
    }
    assert_eq!(engine.stale_patterns(3), vec![0usize]);
    assert!(engine.stale_patterns(10).is_empty());
    let status = engine.plant_status(3);
    assert_eq!(status.len(), 1);
    assert_eq!(status[0].plant_pattern, "gun_on_wall");
    assert_eq!(status[0].payoff_pattern, "gun_fired");
    assert_eq!(status[0].active_plants, 1);
    assert_eq!(status[0].payoff_completions, 0);
    assert_eq!(status[0].ticks_since_plant_advanced, 5);
    assert!(status[0].stale);
}

#[test]
fn stats_count_edges_and_reset() {
    let mut g = Graph::default();
    let mut engine: SiftEngineFor<Graph> = SiftEngine::new(DefaultLetEvaluator);
    engine.register(setup_payoff());
    event(&mut engine, &mut g, "e1", "setup", 1);
    event(&mut engine, &mut g, "e2", "setup", 2);
    assert_eq!(engine.stats().total_on_edge_added, 2);
    assert_eq!(engine.stats().peak_active_pms, 2);
    engine.reset_stats();
    assert_eq!(engine.stats().total_on_edge_added, 0);
}

#[test]
fn deregister_disables_and_clears() {
    let mut g = Graph::default();
    let mut engine: SiftEngineFor<Graph> = SiftEngine::new(DefaultLetEvaluator);
    engine.register(setup_payoff());
    event(&mut engine, &mut g, "e1", "setup", 1);
    engine.deregister(0);
    assert!(!engine.is_pattern_enabled(0));
    assert!(engine.partial_matches().is_empty());
    assert_eq!(engine.patterns().len(), 1);
}

#[test]
fn duplicate_partial_matches_are_not_created_twice() {
    let mut g = Graph::default();
    let mut engine: SiftEngineFor<Graph> = SiftEngine::new(DefaultLetEvaluator);
    engine.register(setup_payoff());
    event(&mut engine, &mut g, "e1", "setup", 1);
    g.time = 1;
    let again = engine.on_edge_added(&g, &"e1".to_string(), &"type".to_string(), &"setup".to_string(), &Interval::open(1));
    assert!(again.is_empty());
    assert_eq!(engine.partial_matches().len(), 1);
}

#[test]
fn tick_delta_summarizes_events_once_per_pattern() {
    let mut g = Graph::default();
    let mut engine: SiftEngineFor<Graph> = SiftEngine::new(DefaultLetEvaluator);
    engine.register(setup_payoff());
    let mut evs = event(&mut engine, &mut g, "e1", "setup", 1);
    evs.extend(event(&mut engine, &mut g, "e2", "setup", 2));
    evs.extend(event(&mut engine, &mut g, "e3", "payoff", 3));
    let d = engine.tick_delta(&evs, 100);
    assert_eq!(d.advanced, vec!["setup_payoff".to_string()]);
    assert_eq!(d.completed, vec!["setup_payoff".to_string()]);
    assert!(d.negated.is_empty());
    assert!(d.stalled.is_empty());
}

#[test]
fn completed_event_is_what_drain_returns() {
    let mut g = Graph::default();
    let mut engine: SiftEngineFor<Graph> = SiftEngine::new(DefaultLetEvaluator);
    engine.register(setup_payoff());
    event(&mut engine, &mut g, "e1", "setup", 1);
    let second = event(&mut engine, &mut g, "e2", "payoff", 2);
    let (id, bindings) = second
        .iter()
        .find_map(|e| match e {
            SiftEvent::Completed { match_id, bindings, pattern, .. } => {
                assert_eq!(pattern, "setup_payoff");
                Some((*match_id, bindings.clone()))
            },
            _ => None,
        })
        .expect("a completion");
    let held = engine
        .partial_matches()
        .iter()
        .find(|pm| pm.id == id)
        .expect("the completed partial match is held");
    assert_eq!(held.state, MatchState::Complete);
    let drained = engine.drain_completed();
    assert_eq!(drained.len(), 1);
    assert_eq!(drained[0].bindings.len(), bindings.len());
    for key in ["a", "b"] {
        assert!(bindings.get(key).is_some());
        assert_eq!(drained[0].bindings.get(key), bindings.get(key));
    }
}

#[test]
fn new_partial_matches_hold_the_new_edge_interval() {
    let mut g = Graph::default();
    let mut engine: SiftEngineFor<Graph> = SiftEngine::new(DefaultLetEvaluator);
    engine.register(setup_payoff());
    event(&mut engine, &mut g, "e1", "setup", 1);
    let before: Vec<usize> = engine.partial_matches().iter().map(|pm| pm.id).collect();
    event(&mut engine, &mut g, "e2", "payoff", 5);
    for pm in engine.partial_matches() {
        if !before.contains(&pm.id) {
            assert!(pm.intervals.get("b") == Some(&Interval::open(5)) || pm.intervals.get("a") == Some(&Interval::open(5)));
        }
    }
}

#[test]
fn negated_event_reports_a_partial_match_that_is_gone() {
    let mut g = Graph::default();
    let mut engine: SiftEngineFor<Graph> = SiftEngine::new(DefaultLetEvaluator);
    engine.register(setup_payoff());
    event(&mut engine, &mut g, "e1", "setup", 1);
    let active: Vec<usize> = engine
        .partial_matches()
        .iter()
        .filter(|pm| pm.state == MatchState::Active)
        .map(|pm| pm.id)
        .collect();
    let killed = event(&mut engine, &mut g, "e2", "cancel", 2);
    let ids: Vec<usize> = killed
        .iter()
        .filter_map(|e| match e {
            SiftEvent::Negated { match_id, pattern, .. } => {
                assert_eq!(pattern, "setup_payoff");
                Some(*match_id)
            },
            _ => None,
        })
        .collect();
    assert_eq!(ids.len(), 1);
    assert!(active.contains(&ids[0]));
    assert!(engine.partial_matches().iter().all(|pm| pm.id != ids[0]));
}

#[test]
fn complete_partial_matches_are_past_the_last_stage() {
    let mut g = Graph::default();
    let mut engine: SiftEngineFor<Graph> = SiftEngine::new(DefaultLetEvaluator);
    engine.register(setup_payoff());
    event(&mut engine, &mut g, "e1", "setup", 1);
    event(&mut engine, &mut g, "e2", "payoff", 2);
    let complete: Vec<_> = engine.partial_matches().iter().filter(|pm| pm.state == MatchState::Complete).collect();
    assert_eq!(complete.len(), 1);
    assert!(complete[0].next_stage >= engine.patterns()[complete[0].pattern_idx].stages.len());
}

#[test]
fn expired_event_carries_the_bindings() {
    let mut g = Graph::default();
    let mut engine: SiftEngineFor<Graph> = SiftEngine::new(DefaultLetEvaluator);
    let p = PatternBuilder::<String, String>::new("quick")
        .stage("a", |s| s.edge("a", "type".into(), "setup".into()))
        .stage("b", |s| s.edge("b", "type".into(), "payoff".into()))
        .deadline(0)
        .build();
    engine.register(p);
    event(&mut engine, &mut g, "e1", "setup", 1);
    let (_, ex1) = engine.end_tick(10);
    assert_eq!(ex1.len(), 1);
    match &ex1[0] {
        SiftEvent::Expired { pattern, bindings, ticks_elapsed, .. } => {
            assert_eq!(pattern, "quick");
            assert_eq!(*ticks_elapsed, 1);
            assert!(matches!(bindings.get("a"), Some(BoundValue::Node(n)) if n == "e1"));
        },
        _ => panic!("expected an Expired event"),
    }
}
