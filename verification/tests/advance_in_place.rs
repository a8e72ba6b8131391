use fabula::builder::PatternBuilder;
use fabula::datasource::{DataSource, Edge, ValueConstraint};
use fabula::engine::{DefaultLetEvaluator, MatchState, SiftEngine, SiftEngineFor, SiftEvent};
use fabula::interval::Interval;
use fabula::pattern::RepeatRange;

#[derive(Default)]
struct ToyGraph {
    edges: Vec<(String, String, String, i64)>,
    time: i64,
}

impl ToyGraph {
    fn add_str(&mut self, src: &str, label: &str, val: &str, t: i64) {
        self.edges.push((src.into(), label.into(), val.into(), t));
    }
    fn set_time(&mut self, t: i64) {
        self.time = t;
    }
}

impl DataSource for ToyGraph {
    type N = String;
    type L = String;
    type V = String;
    fn now(&self) -> i64 {
        self.time
    }
    fn value_as_node(&self, v: &String) -> Option<String> {
        Some(v.clone())
    }
    fn edges_from(&self, node: &String, label: &String, _at: &i64) -> Vec<Edge<String, String, i64>> {
        self.edges
            .iter()
            .filter(|(s, l, _, _)| s == node && l == label)
            .map(|(s, _, t, time)| Edge {
                source: s.clone(),
                target: t.clone(),
                interval: Interval::open(*time),
            })
            .collect()
    }
    fn edges_from_any_time(&self, node: &String, label: &String) -> Vec<Edge<String, String, i64>> {
        self.edges_from(node, label, &0)
    }
    fn scan(&self, label: &String, _constraint: &ValueConstraint<String>, _at: &i64) -> Vec<Edge<String, String, i64>> {
        self.edges
            .iter()
            .filter(|(_, l, _, _)| l == label)
            .map(|(s, _, t, time)| Edge {
                source: s.clone(),
                target: t.clone(),
                interval: Interval::open(*time),
            })
            .collect()
    }
    fn scan_any_time(&self, label: &String, constraint: &ValueConstraint<String>) -> Vec<Edge<String, String, i64>> {
        self.scan(label, constraint, &0)
    }
}

fn two_stage_pattern(advance_in_place: bool) -> fabula::pattern::Pattern<String, String> {
    let mut b = PatternBuilder::<String, String>::new("enter_then_leave")
        .stage("a", |s| s.edge("a", "eventType".into(), "enter".into()))
        .stage("b", |s| s.edge("b", "eventType".into(), "leave".into()));
    if advance_in_place {
        b = b.advance_in_place();
    }
    b.build()
}

fn feed(
    engine: &mut SiftEngineFor<ToyGraph>,
    g: &mut ToyGraph,
    ev: &str,
    kind: &str,
    t: i64,
) -> Vec<SiftEvent<String, String>> {
    g.add_str(ev, "eventType", kind, t);
    g.set_time(t);
    engine.on_edge_added(
        g,
        &ev.to_string(),
        &"eventType".to_string(),
        &kind.to_string(),
        &Interval::open(t),
    )
}

fn stage_one_active(engine: &SiftEngineFor<ToyGraph>) -> usize {
    engine
        .partial_matches()
        .iter()
        .filter(|pm| pm.next_stage == 1 && pm.state == MatchState::Active)
        .count()
}

#[test]
fn default_behavior_original_survives_advancement() {
    let mut g = ToyGraph::default();
    let mut engine: SiftEngineFor<ToyGraph> = SiftEngine::new(DefaultLetEvaluator);
    engine.register(two_stage_pattern(false));

    feed(&mut engine, &mut g, "ev1", "enter", 1);
    feed(&mut engine, &mut g, "ev2", "leave", 2);
    engine.end_tick(0);

    let n = stage_one_active(&engine);
    assert!(n >= 1, "default behavior should preserve a stage-1 PM, got {}", n);
}

#[test]
fn advance_in_place_consumes_original_after_strict_forward_advance() {
    let mut g = ToyGraph::default();
    let mut engine: SiftEngineFor<ToyGraph> = SiftEngine::new(DefaultLetEvaluator);
    engine.register(two_stage_pattern(true));

    feed(&mut engine, &mut g, "ev1", "enter", 1);
    feed(&mut engine, &mut g, "ev2", "leave", 2);
    engine.end_tick(0);

    let n = stage_one_active(&engine);
    assert_eq!(n, 0, "advance_in_place should consume the stage-1 PM after advancement, got {}", n);
}

#[test]
fn advance_in_place_still_emits_completed_event() {
    let mut g = ToyGraph::default();
    let mut engine: SiftEngineFor<ToyGraph> = SiftEngine::new(DefaultLetEvaluator);
    engine.register(two_stage_pattern(true));

    feed(&mut engine, &mut g, "ev1", "enter", 1);
    let events = feed(&mut engine, &mut g, "ev2", "leave", 2);

    assert!(
        events.iter().any(|e| matches!(e, SiftEvent::Completed { .. })),
        "Completed event must still fire when advance_in_place is enabled"
    );
}

#[test]
fn advance_in_place_prevents_second_stage_one_pm_from_forking() {
    let mut g = ToyGraph::default();
    let mut engine: SiftEngineFor<ToyGraph> = SiftEngine::new(DefaultLetEvaluator);
    engine.register(two_stage_pattern(true));

    feed(&mut engine, &mut g, "ev1", "enter", 1);
    feed(&mut engine, &mut g, "ev2", "enter", 2);
    feed(&mut engine, &mut g, "ev3", "leave", 3);
    engine.end_tick(0);

    let n = stage_one_active(&engine);
    assert_eq!(n, 0, "all stage-1 PMs should be consumed under advance_in_place, got {}", n);
}

#[test]
fn advance_in_place_preserves_original_across_within_group_match() {
    let mut g = ToyGraph::default();
    let mut engine: SiftEngineFor<ToyGraph> = SiftEngine::new(DefaultLetEvaluator);
    let pattern = PatternBuilder::<String, String>::new("group_then_leave")
        .stage("a", |s| s.edge("a", "eventType".into(), "enter".into()))
        .unordered_group(|b| {
            b.stage("g1", |s| s.edge("g1", "eventType".into(), "greet".into()))
                .stage("g2", |s| s.edge("g2", "eventType".into(), "seat".into()))
        })
        .stage("z", |s| s.edge("z", "eventType".into(), "leave".into()))
        .advance_in_place()
        .build();
    engine.register(pattern);

    feed(&mut engine, &mut g, "e1", "enter", 1);
    feed(&mut engine, &mut g, "e2", "greet", 2);

    let active_before_seat = engine
        .partial_matches()
        .iter()
        .filter(|pm| pm.state == MatchState::Active)
        .count();
    assert!(
        active_before_seat >= 1,
        "within-group advance should preserve an Active PM, got {}",
        active_before_seat
    );

    feed(&mut engine, &mut g, "e3", "seat", 3);
    let events = feed(&mut engine, &mut g, "e4", "leave", 4);

    assert!(
        events.iter().any(|e| matches!(e, SiftEvent::Completed { .. })),
        "the full sequence should produce a Completed event"
    );
}

#[test]
fn advance_in_place_with_repeat_range_loop_back_survives() {
    let mut g = ToyGraph::default();
    let mut engine: SiftEngineFor<ToyGraph> = SiftEngine::new(DefaultLetEvaluator);

    let mut pattern = PatternBuilder::<String, String>::new("repeating_step")
        .stage("s", |s| s.edge("s", "eventType".into(), "step".into()))
        .advance_in_place()
        .build();
    pattern.repeat_range = Some(RepeatRange {
        stage_start: 0,
        stage_end: 1,
        min_reps: 1,
        max_reps: Some(3),
        shared_vars: Vec::new(),
    });
    engine.register(pattern);

    let mut total_completed = 0;
    for i in 0..3 {
        let ev = format!("ev_step_{i}");
        let t = (i + 1) as i64;
        let events = feed(&mut engine, &mut g, &ev, "step", t);
        total_completed += events
            .iter()
            .filter(|e| matches!(e, SiftEvent::Completed { .. }))
            .count();
    }
    engine.end_tick(0);

    assert!(
        total_completed >= 2,
        "repeat_range with advance_in_place should emit multiple completions \
         across iterations; got {} completions",
        total_completed
    );
}
