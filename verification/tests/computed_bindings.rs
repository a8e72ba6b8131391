use fabula::builder::PatternBuilder;
use fabula::datasource::{DataSource, Edge, ValueConstraint};
use fabula::engine::{evaluate_pattern, DefaultLetEvaluator, SiftEngine, SiftEvent};
use fabula::expr::{ArithmeticValue, BinOp, Expr};
use fabula::interval::Interval;
use std::hash::{Hash, Hasher};

#[derive(Debug, Clone, PartialEq, PartialOrd)]
enum TestVal {
    Str(String),
    Num(f64),
}

impl Hash for TestVal {
    fn hash<H: Hasher>(&self, state: &mut H) {
        std::mem::discriminant(self).hash(state);
        match self {
            TestVal::Str(s) => s.hash(state),
            TestVal::Num(n) => n.to_bits().hash(state),
        }
    }
}

impl ArithmeticValue for TestVal {
    fn try_add(&self, other: &Self) -> Option<Self> {
        match (self, other) {
            (TestVal::Num(a), TestVal::Num(b)) => Some(TestVal::Num(a + b)),
            _ => None,
        }
    }
    fn try_sub(&self, other: &Self) -> Option<Self> {
        match (self, other) {
            (TestVal::Num(a), TestVal::Num(b)) => Some(TestVal::Num(a - b)),
            _ => None,
        }
    }
    fn try_mul(&self, other: &Self) -> Option<Self> {
        match (self, other) {
            (TestVal::Num(a), TestVal::Num(b)) => Some(TestVal::Num(a * b)),
            _ => None,
        }
    }
    fn try_div(&self, other: &Self) -> Option<Self> {
        match (self, other) {
            (TestVal::Num(_), TestVal::Num(b)) if *b == 0.0 => None,
            (TestVal::Num(a), TestVal::Num(b)) => Some(TestVal::Num(a / b)),
            _ => None,
        }
    }
}

#[derive(Default)]
struct TestGraph {
    edges: Vec<(String, String, TestVal, i64)>,
    time: i64,
}

impl TestGraph {
    fn add(&mut self, src: &str, label: &str, val: TestVal, t: i64) {
        self.edges.push((src.into(), label.into(), val, t));
    }
    fn set_time(&mut self, t: i64) {
        self.time = t;
    }
}

impl DataSource for TestGraph {
    type N = String;
    type L = String;
    type V = TestVal;
    fn now(&self) -> i64 {
        self.time
    }
    fn value_as_node(&self, _v: &TestVal) -> Option<String> {
        None
    }
    fn edges_from(&self, node: &String, label: &String, _at: &i64) -> Vec<Edge<String, TestVal, i64>> {
        self.edges
            .iter()
            .filter(|(s, l, _, _)| s == node && l == label)
            .map(|(s, _, v, t)| Edge {
                source: s.clone(),
                target: v.clone(),
                interval: Interval::open(*t),
            })
            .collect()
    }
    fn edges_from_any_time(&self, node: &String, label: &String) -> Vec<Edge<String, TestVal, i64>> {
        self.edges_from(node, label, &0)
    }
    fn scan(&self, label: &String, _constraint: &ValueConstraint<TestVal>, _at: &i64) -> Vec<Edge<String, TestVal, i64>> {
        self.edges
            .iter()
            .filter(|(_, l, _, _)| l == label)
            .map(|(s, _, v, t)| Edge {
                source: s.clone(),
                target: v.clone(),
                interval: Interval::open(*t),
            })
            .collect()
    }
    fn scan_any_time(&self, label: &String, constraint: &ValueConstraint<TestVal>) -> Vec<Edge<String, TestVal, i64>> {
        self.scan(label, constraint, &0)
    }
}

fn graph_with_two_pulses() -> TestGraph {
    let mut g = TestGraph::default();
    g.add("e1", "type", TestVal::Str("world".into()), 1);
    g.add("e1", "pulse_count", TestVal::Num(3.0), 1);
    g.add("e2", "type", TestVal::Str("world".into()), 5);
    g.add("e2", "pulse_count", TestVal::Num(8.0), 5);
    g.set_time(10);
    g
}

fn deadline_pattern() -> fabula::pattern::Pattern<String, TestVal> {
    PatternBuilder::<String, TestVal>::new("deadline_match")
        .stage("e1", |s| {
            s.edge("e1", "type".into(), TestVal::Str("world".into()))
                .edge_bind("e1", "pulse_count".into(), "ts")
                .let_binding(
                    "deadline",
                    Expr::bin(BinOp::Add, Expr::var("ts"), Expr::lit(TestVal::Num(5.0))),
                )
        })
        .stage("e2", |s| {
            s.edge("e2", "type".into(), TestVal::Str("world".into()))
                .edge_eq_var("e2", "pulse_count".into(), "deadline")
        })
        .build()
}

#[test]
fn let_in_batch_evaluation_matches_deadline() {
    let g = graph_with_two_pulses();
    let p = deadline_pattern();

    let matches = evaluate_pattern(&g, &p, &DefaultLetEvaluator);
    assert_eq!(matches.len(), 1, "expected one match where pulse_count = ts + 5");
}

#[test]
fn let_with_unbound_var_yields_no_match() {
    let g = graph_with_two_pulses();
    let p = PatternBuilder::<String, TestVal>::new("nope")
        .stage("e1", |s| {
            s.edge("e1", "type".into(), TestVal::Str("world".into()))
                .let_binding(
                    "x",
                    Expr::bin(BinOp::Add, Expr::var("ghost"), Expr::lit(TestVal::Num(1.0))),
                )
        })
        .build();
    let matches = evaluate_pattern(&g, &p, &DefaultLetEvaluator);
    assert_eq!(matches.len(), 0);
}

#[test]
fn let_division_by_zero_yields_no_match() {
    let g = graph_with_two_pulses();
    let p = PatternBuilder::<String, TestVal>::new("divzero")
        .stage("e1", |s| {
            s.edge("e1", "type".into(), TestVal::Str("world".into()))
                .edge_bind("e1", "pulse_count".into(), "ts")
                .let_binding(
                    "x",
                    Expr::bin(BinOp::Div, Expr::var("ts"), Expr::lit(TestVal::Num(0.0))),
                )
        })
        .build();
    let matches = evaluate_pattern(&g, &p, &DefaultLetEvaluator);
    assert_eq!(matches.len(), 0);
}

#[test]
fn let_in_incremental_evaluation_matches_deadline() {
    let mut g = TestGraph::default();
    let p = deadline_pattern();

    let mut engine = SiftEngine::<String, String, TestVal, DefaultLetEvaluator>::new(DefaultLetEvaluator);
    engine.register(p);

    let interval_e1: Interval<i64> = Interval::open(1);
    let interval_e2: Interval<i64> = Interval::open(5);

    g.add("e1", "pulse_count", TestVal::Num(3.0), 1);
    let _ = engine.on_edge_added(&g, &"e1".to_string(), &"pulse_count".to_string(), &TestVal::Num(3.0), &interval_e1);
    g.add("e1", "type", TestVal::Str("world".into()), 1);
    let _ = engine.on_edge_added(
        &g,
        &"e1".to_string(),
        &"type".to_string(),
        &TestVal::Str("world".into()),
        &interval_e1,
    );
    g.add("e2", "pulse_count", TestVal::Num(8.0), 5);
    let _ = engine.on_edge_added(&g, &"e2".to_string(), &"pulse_count".to_string(), &TestVal::Num(8.0), &interval_e2);
    g.add("e2", "type", TestVal::Str("world".into()), 5);
    let evs = engine.on_edge_added(
        &g,
        &"e2".to_string(),
        &"type".to_string(),
        &TestVal::Str("world".into()),
        &interval_e2,
    );

    let completed = evs
        .iter()
        .filter(|e| matches!(e, SiftEvent::Completed { .. }))
        .count();
    assert_eq!(completed, 1, "expected one Completed event");
}

#[test]
fn let_binding_value_is_reported_in_match() {
    let g = graph_with_two_pulses();
    let p = deadline_pattern();
    let matches = evaluate_pattern(&g, &p, &DefaultLetEvaluator);
    assert_eq!(matches.len(), 1);
    let m = &matches[0];
    assert_eq!(
        m.bindings.get("deadline"),
        Some(&fabula::engine::BoundValue::Value(TestVal::Num(8.0)))
    );
    assert_eq!(m.intervals.get("e1"), Some(&Interval::open(1)));
    assert_eq!(m.intervals.get("e2"), Some(&Interval::open(5)));
}

#[test]
fn let_shadowing_a_bound_name_yields_no_match() {
    let g = graph_with_two_pulses();
    let p = PatternBuilder::<String, TestVal>::new("shadow")
        .stage("e1", |s| {
            s.edge("e1", "type".into(), TestVal::Str("world".into()))
                .edge_bind("e1", "pulse_count".into(), "ts")
                .let_binding("ts", Expr::lit(TestVal::Num(1.0)))
        })
        .build();
    let matches = evaluate_pattern(&g, &p, &DefaultLetEvaluator);
    assert_eq!(matches.len(), 0);
}

#[test]
fn each_let_evaluates_its_own_expression_in_order() {
    let g = graph_with_two_pulses();
    let p = PatternBuilder::<String, TestVal>::new("chain")
        .stage("e1", |s| {
            s.edge("e1", "type".into(), TestVal::Str("world".into()))
                .edge_bind("e1", "pulse_count".into(), "ts")
                .let_binding("a", Expr::bin(BinOp::Add, Expr::var("ts"), Expr::lit(TestVal::Num(1.0))))
                .let_binding("b", Expr::bin(BinOp::Mul, Expr::var("a"), Expr::lit(TestVal::Num(2.0))))
        })
        .build();
    let matches = evaluate_pattern(&g, &p, &DefaultLetEvaluator);
    assert_eq!(matches.len(), 2);
    let first = matches
        .iter()
        .find(|m| m.bindings.get("ts") == Some(&fabula::engine::BoundValue::Value(TestVal::Num(3.0))))
        .expect("a match for e1");
    assert_eq!(first.bindings.get("a"), Some(&fabula::engine::BoundValue::Value(TestVal::Num(4.0))));
    assert_eq!(first.bindings.get("b"), Some(&fabula::engine::BoundValue::Value(TestVal::Num(8.0))));
}
