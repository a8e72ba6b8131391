use fabula::builder::PatternBuilder;
use fabula::pattern::Pattern;
use fabula::scoring::surprise::SurpriseScorer;
use fabula::strmap::StrMap;
use fabula::types::{Match, SiftEvent};

fn dummy_pattern(name: &str) -> Pattern<String, String> {
    PatternBuilder::<String, String>::new(name)
        .stage("e", |s| s.edge("e", "type".into(), "x".into()))
        .build()
}

fn dummy_match(name: &str) -> Match<String, String, i64> {
    Match {
        pattern: name.to_string(),
        pattern_idx: None,
        bindings: StrMap::new(),
        intervals: StrMap::new(),
        metadata: StrMap::new(),
    }
}

fn three_events() -> Vec<SiftEvent<String, String>> {
    vec![
        SiftEvent::Advanced { pattern: "test".into(), match_id: 0, stage_index: 0, metadata: StrMap::new() },
        SiftEvent::Completed { pattern: "test".into(), match_id: 1, bindings: StrMap::new(), metadata: StrMap::new() },
        SiftEvent::Negated {
            pattern: "test".into(),
            match_id: 2,
            clause_label: "x".into(),
            trigger_source: "src".into(),
            metadata: StrMap::new(),
        },
    ]
}

#[test]
fn surprise_observe_events_counts_completions_only() {
    let patterns = vec![dummy_pattern("test")];
    let mut scorer = SurpriseScorer::new();
    scorer.set_baseline_bits(0, 0.5f64.to_bits());
    scorer.observe_events(&three_events(), &patterns);
    assert_eq!(scorer.count_for(0), 1, "only Completed should be counted");
}

#[test]
fn scoring_observe_events_counts_completions_only() {
    let patterns = vec![dummy_pattern("test")];
    let mut scorer = SurpriseScorer::new();
    scorer.set_baseline_bits(0, 0.5f64.to_bits());
    scorer.observe_events(&three_events(), &patterns);
    assert_eq!(scorer.count_for(0), 1, "only Completed should be counted");
}

#[test]
fn surprise_reset_clears_counts_preserves_baselines() {
    let patterns = vec![dummy_pattern("test")];
    let mut scorer = SurpriseScorer::new();
    scorer.set_baseline_bits(0, 0.5f64.to_bits());
    for _ in 0..5 {
        scorer.observe(&[dummy_match("test")], &patterns);
    }
    assert_eq!(scorer.count_for(0), 5);
    assert_eq!(scorer.total_rounds(), 5);
    scorer.reset_counts();
    assert_eq!(scorer.count_for(0), 0);
    assert_eq!(scorer.total_rounds(), 0);
    assert!(scorer.baseline_bits(0).is_some());
}

#[test]
fn scoring_reset_clears_counts_preserves_baselines() {
    let patterns = vec![dummy_pattern("test")];
    let mut scorer = SurpriseScorer::new();
    scorer.set_baseline_bits(0, 0.5f64.to_bits());
    for _ in 0..5 {
        scorer.observe(&[dummy_match("test")], &patterns);
    }
    assert_eq!(scorer.count_for(0), 5);
    assert_eq!(scorer.total_rounds(), 5);
    scorer.reset_counts();
    assert_eq!(scorer.count_for(0), 0);
    assert_eq!(scorer.total_rounds(), 0);
    assert!(scorer.baseline_bits(0).is_some());
}

#[test]
fn surprise_tick_increments_rounds() {
    let mut scorer = SurpriseScorer::new();
    assert_eq!(scorer.total_rounds(), 0);
    scorer.tick();
    scorer.tick();
    scorer.tick();
    assert_eq!(scorer.total_rounds(), 3);
}

#[test]
fn scoring_tick_increments_rounds() {
    let mut scorer = SurpriseScorer::new();
    assert_eq!(scorer.total_rounds(), 0);
    scorer.tick();
    scorer.tick();
    scorer.tick();
    assert_eq!(scorer.total_rounds(), 3);
}

#[test]
fn observe_counts_each_pattern_once_per_round() {
    let patterns = vec![dummy_pattern("a"), dummy_pattern("b"), dummy_pattern("a")];
    let mut scorer = SurpriseScorer::new();
    scorer.observe(&[dummy_match("a"), dummy_match("a"), dummy_match("zzz")], &patterns);
    scorer.observe(&[dummy_match("b")], &patterns);
    assert_eq!(scorer.total_rounds(), 2);
    assert_eq!(scorer.count_for(0), 1);
    assert_eq!(scorer.count_for(1), 1);
    assert_eq!(scorer.count_for(2), 0);
    assert_eq!(scorer.baseline_bits(0), None);
    scorer.set_baseline_bits(7, 42);
    scorer.set_baseline_bits(7, 43);
    assert_eq!(scorer.baseline_bits(7), Some(43));
}
