use fabula::scoring::role_conditioned::RoleConditionedStuScorer;
use fabula::scoring::sequential::SequentialScorer;
use fabula::scoring::stu::{StuAggregation, StuScorer};

fn props(xs: &[&str]) -> Vec<String> {
    xs.iter().map(|s| s.to_string()).collect()
}

#[test]
fn scoring_stu_observe_batch() {
    let mut stu = StuScorer::new();

    let p1_props = vec!["a".to_string(), "b".to_string()];
    let p2_props = vec!["c".to_string()];
    let batch: Vec<(&str, &[String])> = vec![("p1", &p1_props), ("p2", &p2_props)];
    stu.observe_batch(&batch);

    assert_eq!(stu.match_count("p1"), 1);
    assert_eq!(stu.match_count("p2"), 1);
    assert_eq!(stu.vocabulary_size("p1"), 2);
}

#[test]
fn scoring_stu_reset_clears_all() {
    let mut stu = StuScorer::new();
    stu.observe_one("test", &props(&["a", "b"]));
    assert_eq!(stu.match_count("test"), 1);

    stu.reset();
    assert_eq!(stu.match_count("test"), 0);
    assert_eq!(stu.vocabulary_size("test"), 0);
}

#[test]
fn stu_stu_observe_batch() {
    let mut stu = StuScorer::new();

    let p1_props = vec!["a".to_string(), "b".to_string()];
    let p2_props = vec!["c".to_string()];
    let batch: Vec<(&str, &[String])> = vec![("p1", &p1_props), ("p2", &p2_props)];
    stu.observe_batch(&batch);

    assert_eq!(stu.match_count("p1"), 1);
    assert_eq!(stu.match_count("p2"), 1);
    assert_eq!(stu.vocabulary_size("p1"), 2);
}

#[test]
fn stu_stu_reset_clears_all() {
    let mut stu = StuScorer::new();
    stu.observe_one("test", &props(&["a", "b"]));
    assert_eq!(stu.match_count("test"), 1);

    stu.reset();
    assert_eq!(stu.match_count("test"), 0);
    assert_eq!(stu.vocabulary_size("test"), 0);
}

#[test]
fn stu_with_aggregation_builder() {
    let scorer = StuScorer::new().with_aggregation(StuAggregation::TfIdf);
    assert_eq!(scorer.aggregation(), StuAggregation::TfIdf);

    let default = StuScorer::new();
    assert_eq!(default.aggregation(), StuAggregation::ArithmeticMean);
}

#[test]
fn match_count_tracks_per_role() {
    let mut scorer = RoleConditionedStuScorer::new();
    scorer.observe_one("betrayal", "villain", &props(&["weapon=knife"]));
    scorer.observe_one("betrayal", "villain", &props(&["weapon=words"]));
    scorer.observe_one("betrayal", "hero", &props(&["weapon=words"]));

    assert_eq!(scorer.match_count("betrayal", "villain"), 2);
    assert_eq!(scorer.match_count("betrayal", "hero"), 1);
    assert_eq!(scorer.match_count("betrayal", "unknown"), 0);
    assert_eq!(scorer.match_count("rescue", "villain"), 0);
}

#[test]
fn reset_clears_state() {
    let mut seq = SequentialScorer::new();
    seq.observe_transition("a", "b");
    assert_eq!(seq.total_transitions_from("a"), 1);

    seq.reset();
    assert_eq!(seq.total_transitions_from("a"), 0);
    assert_eq!(seq.vocabulary_size("a"), 0);
}

#[test]
fn vocabulary_tracking() {
    let mut seq = SequentialScorer::new();
    seq.observe_transition("a", "b");
    seq.observe_transition("a", "c");
    seq.observe_transition("a", "b"); // duplicate successor
    assert_eq!(seq.vocabulary_size("a"), 2);
    assert_eq!(seq.total_transitions_from("a"), 3);
}

#[test]
fn stu_properties_count_once_per_match() {
    let mut stu = StuScorer::new();
    stu.observe_one("test", &props(&["dup", "dup", "dup"]));
    assert_eq!(stu.match_count("test"), 1);
    assert_eq!(stu.frequency_terms("test", "dup"), Some((1, 1, 1)));
    assert_eq!(stu.frequency_terms("test", "other"), Some((0, 1, 1)));
    assert_eq!(stu.frequency_terms("unknown", "dup"), None);
}

#[test]
fn stu_pairs_counted_with_pmi_correction() {
    let mut stu = StuScorer::new().with_pmi_correction();
    assert!(stu.pmi_correction());
    stu.observe_one("test", &props(&["rebels", "hideout"]));
    stu.observe_one("test", &props(&["rebels", "hideout"]));
    stu.observe_one("test", &props(&["crown", "castle"]));
    assert_eq!(stu.pair_count("test", "rebels", "hideout"), 2);
    assert_eq!(stu.pair_count("test", "hideout", "rebels"), 2);
    assert_eq!(stu.pair_count("test", "rebels", "castle"), 0);
    assert_eq!(stu.match_count("test"), 3);
    assert_eq!(stu.vocabulary_size("test"), 4);
}

#[test]
fn stu_without_pmi_counts_no_pairs() {
    let mut stu = StuScorer::new();
    assert!(!stu.pmi_correction());
    stu.observe_one("test", &props(&["a", "b"]));
    assert_eq!(stu.pair_count("test", "a", "b"), 0);
}

#[test]
fn role_tables_are_separate() {
    let mut scorer = RoleConditionedStuScorer::new();
    scorer.observe_one("p", "r", &props(&["x", "x", "x", "y"]));
    assert_eq!(scorer.match_count("p", "r"), 1);
    assert_eq!(scorer.frequency_terms("p", "r", "x"), Some((1, 1, 2)));
    assert_eq!(scorer.frequency_terms("p", "other", "x"), None);
    scorer.reset();
    assert_eq!(scorer.match_count("p", "r"), 0);
}

#[test]
fn transition_counts() {
    let mut seq = SequentialScorer::new();
    seq.observe_transition("a", "b");
    seq.observe_transition("a", "b");
    seq.observe_transition("a", "c");
    assert_eq!(seq.transition_terms("a", "b"), Some((2, 3, 2)));
    assert_eq!(seq.transition_terms("a", "z"), Some((0, 3, 2)));
    assert_eq!(seq.transition_terms("unknown", "anything"), None);
}
