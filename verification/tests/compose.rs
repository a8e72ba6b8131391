use fabula::builder::PatternBuilder;
use fabula::compose::{choice, rename_vars, repeat, sequence};
use fabula::datasource::ValueConstraint;
use fabula::pattern::{Pattern, Target};

fn make_pattern(name: &str, stage_count: usize) -> Pattern<String, String> {
    let mut builder = PatternBuilder::<String, String>::new(name);
    for i in 0..stage_count {
        let anchor = format!("e{}", i);
        let evt = format!("event_{}", i);
        builder = builder.stage(&anchor, |s| {
            s.edge(&anchor, "type".to_string(), evt)
                .edge_bind(&anchor, "actor".to_string(), "char")
        });
    }
    builder.build()
}

fn bind_names(p: &Pattern<String, String>) -> Vec<String> {
    p.stages
        .iter()
        .flat_map(|s| {
            s.clauses.iter().filter_map(|c| {
                if let Target::Bind(ref v) = c.target {
                    Some(v.0.clone())
                } else {
                    None
                }
            })
        })
        .collect()
}

#[test]
fn sequence_concatenates_stages() {
    let a = make_pattern("setup", 2);
    let b = make_pattern("payoff", 2);
    let composed = sequence("arc", &a, &b, &["char"]);

    assert_eq!(composed.name, "arc");
    assert_eq!(composed.stages.len(), 4);
    assert!(composed.group.is_none());
}

#[test]
fn sequence_shared_vars_not_renamed() {
    let a = make_pattern("setup", 1);
    let b = make_pattern("payoff", 1);
    let composed = sequence("arc", &a, &b, &["char"]);

    let all_var_names = bind_names(&composed);
    assert!(all_var_names.iter().all(|n| n == "char"));
}

#[test]
fn sequence_non_shared_vars_prefixed() {
    let a = make_pattern("setup", 1);
    let b = make_pattern("payoff", 1);
    let composed = sequence("arc", &a, &b, &["char"]);

    assert_eq!(composed.stages[0].anchor.0, "a_e0");
    assert_eq!(composed.stages[1].anchor.0, "b_e0");
}

#[test]
fn choice_returns_multiple_patterns() {
    let war = make_pattern("war", 2);
    let famine = make_pattern("famine", 2);
    let plague = make_pattern("plague", 2);

    let crises = choice("crisis", &[&war, &famine, &plague], false);
    assert_eq!(crises.len(), 3);
    assert_eq!(crises[0].name, "crisis_war");
    assert_eq!(crises[1].name, "crisis_famine");
    assert!(crises[0].group.is_none());
}

#[test]
fn choice_exclusive_sets_group() {
    let war = make_pattern("war", 2);
    let famine = make_pattern("famine", 2);

    let crises = choice("crisis", &[&war, &famine], true);
    assert_eq!(crises[0].group, Some("crisis".to_string()));
    assert_eq!(crises[1].group, Some("crisis".to_string()));
}

#[test]
fn repeat_multiplies_stages() {
    let offense = make_pattern("offense", 2);
    let escalation = repeat("three_strikes", &offense, 3, &["char"]);

    assert_eq!(escalation.name, "three_strikes");
    assert_eq!(escalation.stages.len(), 6);
}

#[test]
fn repeat_shared_vars_consistent() {
    let offense = make_pattern("offense", 1);
    let escalation = repeat("three_strikes", &offense, 3, &["char"]);

    assert_eq!(bind_names(&escalation), vec!["char", "char", "char"]);
}

#[test]
fn repeat_non_shared_vars_prefixed_per_rep() {
    let offense = make_pattern("offense", 1);
    let escalation = repeat("three_strikes", &offense, 3, &["char"]);

    let anchors: Vec<&str> = escalation.stages.iter().map(|s| s.anchor.0.as_str()).collect();
    assert_eq!(anchors, vec!["rep0_e0", "rep1_e0", "rep2_e0"]);
}

#[test]
fn rename_preserves_negations() {
    let p = PatternBuilder::<String, String>::new("test")
        .stage("e1", |s| s.edge("e1", "type".into(), "a".into()))
        .stage("e2", |s| s.edge("e2", "type".into(), "b".into()))
        .unless_between("e1", "e2", |neg| {
            neg.edge("mid", "type".into(), "cancel".into())
        })
        .build();

    let keep: Vec<&str> = Vec::new();
    let renamed = rename_vars(&p, "x", &keep);

    assert_eq!(renamed.negations.len(), 1);
    assert_eq!(renamed.negations[0].between_start.0, "x_e1");
    assert_eq!(
        renamed.negations[0].between_end.as_ref().unwrap().0,
        "x_e2"
    );
    assert_eq!(renamed.negations[0].clauses[0].source.0, "x_mid");
}

#[test]
fn sequence_merges_negations() {
    let a = PatternBuilder::<String, String>::new("a")
        .stage("e1", |s| s.edge("e1", "type".into(), "start".into()))
        .stage("e2", |s| s.edge("e2", "type".into(), "end".into()))
        .unless_between("e1", "e2", |neg| {
            neg.edge("mid", "type".into(), "cancel".into())
        })
        .build();

    let b = make_pattern("b", 1);
    let composed = sequence("arc", &a, &b, &[]);

    assert_eq!(composed.negations.len(), 1);
    assert_eq!(composed.negations[0].between_start.0, "a_e1");
}

#[test]
fn sequence_merges_metadata() {
    let a = PatternBuilder::<String, String>::new("a")
        .metadata("source", "a_val")
        .metadata("shared", "from_a")
        .stage("e1", |s| s.edge("e1", "type".into(), "x".into()))
        .build();
    let b = PatternBuilder::<String, String>::new("b")
        .metadata("target", "b_val")
        .metadata("shared", "from_b")
        .stage("e2", |s| s.edge("e2", "type".into(), "y".into()))
        .build();
    let composed = sequence("arc", &a, &b, &[]);

    assert_eq!(composed.metadata.get("source").unwrap(), "a_val");
    assert_eq!(composed.metadata.get("target").unwrap(), "b_val");
    assert_eq!(composed.metadata.get("shared").unwrap(), "from_b");
}

#[test]
fn choice_preserves_metadata() {
    let a = PatternBuilder::<String, String>::new("a")
        .metadata("severity", "high")
        .stage("e1", |s| s.edge("e1", "type".into(), "x".into()))
        .build();
    let b = PatternBuilder::<String, String>::new("b")
        .metadata("severity", "low")
        .stage("e2", |s| s.edge("e2", "type".into(), "y".into()))
        .build();
    let choices = choice("crisis", &[&a, &b], true);

    assert_eq!(choices[0].metadata.get("severity").unwrap(), "high");
    assert_eq!(choices[1].metadata.get("severity").unwrap(), "low");
}

#[test]
fn repeat_merges_metadata() {
    let p = PatternBuilder::<String, String>::new("strike")
        .metadata("category", "offense")
        .stage("e1", |s| s.edge("e1", "type".into(), "x".into()))
        .build();
    let rep = repeat("three_strikes", &p, 3, &[]);
    assert_eq!(rep.metadata.get("category").unwrap(), "offense");
}

#[test]
fn rename_keeps_listed_names() {
    let p = make_pattern("p", 1);
    let renamed = rename_vars(&p, "k", &["char"]);
    assert_eq!(renamed.stages[0].anchor.0, "k_e0");
    assert_eq!(bind_names(&renamed), vec!["char"]);
    assert_eq!(renamed.stages[0].clauses[0].source.0, "k_e0");
}

#[test]
fn rename_renames_constraint_variables() {
    let p = PatternBuilder::<String, String>::new("p")
        .stage("e1", |s| s.edge_bind("e1", "amount".to_string(), "x"))
        .stage("e2", |s| {
            s.edge_lt_var("e2", "amount".to_string(), "x")
                .edge_eq_var("e2", "owner".to_string(), "who")
        })
        .build();
    let renamed = rename_vars(&p, "a", &["who"]);
    match &renamed.stages[1].clauses[0].target {
        Target::Constraint(ValueConstraint::LtVar(n)) => assert_eq!(n, "a_x"),
        _ => panic!("expected a LtVar constraint"),
    }
    match &renamed.stages[1].clauses[1].target {
        Target::Constraint(ValueConstraint::EqVar(n)) => assert_eq!(n, "who"),
        _ => panic!("expected an EqVar constraint"),
    }
    assert_eq!(bind_names(&renamed), vec!["a_x"]);
}
