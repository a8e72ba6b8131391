use fabula::builder::PatternBuilder;
use fabula::datasource::ValueConstraint;
use fabula::interval::AllenRelation;
use fabula::pattern::{Clause, Target, Var};

#[test]
fn map_types_transforms_labels_and_values() {
    let pattern = PatternBuilder::<String, String>::new("test")
        .stage("e1", |s| {
            s.edge("e1", "eventType".into(), "betray".into()).edge_bind(
                "e1",
                "actor".into(),
                "char",
            )
        })
        .build();

    let mapped = pattern.map_types(|l| l.len() as u32, |v| v.len() as i64);

    assert_eq!(mapped.name, "test");
    assert_eq!(mapped.stages[0].clauses[0].label, 9);
    assert_eq!(mapped.stages[0].clauses[0].target, Target::Literal(6));
    assert_eq!(mapped.stages[0].clauses[1].label, 5);
    assert!(matches!(
        mapped.stages[0].clauses[1].target,
        Target::Bind(_)
    ));
}

#[test]
fn map_types_preserves_structure() {
    let pattern = PatternBuilder::<String, String>::new("arc")
        .stage("e1", |s| s.edge("e1", "type".into(), "setup".into()))
        .stage("e2", |s| s.edge("e2", "type".into(), "payoff".into()))
        .temporal("e1", AllenRelation::Before, "e2")
        .unless_between("e1", "e2", |n| n.edge("mid", "type".into(), "block".into()))
        .build();

    let mapped = pattern.map_types(|l| l.to_uppercase(), |v| v.to_uppercase());

    assert_eq!(mapped.stages.len(), 2);
    assert_eq!(mapped.temporal.len(), 1);
    assert_eq!(mapped.negations.len(), 1);
    assert_eq!(mapped.temporal[0].relation, AllenRelation::Before);
    assert_eq!(mapped.temporal[0].left, Var::new("e1"));
    assert_eq!(mapped.temporal[0].right, Var::new("e2"));
    assert_eq!(mapped.negations[0].between_start, Var::new("e1"));
    assert_eq!(mapped.stages[0].clauses[0].label, "TYPE");
    assert_eq!(
        mapped.stages[0].clauses[0].target,
        Target::Literal("SETUP".into())
    );
}

#[test]
fn condition_count_sums_clauses_across_stages() {
    let pattern = PatternBuilder::<String, String>::new("test")
        .stage("e1", |s| {
            s.edge("e1", "eventType".into(), "betray".into()).edge_bind(
                "e1",
                "actor".into(),
                "char",
            )
        })
        .stage("e2", |s| s.edge("e2", "eventType".into(), "betray".into()))
        .build();
    assert_eq!(pattern.condition_count(), 3);

    let empty = PatternBuilder::<String, String>::new("empty").build();
    assert_eq!(empty.condition_count(), 0);

    let with_negation = PatternBuilder::<String, String>::new("neg")
        .stage("e1", |s| s.edge("e1", "type".into(), "start".into()))
        .stage("e2", |s| s.edge("e2", "type".into(), "end".into()))
        .unless_between("e1", "e2", |n| n.edge("mid", "type".into(), "block".into()))
        .build();
    assert_eq!(with_negation.condition_count(), 2);
}

#[test]
fn map_types_handles_all_constraint_variants() {
    let double = |v: &i32| (*v * 2) as i64;

    assert_eq!(ValueConstraint::Eq(5).map(&double), ValueConstraint::Eq(10));
    assert_eq!(ValueConstraint::Lt(3).map(&double), ValueConstraint::Lt(6));
    assert_eq!(ValueConstraint::Gt(4).map(&double), ValueConstraint::Gt(8));
    assert_eq!(
        ValueConstraint::Lte(2).map(&double),
        ValueConstraint::Lte(4)
    );
    assert_eq!(
        ValueConstraint::Gte(1).map(&double),
        ValueConstraint::Gte(2)
    );
    assert_eq!(
        ValueConstraint::Between(1, 10).map(&double),
        ValueConstraint::Between(2, 20)
    );
    assert_eq!(
        ValueConstraint::<i32>::Any.map(&double),
        ValueConstraint::<i64>::Any
    );

    let clause = Clause {
        source: Var::new("e"),
        label: "score".to_string(),
        target: Target::Constraint(ValueConstraint::Gt(50)),
        negated: false,
    };
    let mapped = clause.map_types(&|l: &String| l.clone(), &double);
    assert_eq!(mapped.target, Target::Constraint(ValueConstraint::Gt(100)));
}

#[test]
fn builder_metadata_propagates() {
    let pattern = PatternBuilder::<String, String>::new("test")
        .metadata("severity", "high")
        .metadata("mitre", "T1078")
        .stage("e1", |s| s.edge("e1", "type".into(), "x".into()))
        .build();

    assert_eq!(pattern.metadata.get("severity").unwrap(), "high");
    assert_eq!(pattern.metadata.get("mitre").unwrap(), "T1078");
    assert_eq!(pattern.metadata.len(), 2);
}

#[test]
fn metadata_empty_by_default() {
    let pattern = PatternBuilder::<String, String>::new("test")
        .stage("e1", |s| s.edge("e1", "type".into(), "x".into()))
        .build();
    assert!(pattern.metadata.is_empty());
}

#[test]
fn private_pattern_field() {
    let pattern = PatternBuilder::<String, String>::new("helper")
        .stage("e1", |s| s.edge("e1", "type".into(), "test".into()))
        .private()
        .build();
    assert!(pattern.private);

    let public = PatternBuilder::<String, String>::new("visible")
        .stage("e1", |s| s.edge("e1", "type".into(), "test".into()))
        .build();
    assert!(!public.private);
}

#[test]
fn map_types_preserves_metadata() {
    let pattern = PatternBuilder::<String, String>::new("test")
        .metadata("key", "value")
        .stage("e1", |s| s.edge("e1", "type".into(), "x".into()))
        .build();

    let mapped = pattern.map_types(|l| l.to_uppercase(), |v| v.to_uppercase());
    assert_eq!(mapped.metadata.get("key").unwrap(), "value");
}

#[test]
fn unordered_group_for_finds_group_of_stage() {
    let pattern = PatternBuilder::<String, String>::new("grp")
        .stage("a", |s| s.edge("a", "type".into(), "enter".into()))
        .unordered_group(|g| {
            g.stage("g1", |s| s.edge("g1", "type".into(), "greet".into()))
                .stage("g2", |s| s.edge("g2", "type".into(), "seat".into()))
        })
        .stage("z", |s| s.edge("z", "type".into(), "leave".into()))
        .build();
    assert_eq!(pattern.stages.len(), 4);
    assert_eq!(pattern.unordered_group_for(1), Some(&vec![1usize, 2]));
    assert_eq!(pattern.unordered_group_for(0), None);
    assert!(pattern.same_unordered_group(1, 2));
    assert!(!pattern.same_unordered_group(0, 1));
    assert!(!pattern.same_unordered_group(3, 3));
}

#[test]
fn unless_global_resolves_to_first_and_last_anchor() {
    let pattern = PatternBuilder::<String, String>::new("g")
        .stage("first", |s| s.edge("first", "type".into(), "a".into()))
        .stage("mid", |s| s.edge("mid", "type".into(), "b".into()))
        .stage("last", |s| s.edge("last", "type".into(), "c".into()))
        .unless_global(|n| n.edge("x", "type".into(), "cancel".into()))
        .build();
    assert_eq!(pattern.negations.len(), 1);
    assert_eq!(pattern.negations[0].between_start, Var::new("first"));
    assert_eq!(pattern.negations[0].between_end, Some(Var::new("last")));
    assert!(!pattern.negations[0].is_global);
}

#[test]
fn builder_deadline_and_in_place_flags() {
    let pattern = PatternBuilder::<String, String>::new("d")
        .stage("e", |s| s.edge("e", "type".into(), "a".into()))
        .deadline(5)
        .advance_in_place()
        .build();
    assert_eq!(pattern.deadline_ticks, Some(5));
    assert!(pattern.advance_in_place);
    assert!(pattern.group.is_none());
    assert!(pattern.repeat_range.is_none());
}

#[test]
fn all_vars_lists_each_name_once_in_order() {
    let pattern = PatternBuilder::<String, String>::new("vars")
        .stage("e1", |s| {
            s.edge("e1", "eventType".into(), "betray".into())
                .edge_bind("e1", "actor".into(), "char")
                .edge_bind("e1", "target".into(), "victim")
        })
        .stage("e2", |s| {
            s.edge("e2", "eventType".into(), "betray".into())
                .edge_bind("e2", "actor".into(), "char")
        })
        .unless_between("e1", "e2", |n| {
            n.edge("mid", "eventType".into(), "reconcile".into())
                .edge_bind("mid", "actor".into(), "char")
        })
        .build();
    let names: Vec<String> = pattern.all_vars().iter().map(|v| v.0.clone()).collect();
    assert_eq!(names, vec!["char", "e1", "e2", "mid", "victim"]);
}

#[test]
fn var_text_has_question_mark() {
    assert_eq!(Var::new("char").to_text(), "?char");
}
