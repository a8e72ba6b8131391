use fabula::datasource::ValueConstraint;

#[test]
fn test_constraint_eq() {
    let c = ValueConstraint::Eq(42);
    assert!(c.matches(&42));
    assert!(!c.matches(&43));
}

#[test]
fn test_constraint_range() {
    let c = ValueConstraint::Between(10, 20);
    assert!(c.matches(&10));
    assert!(c.matches(&15));
    assert!(c.matches(&20));
    assert!(!c.matches(&9));
    assert!(!c.matches(&21));
}

#[test]
fn test_constraint_any() {
    let c: ValueConstraint<i32> = ValueConstraint::Any;
    assert!(c.matches(&0));
    assert!(c.matches(&i32::MAX));
}

#[test]
fn comparison_constraints() {
    assert!(ValueConstraint::Lt(5).matches(&4));
    assert!(!ValueConstraint::Lt(5).matches(&5));
    assert!(ValueConstraint::Gt(5).matches(&6));
    assert!(!ValueConstraint::Gt(5).matches(&5));
    assert!(ValueConstraint::Lte(5).matches(&5));
    assert!(!ValueConstraint::Lte(5).matches(&6));
    assert!(ValueConstraint::Gte(5).matches(&5));
    assert!(!ValueConstraint::Gte(5).matches(&4));
}

#[test]
fn one_of_and_unresolved_variables() {
    let c = ValueConstraint::OneOf(vec![1, 3, 5]);
    assert!(c.matches(&3));
    assert!(!c.matches(&4));
    let v: ValueConstraint<i32> = ValueConstraint::EqVar("x".to_string());
    assert!(v.is_var());
    assert!(!v.matches(&1));
    assert!(!c.is_var());
}

#[test]
fn map_keeps_shape_and_names() {
    let c = ValueConstraint::Between(1, 2);
    let m = c.map(|v: &i32| *v * 10);
    assert_eq!(m, ValueConstraint::Between(10, 20));
    let v: ValueConstraint<i32> = ValueConstraint::GteVar("n".to_string());
    assert_eq!(v.map(|x: &i32| *x + 1), ValueConstraint::GteVar("n".to_string()));
    let o = ValueConstraint::OneOf(vec![1, 2]).map(|x: &i32| x.to_string());
    assert_eq!(o, ValueConstraint::OneOf(vec!["1".to_string(), "2".to_string()]));
}
