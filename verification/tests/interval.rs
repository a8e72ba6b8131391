use fabula::interval::{AllenRelation, Interval};

#[test]
fn test_before() {
    let a = Interval::new(1, 3);
    let b = Interval::new(5, 7);
    assert_eq!(a.relation(&b), Some(AllenRelation::Before));
    assert_eq!(b.relation(&a), Some(AllenRelation::After));
    assert!(a.before(&b));
}

#[test]
fn test_meets() {
    let a = Interval::new(1, 3);
    let b = Interval::new(3, 5);
    assert_eq!(a.relation(&b), Some(AllenRelation::Meets));
    assert!(a.meets(&b));
}

#[test]
fn test_overlaps() {
    let a = Interval::new(1, 4);
    let b = Interval::new(3, 6);
    assert_eq!(a.relation(&b), Some(AllenRelation::Overlaps));
}

#[test]
fn test_during() {
    let a = Interval::new(3, 5);
    let b = Interval::new(1, 7);
    assert_eq!(a.relation(&b), Some(AllenRelation::During));
}

#[test]
fn test_contains() {
    let a = Interval::new(1, 7);
    let b = Interval::new(3, 5);
    assert_eq!(a.relation(&b), Some(AllenRelation::Contains));
}

#[test]
fn test_equals() {
    let a = Interval::new(1, 5);
    let b = Interval::new(1, 5);
    assert_eq!(a.relation(&b), Some(AllenRelation::Equals));
}

#[test]
fn test_starts() {
    let a = Interval::new(1, 3);
    let b = Interval::new(1, 5);
    assert_eq!(a.relation(&b), Some(AllenRelation::Starts));
}

#[test]
fn test_finishes() {
    let a = Interval::new(3, 5);
    let b = Interval::new(1, 5);
    assert_eq!(a.relation(&b), Some(AllenRelation::Finishes));
}

#[test]
fn test_open_ended_covers() {
    let a = Interval::open(5);
    assert!(a.covers(&5));
    assert!(a.covers(&100));
    assert!(!a.covers(&4));
}

#[test]
fn test_open_ended_relation_returns_none() {
    let a = Interval::open(1);
    let b = Interval::new(3, 5);
    assert_eq!(a.relation(&b), None);
}

#[test]
fn test_intersects() {
    let a = Interval::new(1, 5);
    let b = Interval::new(3, 7);
    assert!(a.intersects(&b));

    let c = Interval::new(5, 7);
    assert!(!a.intersects(&c)); // [1,5) and [5,7) don't overlap

    let d = Interval::open(3);
    assert!(a.intersects(&d));
}

#[test]
fn test_inverse() {
    assert_eq!(AllenRelation::Before.inverse(), AllenRelation::After);
    assert_eq!(AllenRelation::Meets.inverse(), AllenRelation::MetBy);
    assert_eq!(AllenRelation::Equals.inverse(), AllenRelation::Equals);
}

#[test]
fn relation_seen_from_other_side_is_inverse() {
    let pairs = [
        (Interval::new(1, 3), Interval::new(5, 7)),
        (Interval::new(1, 3), Interval::new(3, 5)),
        (Interval::new(1, 4), Interval::new(3, 6)),
        (Interval::new(3, 5), Interval::new(1, 7)),
        (Interval::new(1, 5), Interval::new(1, 5)),
        (Interval::new(1, 3), Interval::new(1, 5)),
        (Interval::new(3, 5), Interval::new(1, 5)),
    ];
    for (a, b) in pairs.iter() {
        let ab = a.relation(b).unwrap();
        let ba = b.relation(a).unwrap();
        assert_eq!(ba, ab.inverse());
        assert_eq!(ab.inverse().inverse(), ab);
    }
}

#[test]
fn remaining_relations_are_classified() {
    assert_eq!(Interval::new(3, 6).relation(&Interval::new(1, 4)), Some(AllenRelation::OverlappedBy));
    assert_eq!(Interval::new(1, 5).relation(&Interval::new(1, 3)), Some(AllenRelation::StartedBy));
    assert_eq!(Interval::new(1, 5).relation(&Interval::new(3, 5)), Some(AllenRelation::FinishedBy));
    assert_eq!(Interval::new(3, 5).relation(&Interval::new(1, 3)), Some(AllenRelation::MetBy));
}

#[test]
fn bounded_and_open_intervals() {
    assert!(Interval::new(1, 2).is_bounded());
    assert!(!Interval::open(1).is_bounded());
    let a = Interval::new(2, 4);
    assert!(a.covers(&2));
    assert!(a.covers(&3));
    assert!(!a.covers(&4));
}

#[test]
fn before_or_meets_relations() {
    assert!(AllenRelation::Before.is_before_or_meets());
    assert!(AllenRelation::Meets.is_before_or_meets());
    assert!(!AllenRelation::Overlaps.is_before_or_meets());
    assert!(Interval::new(1, 3).before(&Interval::new(3, 5)));
    assert!(Interval::new(1, 5).before(&Interval::new(3, 7)));
    assert!(!Interval::new(3, 5).before(&Interval::new(3, 7)));
    assert!(!Interval::open(4).before(&Interval::new(3, 7)));
}

#[test]
fn gap_distances_per_relation() {
    let a = Interval::new(1, 3);
    let b = Interval::new(8, 10);
    assert_eq!(a.gap_for_relation(&b, AllenRelation::Before), Some(5));
    assert_eq!(b.gap_for_relation(&a, AllenRelation::After), Some(5));
    assert_eq!(a.gap_for_relation(&b, AllenRelation::Meets), Some(0));
    let c = Interval::new(1, 4);
    let d = Interval::new(3, 6);
    assert_eq!(c.gap_for_relation(&d, AllenRelation::Overlaps), Some(1));
    assert_eq!(Interval::new(3, 5).gap_for_relation(&Interval::new(1, 7), AllenRelation::During), Some(2));
    assert_eq!(Interval::new(1, 3).gap_for_relation(&Interval::new(1, 5), AllenRelation::Starts), Some(2));
    assert_eq!(Interval::open(1).gap_for_relation(&b, AllenRelation::Before), None);
    let far = Interval::new(i64::MIN, i64::MIN + 1);
    let late = Interval::new(i64::MAX - 1, i64::MAX);
    assert_eq!(
        far.gap_for_relation(&late, AllenRelation::Before),
        Some(i64::MAX as i128 - 1 - (i64::MIN as i128 + 1))
    );
}

#[test]
fn interval_text_bounded_and_open() {
    assert_eq!(Interval::new(3, 10).to_text(), "[3, 10)");
    assert_eq!(Interval::new(-12, 0).to_text(), "[-12, 0)");
    assert_eq!(Interval::open(7).to_text(), "[7, \u{221e})");
    assert_eq!(Interval::new(i64::MIN, i64::MAX).to_text(), "[-9223372036854775808, 9223372036854775807)");
}
