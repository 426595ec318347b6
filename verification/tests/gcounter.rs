use crdt_kit::prelude::{Crdt, DeltaCrdt, GCounter};

#[test]
fn gcounter_new_counter_is_zero() {
    let c = GCounter::new("a");
    assert_eq!(c.value(), 0);
}

#[test]
fn gcounter_increment_increases_value() {
    let mut c = GCounter::new("a");
    c.increment();
    assert_eq!(c.value(), 1);
    c.increment();
    assert_eq!(c.value(), 2);
}

#[test]
fn gcounter_increment_by() {
    let mut c = GCounter::new("a");
    c.increment_by(5);
    assert_eq!(c.value(), 5);
}

#[test]
fn gcounter_merge_takes_max() {
    let mut c1 = GCounter::new("a");
    c1.increment();
    c1.increment();

    let mut c2 = GCounter::new("a");
    c2.increment();

    c1.merge(&c2);
    assert_eq!(c1.value(), 2);
}

#[test]
fn gcounter_merge_different_actors() {
    let mut c1 = GCounter::new("a");
    c1.increment();

    let mut c2 = GCounter::new("b");
    c2.increment();
    c2.increment();

    c1.merge(&c2);
    assert_eq!(c1.value(), 3);
}

#[test]
fn gcounter_merge_is_commutative() {
    let mut c1 = GCounter::new("a");
    c1.increment();

    let mut c2 = GCounter::new("b");
    c2.increment();
    c2.increment();

    let mut left = c1.clone();
    left.merge(&c2);

    let mut right = c2.clone();
    right.merge(&c1);

    assert_eq!(left.value(), right.value());
}

#[test]
fn gcounter_merge_is_idempotent() {
    let mut c1 = GCounter::new("a");
    c1.increment();

    let mut c2 = GCounter::new("b");
    c2.increment();

    c1.merge(&c2);
    let after_first = c1.clone();
    c1.merge(&c2);

    assert_eq!(c1, after_first);
}

#[test]
fn gcounter_count_for_actor() {
    let mut c = GCounter::new("a");
    c.increment();
    c.increment();
    assert_eq!(c.count_for("a"), 2);
    assert_eq!(c.count_for("b"), 0);
}

#[test]
fn delta_contains_only_new_entries() {
    let mut c1 = GCounter::new("a");
    c1.increment();
    c1.increment();

    let mut c2 = GCounter::new("b");
    c2.increment();

    let d = c1.delta(&c2);
    assert_eq!(d.get("a"), Some(2));
    assert!(!d.contains_key("b"));
}

#[test]
fn apply_delta_updates_state() {
    let mut c1 = GCounter::new("a");
    c1.increment();
    c1.increment();

    let mut c2 = GCounter::new("b");
    c2.increment();

    let d = c1.delta(&c2);
    c2.apply_delta(&d);
    assert_eq!(c2.value(), 3);
}

#[test]
fn gcounter_delta_is_empty_when_equal() {
    let mut c1 = GCounter::new("a");
    c1.increment();

    let c2 = c1.clone();
    let d = c1.delta(&c2);
    assert!(d.is_empty());
}

#[test]
fn delta_equivalent_to_full_merge() {
    let mut c1 = GCounter::new("a");
    c1.increment();
    c1.increment();

    let mut c2 = GCounter::new("b");
    c2.increment();

    let mut full = c2.clone();
    full.merge(&c1);

    let mut via_delta = c2.clone();
    let d = c1.delta(&c2);
    via_delta.apply_delta(&d);

    assert_eq!(full.value(), via_delta.value());
}

#[test]
fn gcounter_merge_is_associative() {
    let mut a = GCounter::new("a");
    a.increment_by(4);
    let mut b = GCounter::new("b");
    b.increment_by(7);
    let mut c = GCounter::new("a");
    c.increment_by(9);

    let mut left = a.clone();
    left.merge(&b);
    left.merge(&c);

    let mut bc = b.clone();
    bc.merge(&c);
    let mut right = a.clone();
    right.merge(&bc);

    assert_eq!(left, right);
    assert_eq!(left.value(), 16);
}

#[test]
fn gcounter_zero_count_weighs_nothing() {
    let mut a = GCounter::new("a");
    a.increment_by(0);
    let b = GCounter::new("b");
    let d = a.delta(&b);
    assert!(d.is_empty());
    assert_eq!(d.len(), 0);
    let mut via_delta = b.clone();
    via_delta.apply_delta(&d);
    let mut full = b.clone();
    full.merge(&a);
    assert_eq!(full.value(), via_delta.value());
    assert_eq!(full.count_for("a"), 0);
    assert_eq!(a.actor(), "a");
}
