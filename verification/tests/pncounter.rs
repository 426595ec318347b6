use crdt_kit::prelude::{Crdt, DeltaCrdt, PNCounter};

#[test]
fn pncounter_new_counter_is_zero() {
    let c = PNCounter::new("a");
    assert_eq!(c.value(), 0);
}

#[test]
fn increment_and_decrement() {
    let mut c = PNCounter::new("a");
    c.increment();
    c.increment();
    c.decrement();
    assert_eq!(c.value(), 1);
}

#[test]
fn can_go_negative() {
    let mut c = PNCounter::new("a");
    c.decrement();
    c.decrement();
    assert_eq!(c.value(), -2);
}

#[test]
fn pncounter_merge_different_actors() {
    let mut c1 = PNCounter::new("a");
    c1.increment();
    c1.increment();

    let mut c2 = PNCounter::new("b");
    c2.decrement();

    c1.merge(&c2);
    assert_eq!(c1.value(), 1);
}

#[test]
fn pncounter_merge_is_commutative() {
    let mut c1 = PNCounter::new("a");
    c1.increment();

    let mut c2 = PNCounter::new("b");
    c2.decrement();
    c2.decrement();

    let mut left = c1.clone();
    left.merge(&c2);

    let mut right = c2.clone();
    right.merge(&c1);

    assert_eq!(left.value(), right.value());
}

#[test]
fn pncounter_merge_is_idempotent() {
    let mut c1 = PNCounter::new("a");
    c1.increment();

    let mut c2 = PNCounter::new("b");
    c2.decrement();

    c1.merge(&c2);
    let after_first = c1.clone();
    c1.merge(&c2);

    assert_eq!(c1, after_first);
}

#[test]
fn pncounter_delta_apply_equivalent_to_merge() {
    let mut c1 = PNCounter::new("a");
    c1.increment();
    c1.increment();
    c1.decrement();

    let mut c2 = PNCounter::new("b");
    c2.decrement();

    let mut full = c2.clone();
    full.merge(&c1);

    let mut via_delta = c2.clone();
    let d = c1.delta(&c2);
    via_delta.apply_delta(&d);

    assert_eq!(full.value(), via_delta.value());
}
