use crdt_kit::prelude::{Crdt, LWWRegister};

#[test]
fn new_register_holds_value() {
    let r = LWWRegister::with_timestamp("a", 42, 1);
    assert_eq!(*r.value(), 42);
}

#[test]
fn set_updates_value() {
    let mut r = LWWRegister::with_timestamp("a", 1, 1);
    r.set_with_timestamp(2, 2);
    assert_eq!(*r.value(), 2);
}

#[test]
fn merge_keeps_later_timestamp() {
    let mut r1 = LWWRegister::with_timestamp("a", "old", 1);
    let r2 = LWWRegister::with_timestamp("b", "new", 2);

    r1.merge(&r2);
    assert_eq!(*r1.value(), "new");
}

#[test]
fn merge_keeps_self_if_later() {
    let mut r1 = LWWRegister::with_timestamp("a", "new", 2);
    let r2 = LWWRegister::with_timestamp("b", "old", 1);

    r1.merge(&r2);
    assert_eq!(*r1.value(), "new");
}

#[test]
fn merge_breaks_tie_by_actor() {
    let mut r1 = LWWRegister::with_timestamp("a", "first", 1);
    let r2 = LWWRegister::with_timestamp("b", "second", 1);

    r1.merge(&r2);
    assert_eq!(*r1.value(), "second");
}

#[test]
fn lww_register_merge_is_idempotent() {
    let mut r1 = LWWRegister::with_timestamp("a", "x", 1);
    let r2 = LWWRegister::with_timestamp("b", "y", 2);

    r1.merge(&r2);
    let after_first = r1.clone();
    r1.merge(&r2);

    assert_eq!(r1, after_first);
}

#[test]
fn lww_register_older_write_is_ignored() {
    let mut r = LWWRegister::with_timestamp("a", 1, 10);
    r.set_with_timestamp(2, 9);
    assert_eq!(*r.value(), 1);
    assert_eq!(r.timestamp(), 10);
    r.set_with_timestamp(3, 10);
    assert_eq!(*r.value(), 3);
    assert_eq!(r.actor(), "a");
}

#[test]
fn lww_register_tie_keeps_larger_actor_both_ways() {
    let r1 = LWWRegister::with_timestamp("a", "first", 1);
    let r2 = LWWRegister::with_timestamp("ab", "second", 1);
    let mut left = r1.clone();
    left.merge(&r2);
    let mut right = r2.clone();
    right.merge(&r1);
    assert_eq!(*left.value(), "second");
    assert_eq!(*right.value(), "second");
    assert_eq!(left.actor(), "a");
}

#[test]
fn lww_register_set_reads_the_clock() {
    let mut r = LWWRegister::new("a", 1);
    r.set(5);
    assert_eq!(*r.value(), 5);
    assert!(r.timestamp() > 0);
}
