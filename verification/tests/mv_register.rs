use crdt_kit::prelude::{Crdt, MVRegister};

#[test]
fn new_register_is_empty() {
    let r = MVRegister::<String>::new("a");
    assert!(r.values().is_empty());
    assert!(!r.is_conflicted());
}

#[test]
fn set_replaces_value() {
    let mut r = MVRegister::new("a");
    r.set("hello");
    assert_eq!(r.values(), vec![&"hello"]);

    r.set("world");
    assert_eq!(r.values(), vec![&"world"]);
    assert!(!r.is_conflicted());
}

#[test]
fn concurrent_writes_preserved() {
    let mut r1 = MVRegister::new("a");
    r1.set("alice");

    let mut r2 = MVRegister::new("b");
    r2.set("bob");

    r1.merge(&r2);
    let vals = r1.values();
    assert_eq!(vals.len(), 2);
    assert!(vals.contains(&&"alice"));
    assert!(vals.contains(&&"bob"));
    assert!(r1.is_conflicted());
}

#[test]
fn subsequent_write_resolves_conflict() {
    let mut r1 = MVRegister::new("a");
    r1.set("alice");

    let mut r2 = MVRegister::new("b");
    r2.set("bob");

    r1.merge(&r2);
    assert!(r1.is_conflicted());

    r1.set("resolved");
    assert_eq!(r1.values(), vec![&"resolved"]);
    assert!(!r1.is_conflicted());
}

#[test]
fn mv_register_merge_is_commutative() {
    let mut r1 = MVRegister::new("a");
    r1.set("x");

    let mut r2 = MVRegister::new("b");
    r2.set("y");

    let mut left = r1.clone();
    left.merge(&r2);

    let mut right = r2.clone();
    right.merge(&r1);

    let mut lv = left.values();
    lv.sort();
    let mut rv = right.values();
    rv.sort();
    assert_eq!(lv, rv);
}

#[test]
fn mv_register_merge_is_idempotent() {
    let mut r1 = MVRegister::new("a");
    r1.set("x");

    let mut r2 = MVRegister::new("b");
    r2.set("y");

    r1.merge(&r2);
    let after_first = r1.clone();
    r1.merge(&r2);

    assert_eq!(r1, after_first);
}

#[test]
fn causal_write_supersedes() {
    let mut r1 = MVRegister::new("a");
    r1.set("first");

    let mut r2 = r1.clone();
    r2.set("second");

    r1.merge(&r2);
    assert_eq!(r1.values(), vec![&"second"]);
    assert!(!r1.is_conflicted());
}

#[test]
fn mvregister_preserves_concurrent_writes() {
    let mut a = MVRegister::new("a");
    let mut b = MVRegister::new("b");

    a.set(1);
    b.set(2);

    a.merge(&b);
    let values = a.values();
    assert_eq!(
        values.len(),
        2,
        "Both concurrent values should be preserved"
    );
    assert!(values.contains(&&1));
    assert!(values.contains(&&2));
}

#[test]
fn mvregister_causal_write_supersedes() {
    let mut a = MVRegister::new("a");
    a.set("first");

    let mut b = a.clone();
    b.set("second");

    a.merge(&b);
    assert_eq!(a.values(), vec![&"second"]);
    assert!(!a.is_conflicted());
}

#[test]
fn mv_register_values_are_sorted_and_distinct() {
    let mut a = MVRegister::new("a");
    a.set(5);
    let mut b = MVRegister::new("b");
    b.set(3);
    let mut c = MVRegister::new("c");
    c.set(5);
    a.merge(&b);
    a.merge(&c);
    assert!(a.is_conflicted());
    assert_eq!(a.values(), vec![&3, &5]);
    assert_eq!(a.actor(), "a");
}

#[test]
fn mv_register_merge_is_associative_on_a_history() {
    let mut a = MVRegister::new("a");
    a.set(1);
    let mut b = MVRegister::new("b");
    b.merge(&a);
    b.set(2);
    let mut c = MVRegister::new("c");
    c.set(3);

    let mut left = a.clone();
    left.merge(&b);
    left.merge(&c);

    let mut bc = b.clone();
    bc.merge(&c);
    let mut right = a.clone();
    right.merge(&bc);

    assert_eq!(left.values(), right.values());
    assert_eq!(left.values(), vec![&2, &3]);
}

#[test]
fn mv_register_conflict_is_seen_alike_in_either_order() {
    let mut a = MVRegister::new("a");
    a.set(1);
    let mut b = MVRegister::new("b");
    b.set(2);
    let mut c = a.clone();
    c.merge(&b);
    c.set(3);

    let mut ab = a.clone();
    ab.merge(&b);
    let mut ba = b.clone();
    ba.merge(&a);
    assert_eq!(ab.values(), ba.values());
    assert!(ab.is_conflicted());
    assert!(ba.is_conflicted());

    let mut ac = a.clone();
    ac.merge(&c);
    let mut ca = c.clone();
    ca.merge(&a);
    assert_eq!(ac.values(), vec![&3]);
    assert_eq!(ca.values(), vec![&3]);
    assert!(!ac.is_conflicted());
    assert!(!ca.is_conflicted());
}

#[test]
fn mv_register_parts_keep_one_write_of_each_version() {
    let at_a = vec![("a".to_string(), 1)];
    let at_b = vec![("b".to_string(), 1)];
    let entries = vec![(1, at_a.clone()), (2, at_b.clone()), (3, at_a.clone())];
    let version = vec![("a".to_string(), 1), ("b".to_string(), 1)];
    let r = MVRegister::from_parts("a", &version, &entries);
    assert_eq!(r.entries(), vec![(1, at_a), (2, at_b)]);
    assert_eq!(r.values(), vec![&1, &2]);
    assert!(r.is_conflicted());
}
