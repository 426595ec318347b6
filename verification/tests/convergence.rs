use crdt_kit::prelude::{Crdt, GCounter, GSet, LWWRegister, ORSet, PNCounter, TwoPSet};

#[test]
fn gcounter_three_way_convergence() {
    let mut a = GCounter::new("a");
    let mut b = GCounter::new("b");
    let mut c = GCounter::new("c");

    a.increment_by(10);
    b.increment_by(20);
    c.increment_by(30);

    let mut order1 = a.clone();
    order1.merge(&b);
    order1.merge(&c);

    let mut order2 = c.clone();
    order2.merge(&a);
    order2.merge(&b);

    let mut order3 = b.clone();
    order3.merge(&c);
    order3.merge(&a);

    assert_eq!(order1.value(), 60);
    assert_eq!(order2.value(), 60);
    assert_eq!(order3.value(), 60);
}

#[test]
fn gcounter_two_replicas_converge() {
    let mut a = GCounter::new("a");
    let mut b = GCounter::new("b");
    a.increment_by(10);
    b.increment_by(20);
    let snapshot = a.clone();
    a.merge(&b);
    b.merge(&snapshot);
    assert_eq!(a.value(), 30);
    assert_eq!(b.value(), 30);
}

#[test]
fn pncounter_convergence_with_concurrent_ops() {
    let mut a = PNCounter::new("a");
    let mut b = PNCounter::new("b");

    a.increment();
    a.increment();
    a.decrement();

    b.decrement();
    b.decrement();
    b.increment();

    let mut ab = a.clone();
    ab.merge(&b);

    let mut ba = b.clone();
    ba.merge(&a);

    assert_eq!(ab.value(), ba.value());
    assert_eq!(ab.value(), 0);
}

#[test]
fn orset_concurrent_add_remove_convergence() {
    let mut shared = ORSet::new("init");
    shared.insert("item");

    let mut alice = shared.clone();
    let mut bob_set = ORSet::new("bob");
    bob_set.insert("item");

    alice.remove(&"item");

    alice.merge(&bob_set);
    assert!(
        alice.contains(&"item"),
        "Concurrent add should survive remove in OR-Set"
    );
}

#[test]
fn twopset_remove_wins_over_concurrent_add() {
    let mut a = TwoPSet::new();
    a.insert("x");
    a.remove(&"x");

    let mut b = TwoPSet::new();
    b.insert("x");

    a.merge(&b);
    assert!(!a.contains(&"x"), "2P-Set: remove should be permanent");
}

#[test]
fn lww_register_deterministic_resolution() {
    let r1 = LWWRegister::with_timestamp("a", "x", 100);
    let r2 = LWWRegister::with_timestamp("b", "y", 200);

    let mut merged1 = r1.clone();
    merged1.merge(&r2);

    let mut merged2 = r2.clone();
    merged2.merge(&r1);

    assert_eq!(merged1.value(), merged2.value());
    assert_eq!(*merged1.value(), "y");
    assert_eq!(merged1.timestamp(), 200);
    assert_eq!(merged2.timestamp(), 200);
}

#[test]
fn gset_union_convergence() {
    let sets: Vec<GSet<u32>> = (0..5)
        .map(|i| {
            let mut s = GSet::new();
            for j in (i * 10)..((i + 1) * 10) {
                s.insert(j);
            }
            s
        })
        .collect();

    let mut result = sets[0].clone();
    for s in &sets[1..] {
        result.merge(s);
    }

    assert_eq!(result.len(), 50);
    for i in 0..50 {
        assert!(result.contains(&i), "Missing element {i}");
    }
}

#[test]
fn repeated_merge_is_idempotent() {
    let mut a = ORSet::new("a");
    a.insert(1);
    a.insert(2);

    let mut b = ORSet::new("b");
    b.insert(2);
    b.insert(3);

    a.merge(&b);
    let snapshot = a.clone();

    a.merge(&b);
    assert_eq!(a, snapshot, "Merge should be idempotent");

    a.merge(&b);
    assert_eq!(a, snapshot, "Merge should be idempotent (3rd time)");
}

#[test]
fn merges_are_associative() {
    let mut p1 = PNCounter::new("a");
    p1.increment();
    let mut p2 = PNCounter::new("b");
    p2.decrement();
    p2.decrement();
    let mut p3 = PNCounter::new("a");
    p3.increment();
    p3.increment();
    p3.decrement();
    let mut left = p1.clone();
    left.merge(&p2);
    left.merge(&p3);
    let mut p23 = p2.clone();
    p23.merge(&p3);
    let mut right = p1.clone();
    right.merge(&p23);
    assert_eq!(left, right);
    assert_eq!(left.value(), -1);

    let g1 = GSet::from_vec(vec![1, 2]);
    let g2 = GSet::from_vec(vec![2, 3]);
    let g3 = GSet::from_vec(vec![5]);
    let mut left = g1.clone();
    left.merge(&g2);
    left.merge(&g3);
    let mut g23 = g2.clone();
    g23.merge(&g3);
    let mut right = g1.clone();
    right.merge(&g23);
    assert_eq!(left, right);
    assert_eq!(left.to_vec(), vec![1, 2, 3, 5]);

    let t1 = TwoPSet::from_parts(vec!["a", "b"], vec!["a"]);
    let t2 = TwoPSet::from_parts(vec!["a", "c"], vec![]);
    let t3 = TwoPSet::from_parts(vec!["c"], vec!["c"]);
    let mut left = t1.clone();
    left.merge(&t2);
    left.merge(&t3);
    let mut t23 = t2.clone();
    t23.merge(&t3);
    let mut right = t1.clone();
    right.merge(&t23);
    assert_eq!(left, right);
    assert_eq!(left.iter(), vec![&"b"]);

    let r1 = LWWRegister::with_timestamp("a", "x", 5);
    let r2 = LWWRegister::with_timestamp("b", "y", 7);
    let r3 = LWWRegister::with_timestamp("c", "z", 6);
    let mut left = r1.clone();
    left.merge(&r2);
    left.merge(&r3);
    let mut r23 = r2.clone();
    r23.merge(&r3);
    let mut right = r1.clone();
    right.merge(&r23);
    assert_eq!(left, right);
    assert_eq!(*left.value(), "y");
    assert_eq!(left.timestamp(), 7);
}

#[test]
fn lww_ties_are_judged_by_the_writer_in_every_grouping() {
    let a = LWWRegister::with_timestamp("a", "x", 1);
    let c = LWWRegister::with_timestamp("c", "z", 1);
    let b = LWWRegister::with_timestamp("b", "y", 1);
    let mut left = a.clone();
    left.merge(&c);
    assert_eq!(left.actor(), "a");
    assert_eq!(left.writer(), "c");
    left.merge(&b);
    let mut cb = c.clone();
    cb.merge(&b);
    let mut right = a.clone();
    right.merge(&cb);
    assert_eq!(*left.value(), "z");
    assert_eq!(left.timestamp(), 1);
    assert_eq!(*right.value(), "z");
    assert_eq!(left, right);

    let a = LWWRegister::with_timestamp("a", "x", 1);
    let b = LWWRegister::with_timestamp("b", "y", 1);
    let c = LWWRegister::with_timestamp("ab", "z", 1);
    let mut left = a.clone();
    left.merge(&b);
    left.merge(&c);
    let mut bc = b.clone();
    bc.merge(&c);
    let mut right = a.clone();
    right.merge(&bc);
    assert_eq!(*left.value(), "y");
    assert_eq!(*right.value(), "y");
}

#[test]
fn lww_a_new_write_is_made_under_the_own_name() {
    let mut a = LWWRegister::with_timestamp("a", "x", 1);
    let c = LWWRegister::with_timestamp("c", "z", 1);
    a.merge(&c);
    assert_eq!(a.writer(), "c");
    a.set_with_timestamp("w", 2);
    assert_eq!(a.writer(), "a");
    assert_eq!(a.actor(), "a");
    let held = LWWRegister::from_parts("a", "c", "z", 1);
    assert_eq!(held.actor(), "a");
    assert_eq!(held.writer(), "c");
    assert_eq!(*held.value(), "z");
    assert_eq!(held.timestamp(), 1);
}
