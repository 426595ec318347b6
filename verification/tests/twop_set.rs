use crdt_kit::prelude::{Crdt, TwoPSet};

#[test]
fn twop_set_new_set_is_empty() {
    let s = TwoPSet::<String>::new();
    assert!(s.is_empty());
}

#[test]
fn twop_set_insert_and_contains() {
    let mut s = TwoPSet::new();
    s.insert("a");
    assert!(s.contains(&"a"));
    assert_eq!(s.len(), 1);
}

#[test]
fn twop_set_remove_element() {
    let mut s = TwoPSet::new();
    s.insert("a");
    assert!(s.remove(&"a"));
    assert!(!s.contains(&"a"));
    assert_eq!(s.len(), 0);
}

#[test]
fn cannot_readd_removed_element() {
    let mut s = TwoPSet::new();
    s.insert("a");
    s.remove(&"a");
    assert!(!s.insert("a"));
    assert!(!s.contains(&"a"));
}

#[test]
fn remove_wins_on_merge() {
    let mut s1 = TwoPSet::new();
    s1.insert("a");
    s1.remove(&"a");

    let mut s2 = TwoPSet::new();
    s2.insert("a");

    s1.merge(&s2);
    assert!(!s1.contains(&"a"));
}

#[test]
fn twop_set_merge_is_commutative() {
    let mut s1 = TwoPSet::new();
    s1.insert("a");
    s1.insert("b");
    s1.remove(&"a");

    let mut s2 = TwoPSet::new();
    s2.insert("b");
    s2.insert("c");

    let mut left = s1.clone();
    left.merge(&s2);

    let mut right = s2.clone();
    right.merge(&s1);

    assert_eq!(left, right);
}

#[test]
fn twop_set_merge_is_idempotent() {
    let mut s1 = TwoPSet::new();
    s1.insert("a");

    let mut s2 = TwoPSet::new();
    s2.insert("b");

    s1.merge(&s2);
    let after_first = s1.clone();
    s1.merge(&s2);

    assert_eq!(s1, after_first);
}

#[test]
fn iterate_active_elements() {
    let mut s = TwoPSet::new();
    s.insert(1);
    s.insert(2);
    s.insert(3);
    s.remove(&2);

    let active: Vec<&i32> = s.iter();
    assert_eq!(active, vec![&1, &3]);
}

#[test]
fn twop_set_remove_needs_an_added_element() {
    let mut s = TwoPSet::new();
    assert!(!s.remove(&7));
    assert!(s.insert(7));
    assert!(!s.insert(7));
    assert!(s.remove(&7));
    assert!(!s.remove(&7));
    assert!(s.is_empty());
}
