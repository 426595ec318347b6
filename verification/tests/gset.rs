use crdt_kit::prelude::{Crdt, GSet};

#[test]
fn gset_new_set_is_empty() {
    let s = GSet::<String>::new();
    assert!(s.is_empty());
    assert_eq!(s.len(), 0);
}

#[test]
fn gset_insert_and_contains() {
    let mut s = GSet::new();
    assert!(s.insert("a"));
    assert!(s.contains(&"a"));
    assert!(!s.contains(&"b"));
}

#[test]
fn insert_duplicate_returns_false() {
    let mut s = GSet::new();
    assert!(s.insert("a"));
    assert!(!s.insert("a"));
    assert_eq!(s.len(), 1);
}

#[test]
fn merge_is_union() {
    let mut s1 = GSet::new();
    s1.insert(1);
    s1.insert(2);

    let mut s2 = GSet::new();
    s2.insert(2);
    s2.insert(3);

    s1.merge(&s2);
    assert_eq!(s1.len(), 3);
    assert!(s1.contains(&1));
    assert!(s1.contains(&2));
    assert!(s1.contains(&3));
}

#[test]
fn gset_merge_is_commutative() {
    let mut s1 = GSet::new();
    s1.insert("a");

    let mut s2 = GSet::new();
    s2.insert("b");

    let mut left = s1.clone();
    left.merge(&s2);

    let mut right = s2.clone();
    right.merge(&s1);

    assert_eq!(left, right);
}

#[test]
fn gset_merge_is_idempotent() {
    let mut s1 = GSet::new();
    s1.insert(1);

    let mut s2 = GSet::new();
    s2.insert(2);

    s1.merge(&s2);
    let after_first = s1.clone();
    s1.merge(&s2);

    assert_eq!(s1, after_first);
}

#[test]
fn from_iterator() {
    let s: GSet<i32> = GSet::from_vec(vec![1, 2, 3]);
    assert_eq!(s.len(), 3);
}

#[test]
fn gset_iterates_in_order() {
    let mut s = GSet::new();
    s.insert(3);
    s.insert(-1);
    s.insert(2);
    s.insert(2);
    assert_eq!(s.iter(), vec![&-1, &2, &3]);

    let mut words = GSet::new();
    words.insert("pear".to_string());
    words.insert("apple".to_string());
    words.insert("app".to_string());
    let listed: Vec<&String> = words.iter();
    assert_eq!(listed, vec!["app", "apple", "pear"]);

    let mut letters = GSet::new();
    letters.insert('z');
    letters.insert('a');
    assert_eq!(letters.iter(), vec![&'a', &'z']);
}
