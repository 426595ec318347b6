use crdt_kit::prelude::{Crdt, DeltaCrdt, ORSet};
use std::collections::BTreeSet;

#[test]
fn or_set_new_set_is_empty() {
    let s = ORSet::<String>::new("a");
    assert!(s.is_empty());
    assert_eq!(s.len(), 0);
}

#[test]
fn or_set_insert_and_contains() {
    let mut s = ORSet::new("a");
    s.insert("x");
    assert!(s.contains(&"x"));
    assert_eq!(s.len(), 1);
}

#[test]
fn or_set_remove_element() {
    let mut s = ORSet::new("a");
    s.insert("x");
    assert!(s.remove(&"x"));
    assert!(!s.contains(&"x"));
    assert_eq!(s.len(), 0);
}

#[test]
fn can_readd_after_remove() {
    let mut s = ORSet::new("a");
    s.insert("x");
    s.remove(&"x");
    assert!(!s.contains(&"x"));

    s.insert("x");
    assert!(s.contains(&"x"));
}

#[test]
fn concurrent_add_survives_remove() {
    let mut s1 = ORSet::new("a");
    s1.insert("x");

    s1.remove(&"x");

    let mut s2 = ORSet::new("b");
    s2.insert("x");

    s1.merge(&s2);
    assert!(s1.contains(&"x"));
}

#[test]
fn or_set_merge_is_commutative() {
    let mut s1 = ORSet::new("a");
    s1.insert("x");
    s1.insert("y");

    let mut s2 = ORSet::new("b");
    s2.insert("y");
    s2.insert("z");

    let mut left = s1.clone();
    left.merge(&s2);

    let mut right = s2.clone();
    right.merge(&s1);

    let left_elems: BTreeSet<_> = left.iter().into_iter().collect();
    let right_elems: BTreeSet<_> = right.iter().into_iter().collect();
    assert_eq!(left_elems, right_elems);
}

#[test]
fn or_set_merge_is_idempotent() {
    let mut s1 = ORSet::new("a");
    s1.insert("x");

    let mut s2 = ORSet::new("b");
    s2.insert("y");

    s1.merge(&s2);
    let after_first = s1.clone();
    s1.merge(&s2);

    assert_eq!(s1, after_first);
}

#[test]
fn add_wins_semantics() {
    let mut s1 = ORSet::new("a");
    s1.insert("x");
    s1.remove(&"x");

    let mut s2 = ORSet::new("b");
    s2.insert("x");

    s1.merge(&s2);
    assert!(s1.contains(&"x"));
}

#[test]
fn remove_nonexistent_returns_false() {
    let mut s = ORSet::<&str>::new("a");
    assert!(!s.remove(&"x"));
}

#[test]
fn or_set_iterate_elements() {
    let mut s = ORSet::new("a");
    s.insert(1);
    s.insert(2);
    s.insert(3);
    s.remove(&2);

    let elems: Vec<&i32> = s.iter();
    assert_eq!(elems, vec![&1, &3]);
}

#[test]
fn or_set_delta_apply_equivalent_to_merge() {
    let mut s1 = ORSet::new("a");
    s1.insert("x");
    s1.insert("y");
    s1.remove(&"x");

    let mut s2 = ORSet::new("b");
    s2.insert("y");
    s2.insert("z");

    let mut full = s2.clone();
    full.merge(&s1);

    let mut via_delta = s2.clone();
    let d = s1.delta(&s2);
    via_delta.apply_delta(&d);

    let full_elems: BTreeSet<_> = full.iter().into_iter().collect();
    let delta_elems: BTreeSet<_> = via_delta.iter().into_iter().collect();
    assert_eq!(full_elems, delta_elems);
}

#[test]
fn or_set_delta_is_empty_when_equal() {
    let mut s1 = ORSet::new("a");
    s1.insert("x");

    let s2 = s1.clone();
    let d = s1.delta(&s2);
    assert!(d.additions_is_empty());
    assert!(d.tombstones_is_empty());
}

#[test]
fn delta_carries_tombstones() {
    let mut s1 = ORSet::new("a");
    s1.insert("x");

    let s2 = s1.clone();
    s1.remove(&"x");

    let d = s1.delta(&s2);
    assert!(!d.tombstones_is_empty());

    let mut via_delta = s2.clone();
    via_delta.apply_delta(&d);
    assert!(!via_delta.contains(&"x"));
}

#[test]
fn or_set_add_wins_after_renamed_clone() {
    let mut seed = ORSet::new("a");
    seed.insert("x");
    let mut a = seed.clone();
    let mut b = ORSet::new("b");
    b.merge(&seed);
    assert!(b.contains(&"x"));

    a.remove(&"x");
    b.insert("x");

    let mut a_merged = a.clone();
    a_merged.merge(&b);
    let mut b_merged = b.clone();
    b_merged.merge(&a);
    assert!(a_merged.contains(&"x"));
    assert!(b_merged.contains(&"x"));
    assert_eq!(a_merged.len(), 1);
    assert_eq!(a.actor(), "a");
}

#[test]
fn or_set_merge_is_associative() {
    let mut a = ORSet::new("a");
    a.insert(1);
    a.insert(2);
    let mut b = ORSet::new("b");
    b.merge(&a);
    b.remove(&1);
    b.insert(3);
    let mut c = ORSet::new("c");
    c.insert(1);

    let mut left = a.clone();
    left.merge(&b);
    left.merge(&c);

    let mut bc = b.clone();
    bc.merge(&c);
    let mut right = a.clone();
    right.merge(&bc);

    assert_eq!(left.iter(), right.iter());
    assert_eq!(left.iter(), vec![&1, &2, &3]);
}

#[test]
fn or_set_tag_added_and_removed_by_one_delta_ends_removed() {
    let tag = ("b".to_string(), 4);
    let delta = crdt_kit::or_set::ORSetDelta::from_parts(
        &vec![("x", vec![tag.clone()]), ("y", vec![("b".to_string(), 5)])],
        &vec![tag.clone()],
    );
    let mut s = ORSet::new("a");
    s.apply_delta(&delta);
    assert!(!s.contains(&"x"));
    assert!(s.contains(&"y"));
    assert_eq!(s.tombstones(), vec![tag]);
    assert_eq!(s.counter(), 5);

    let mut again = s.clone();
    again.apply_delta(&delta);
    assert_eq!(again, s);
}

#[test]
fn or_set_merge_takes_the_larger_counter() {
    let mut a = ORSet::new("a");
    a.insert(1);
    let mut b = ORSet::new("b");
    b.insert(2);
    b.insert(3);
    b.insert(4);
    a.merge(&b);
    assert_eq!(a.counter(), 3);
    a.insert(5);
    assert_eq!(a.counter(), 4);
    assert_eq!(a.len(), 5);
}

#[test]
fn or_set_parts_with_a_removed_live_tag_give_a_consistent_set() {
    let elements = vec![
        ("x", vec![("a".to_string(), 1), ("a".to_string(), 4)]),
        ("y", vec![("b".to_string(), 2)]),
    ];
    let tombstones = vec![("a".to_string(), 1), ("b".to_string(), 2), ("c".to_string(), 9)];
    let s = crdt_kit::or_set::ORSet::from_parts("a", 3, &elements, &tombstones);
    assert_eq!(s.elements(), vec![("x", vec![("a".to_string(), 4)])]);
    assert_eq!(s.tombstones().len(), 3);
    assert_eq!(s.counter(), 9);
    assert!(s.contains(&"x"));
    assert!(!s.contains(&"y"));

    let mut s = s;
    s.insert("y");
    assert_eq!(
        s.elements(),
        vec![
            ("x", vec![("a".to_string(), 4)]),
            ("y", vec![("a".to_string(), 10)])
        ]
    );
}

#[test]
fn or_set_removal_takes_the_tags_out_wherever_they_stand() {
    let shared = vec![
        ("x", vec![("a".to_string(), 1)]),
        ("y", vec![("a".to_string(), 1), ("a".to_string(), 2)]),
        ("z", vec![("a".to_string(), 1)]),
    ];
    let mut s = crdt_kit::or_set::ORSet::from_parts("a", 2, &shared, &vec![]);
    assert!(s.remove(&"x"));
    assert_eq!(s.elements(), vec![("y", vec![("a".to_string(), 2)])]);
    assert_eq!(s.tombstones(), vec![("a".to_string(), 1)]);
    assert!(!s.contains(&"z"));
    assert!(!s.remove(&"z"));
}

#[test]
fn or_set_delta_raises_the_counter_over_its_tags() {
    let delta = crdt_kit::or_set::ORSetDelta::from_parts(
        &vec![("x", vec![("a".to_string(), 7)])],
        &vec![("a".to_string(), 3)],
    );
    let mut s = crdt_kit::or_set::ORSet::new("a");
    s.insert("w");
    assert_eq!(s.counter(), 1);
    s.apply_delta(&delta);
    assert_eq!(s.counter(), 7);
    s.insert("v");
    assert_eq!(s.counter(), 8);
    assert_eq!(
        s.elements(),
        vec![
            ("v", vec![("a".to_string(), 8)]),
            ("w", vec![("a".to_string(), 1)]),
            ("x", vec![("a".to_string(), 7)])
        ]
    );

    let lower = crdt_kit::or_set::ORSetDelta::from_parts(
        &vec![("u", vec![("b".to_string(), 2)])],
        &vec![],
    );
    s.apply_delta(&lower);
    assert_eq!(s.counter(), 8);
}
