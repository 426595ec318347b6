use crdt_kit::prelude::{Crdt, Rga};

#[test]
fn new_rga_is_empty() {
    let rga = Rga::<String>::new("a");
    assert!(rga.is_empty());
    assert_eq!(rga.len(), 0);
    assert_eq!(rga.get(0), None);
}

#[test]
fn insert_at_head() {
    let mut rga = Rga::new("a");
    rga.insert_at(0, 'H');
    rga.insert_at(1, 'i');
    assert_eq!(rga.len(), 2);
    assert_eq!(rga.get(0), Some(&'H'));
    assert_eq!(rga.get(1), Some(&'i'));
}

#[test]
fn insert_at_middle() {
    let mut rga = Rga::new("a");
    rga.insert_at(0, 'a');
    rga.insert_at(1, 'c');
    rga.insert_at(1, 'b');
    assert_eq!(rga.to_vec(), vec!['a', 'b', 'c']);
}

#[test]
fn insert_at_end() {
    let mut rga = Rga::new("a");
    rga.insert_at(0, 1);
    rga.insert_at(1, 2);
    rga.insert_at(2, 3);
    assert_eq!(rga.to_vec(), vec![1, 2, 3]);
}

#[test]
fn rga_remove_element() {
    let mut rga = Rga::new("a");
    rga.insert_at(0, 'a');
    rga.insert_at(1, 'b');
    rga.insert_at(2, 'c');

    let removed = rga.remove(1);
    assert_eq!(removed, Some('b'));
    assert_eq!(rga.len(), 2);
    assert_eq!(rga.to_vec(), vec!['a', 'c']);
}

#[test]
fn remove_out_of_bounds_returns_none() {
    let mut rga = Rga::new("a");
    rga.insert_at(0, 'a');
    assert_eq!(rga.remove(5), None);
    assert_eq!(rga.len(), 1);
}

#[test]
fn remove_first_and_last() {
    let mut rga = Rga::new("a");
    rga.insert_at(0, 'a');
    rga.insert_at(1, 'b');
    rga.insert_at(2, 'c');

    rga.remove(0);
    assert_eq!(rga.to_vec(), vec!['b', 'c']);

    rga.remove(1);
    assert_eq!(rga.to_vec(), vec!['b']);

    rga.remove(0);
    assert!(rga.is_empty());
}

#[test]
fn get_returns_correct_values() {
    let mut rga = Rga::new("a");
    rga.insert_at(0, "hello");
    rga.insert_at(1, "world");
    assert_eq!(rga.get(0), Some(&"hello"));
    assert_eq!(rga.get(1), Some(&"world"));
    assert_eq!(rga.get(2), None);
}

#[test]
fn rga_iterate_elements() {
    let mut rga = Rga::new("a");
    rga.insert_at(0, 10);
    rga.insert_at(1, 20);
    rga.insert_at(2, 30);
    rga.remove(1);

    let elems: Vec<&i32> = rga.iter();
    assert_eq!(elems, vec![&10, &30]);
}

#[test]
fn actor_returns_id() {
    let rga = Rga::<i32>::new("node-42");
    assert_eq!(rga.actor(), "node-42");
}

#[test]
fn rga_merge_disjoint_inserts() {
    let mut r1 = Rga::new("a");
    r1.insert_at(0, 'x');

    let mut r2 = Rga::new("b");
    r2.insert_at(0, 'y');

    r1.merge(&r2);
    assert_eq!(r1.len(), 2);
    let v = r1.to_vec();
    assert!(v.contains(&'x'));
    assert!(v.contains(&'y'));
}

#[test]
fn merge_concurrent_inserts_at_same_position() {
    let mut r1 = Rga::new("a");
    r1.insert_at(0, 'A');

    let mut r2 = Rga::new("b");
    r2.insert_at(0, 'B');

    let mut r1_copy = r1.clone();
    let mut r2_copy = r2.clone();

    r1_copy.merge(&r2);
    r2_copy.merge(&r1);

    assert_eq!(r1_copy.to_vec(), r2_copy.to_vec());
    assert_eq!(r1_copy.len(), 2);
}

#[test]
fn merge_concurrent_inserts_after_shared_prefix() {
    let mut r1 = Rga::new("a");
    r1.insert_at(0, 'H');
    r1.insert_at(1, 'e');

    let mut r2 = r1.fork("b");

    r1.insert_at(2, 'X');
    r2.insert_at(2, 'Y');

    let mut r1_merged = r1.clone();
    r1_merged.merge(&r2);

    let mut r2_merged = r2.clone();
    r2_merged.merge(&r1);

    assert_eq!(r1_merged.to_vec(), r2_merged.to_vec());
    assert_eq!(r1_merged.len(), 4);

    assert_eq!(r1_merged.get(0), Some(&'H'));
    assert_eq!(r1_merged.get(1), Some(&'e'));
}

#[test]
fn merge_with_deletions() {
    let mut r1 = Rga::new("a");
    r1.insert_at(0, 'a');
    r1.insert_at(1, 'b');
    r1.insert_at(2, 'c');

    let mut r2 = r1.fork("b");

    r1.remove(1);
    r2.insert_at(3, 'd');

    r1.merge(&r2);
    assert!(!r1.to_vec().contains(&'b'));
    assert!(r1.to_vec().contains(&'d'));
    assert_eq!(r1.len(), 3);
}

#[test]
fn rga_merge_is_commutative() {
    let mut r1 = Rga::new("a");
    r1.insert_at(0, 1);
    r1.insert_at(1, 2);

    let mut r2 = Rga::new("b");
    r2.insert_at(0, 3);
    r2.insert_at(1, 4);

    let mut left = r1.clone();
    left.merge(&r2);

    let mut right = r2.clone();
    right.merge(&r1);

    assert_eq!(left.to_vec(), right.to_vec());
}

#[test]
fn merge_commutativity_with_deletions() {
    let mut r1 = Rga::new("a");
    r1.insert_at(0, 'x');
    r1.insert_at(1, 'y');

    let mut r2 = r1.fork("b");

    r1.remove(0);
    r2.insert_at(2, 'z');

    let mut left = r1.clone();
    left.merge(&r2);

    let mut right = r2.clone();
    right.merge(&r1);

    assert_eq!(left.to_vec(), right.to_vec());
}

#[test]
fn merge_is_associative() {
    let mut r1 = Rga::new("a");
    r1.insert_at(0, 'A');

    let mut r2 = Rga::new("b");
    r2.insert_at(0, 'B');

    let mut r3 = Rga::new("c");
    r3.insert_at(0, 'C');

    let mut left = r1.clone();
    left.merge(&r2);
    left.merge(&r3);

    let mut r2_r3 = r2.clone();
    r2_r3.merge(&r3);
    let mut right = r1.clone();
    right.merge(&r2_r3);

    assert_eq!(left.to_vec(), right.to_vec());
}

#[test]
fn rga_merge_is_idempotent() {
    let mut r1 = Rga::new("a");
    r1.insert_at(0, 'x');
    r1.insert_at(1, 'y');

    let mut r2 = Rga::new("b");
    r2.insert_at(0, 'z');

    r1.merge(&r2);
    let after_first = r1.clone();

    r1.merge(&r2);
    assert_eq!(r1.to_vec(), after_first.to_vec());
    assert_eq!(r1, after_first);
}

#[test]
fn merge_self_is_idempotent() {
    let mut rga = Rga::new("a");
    rga.insert_at(0, 1);
    rga.insert_at(1, 2);
    rga.remove(0);

    let snapshot = rga.clone();
    rga.merge(&snapshot);

    assert_eq!(rga, snapshot);
}

#[test]
fn causal_ordering_preserved() {
    let mut r1 = Rga::new("a");
    r1.insert_at(0, 'H');
    r1.insert_at(1, 'e');
    r1.insert_at(2, 'l');
    r1.insert_at(3, 'l');
    r1.insert_at(4, 'o');

    let mut r2 = Rga::new("b");
    r2.merge(&r1);

    assert_eq!(r2.to_vec(), vec!['H', 'e', 'l', 'l', 'o']);
}

#[test]
fn causal_ordering_insert_between() {
    let mut rga = Rga::new("a");
    rga.insert_at(0, 1);
    rga.insert_at(1, 3);
    rga.insert_at(1, 2);

    assert_eq!(rga.to_vec(), vec![1, 2, 3]);
}

#[test]
fn three_way_merge_convergence() {
    let mut r1 = Rga::new("a");
    r1.insert_at(0, 'A');

    let mut r2 = Rga::new("b");
    r2.insert_at(0, 'B');

    let mut r3 = Rga::new("c");
    r3.insert_at(0, 'C');

    let mut m1 = r1.clone();
    m1.merge(&r2);
    m1.merge(&r3);

    let mut m2 = r2.clone();
    m2.merge(&r1);
    m2.merge(&r3);

    let mut m3 = r3.clone();
    m3.merge(&r1);
    m3.merge(&r2);

    assert_eq!(m1.to_vec(), m2.to_vec());
    assert_eq!(m2.to_vec(), m3.to_vec());
    assert_eq!(m1.len(), 3);
}

#[test]
fn concurrent_delete_same_element() {
    let mut r1 = Rga::new("a");
    r1.insert_at(0, 'x');

    let mut r2 = r1.fork("b");

    r1.remove(0);
    r2.remove(0);

    r1.merge(&r2);
    assert!(r1.is_empty());
}

#[test]
fn merge_preserves_existing_order() {
    let mut r1 = Rga::new("a");
    r1.insert_at(0, 1);
    r1.insert_at(1, 2);
    r1.insert_at(2, 3);
    r1.insert_at(3, 4);

    let snapshot = r1.to_vec();

    let mut r2 = Rga::new("b");
    r2.insert_at(0, 10);

    r1.merge(&r2);

    let merged = r1.to_vec();
    let original_positions: Vec<usize> = snapshot
        .iter()
        .map(|v| merged.iter().position(|x| x == v).unwrap())
        .collect();

    for w in original_positions.windows(2) {
        assert!(w[0] < w[1]);
    }
}

#[test]
fn empty_merge_empty() {
    let mut r1 = Rga::<i32>::new("a");
    let r2 = Rga::<i32>::new("b");
    r1.merge(&r2);
    assert!(r1.is_empty());
}

#[test]
fn merge_into_empty() {
    let mut r1 = Rga::<char>::new("a");
    let mut r2 = Rga::new("b");
    r2.insert_at(0, 'z');

    r1.merge(&r2);
    assert_eq!(r1.to_vec(), vec!['z']);
}

#[test]
fn repeated_insert_remove_cycles() {
    let mut rga = Rga::new("a");
    for i in 0..5 {
        rga.insert_at(0, i);
    }
    assert_eq!(rga.len(), 5);

    while !rga.is_empty() {
        rga.remove(0);
    }
    assert!(rga.is_empty());

    rga.insert_at(0, 99);
    assert_eq!(rga.to_vec(), vec![99]);
}

#[test]
fn rga_concurrent_inserts_have_a_fixed_order() {
    let mut base = Rga::new("a");
    base.insert_at(0, 'a');
    base.insert_at(1, 'c');
    let mut other = base.fork("b");

    base.insert_at(1, 'X');
    other.insert_at(1, 'Y');

    let mut left = base.clone();
    left.merge(&other);
    let mut right = other.clone();
    right.merge(&base);

    assert_eq!(left.to_vec(), vec!['a', 'Y', 'X', 'c']);
    assert_eq!(right.to_vec(), vec!['a', 'Y', 'X', 'c']);
}

#[test]
fn rga_siblings_are_ordered_by_counter_then_actor() {
    let mut z = Rga::new("z");
    z.insert_at(0, 'z');
    let mut a = Rga::new("a");
    a.insert_at(0, 'p');
    a.remove(0);
    a.insert_at(0, 'q');

    let mut merged = z.clone();
    merged.merge(&a);
    assert_eq!(merged.to_vec(), vec!['q', 'z']);

    let mut back = a.clone();
    back.merge(&z);
    assert_eq!(back.to_vec(), vec!['q', 'z']);
    assert_eq!(back.iter(), vec![&'q', &'z']);
}

#[test]
fn rga_long_sequences_keep_their_order() {
    let mut a = Rga::new("a");
    for i in 0..400u32 {
        a.insert_at(i as usize, i);
    }
    let mut b = a.fork("b");
    for i in 0..100u32 {
        b.insert_at(0, 1000 + i);
        a.remove(0);
    }
    let mut left = a.clone();
    left.merge(&b);
    let mut right = b.clone();
    right.merge(&a);
    assert_eq!(left.to_vec(), right.to_vec());
    assert_eq!(left.len(), 400);
    assert_eq!(left.get(0), Some(&1099));
    assert_eq!(left.get(99), Some(&1000));
    assert_eq!(left.get(100), Some(&100));
    assert_eq!(left.get(399), Some(&399));
}
