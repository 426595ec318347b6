use crdt_kit::prelude::{Crdt, TextCrdt};

#[test]
fn new_text_is_empty() {
    let t = TextCrdt::new("a");
    assert!(t.is_empty());
    assert_eq!(t.len(), 0);
    assert_eq!(t.to_string(), "");
}

#[test]
fn insert_single_char() {
    let mut t = TextCrdt::new("a");
    t.insert(0, 'x');
    assert_eq!(t.to_string(), "x");
    assert_eq!(t.len(), 1);
}

#[test]
fn insert_at_beginning_middle_end() {
    let mut t = TextCrdt::new("a");
    t.insert(0, 'a');
    t.insert(1, 'c');
    t.insert(1, 'b');
    t.insert(0, 'z');
    assert_eq!(t.to_string(), "zabc");
}

#[test]
fn delete_char() {
    let mut t = TextCrdt::new("a");
    t.insert_str(0, "hello");
    assert_eq!(t.to_string(), "hello");

    t.remove(1);
    assert_eq!(t.to_string(), "hllo");
    assert_eq!(t.len(), 4);
}

#[test]
fn insert_str_basic() {
    let mut t = TextCrdt::new("a");
    t.insert_str(0, "hello");
    assert_eq!(t.to_string(), "hello");
    assert_eq!(t.len(), 5);
}

#[test]
fn insert_str_at_middle() {
    let mut t = TextCrdt::new("a");
    t.insert_str(0, "hd");
    t.insert_str(1, "ello worl");
    assert_eq!(t.to_string(), "hello world");
}

#[test]
fn remove_range_basic() {
    let mut t = TextCrdt::new("a");
    t.insert_str(0, "hello world");
    t.remove_range(5, 6);
    assert_eq!(t.to_string(), "hello");
}

#[test]
fn remove_range_from_start() {
    let mut t = TextCrdt::new("a");
    t.insert_str(0, "hello");
    t.remove_range(0, 3);
    assert_eq!(t.to_string(), "lo");
}

#[test]
fn remove_all() {
    let mut t = TextCrdt::new("a");
    t.insert_str(0, "abc");
    t.remove_range(0, 3);
    assert!(t.is_empty());
    assert_eq!(t.to_string(), "");
}

#[test]
fn text_merge_disjoint_inserts() {
    let mut t1 = TextCrdt::new("alice");
    t1.insert_str(0, "hello");

    let mut t2 = TextCrdt::new("bob");
    t2.insert_str(0, "world");

    t1.merge(&t2);

    let result = t1.to_string();
    assert!(result.contains("hello") || result.contains("world"));
    assert_eq!(t1.len(), 10);
}

#[test]
fn merge_propagates_tombstones() {
    let mut t1 = TextCrdt::new("alice");
    t1.insert_str(0, "abc");

    let mut t2 = t1.fork("bob");
    t2.remove(1);

    t1.merge(&t2);
    assert_eq!(t1.to_string(), "ac");
}

#[test]
fn merge_commutativity() {
    let mut t1 = TextCrdt::new("alice");
    t1.insert_str(0, "hello");

    let mut t2 = TextCrdt::new("bob");
    t2.insert_str(0, "world");

    let mut left = t1.clone();
    left.merge(&t2);

    let mut right = t2.clone();
    right.merge(&t1);

    assert_eq!(left.to_string(), right.to_string());
}

#[test]
fn merge_idempotency() {
    let mut t1 = TextCrdt::new("alice");
    t1.insert_str(0, "hello");

    let mut t2 = TextCrdt::new("bob");
    t2.insert_str(0, "world");

    t1.merge(&t2);
    let after_first = t1.clone();
    t1.merge(&t2);

    assert_eq!(t1.to_string(), after_first.to_string());
    assert_eq!(t1.len(), after_first.len());
}

#[test]
fn concurrent_inserts_at_same_position() {
    let mut t1 = TextCrdt::new("alice");
    t1.insert(0, 'a');

    let mut t2 = TextCrdt::new("bob");
    t2.insert(0, 'b');

    let mut left = t1.clone();
    left.merge(&t2);

    let mut right = t2.clone();
    right.merge(&t1);

    assert_eq!(left.to_string(), right.to_string());
    assert_eq!(left.len(), 2);
    let s = left.to_string();
    assert!(s.contains('a'));
    assert!(s.contains('b'));
}

#[test]
fn concurrent_inserts_at_same_position_in_existing_text() {
    let mut t1 = TextCrdt::new("alice");
    t1.insert_str(0, "ac");

    let mut t2 = t1.fork("bob");

    t1.insert(1, 'X');
    t2.insert(1, 'Y');

    let mut left = t1.clone();
    left.merge(&t2);

    let mut right = t2.clone();
    right.merge(&t1);

    assert_eq!(left.to_string(), right.to_string());
    let s = left.to_string();
    assert!(s.starts_with('a'));
    assert!(s.ends_with('c'));
    assert!(s.contains('X'));
    assert!(s.contains('Y'));
}

#[test]
fn concurrent_insert_and_delete() {
    let mut t1 = TextCrdt::new("alice");
    t1.insert_str(0, "abc");

    let mut t2 = t1.fork("bob");

    t1.remove(1);
    t2.insert(1, 'X');

    let mut left = t1.clone();
    left.merge(&t2);

    let mut right = t2.clone();
    right.merge(&t1);

    assert_eq!(left.to_string(), right.to_string());
    let s = left.to_string();
    assert!(!s.contains('b'));
    assert!(s.contains('X'));
    assert!(s.contains('a'));
    assert!(s.contains('c'));
}

#[test]
fn merge_after_local_edits_on_both_sides() {
    let mut t1 = TextCrdt::new("alice");
    t1.insert_str(0, "hello");

    let mut t2 = t1.fork("bob");

    t1.insert_str(5, " world");
    t2.remove_range(2, 3);
    t2.insert(2, 'p');

    let mut left = t1.clone();
    left.merge(&t2);

    let mut right = t2.clone();
    right.merge(&t1);

    assert_eq!(left.to_string(), right.to_string());
}

#[test]
fn display_trait() {
    let mut t = TextCrdt::new("a");
    t.insert_str(0, "hello");
    assert_eq!(format!("{}", t.to_string()), "hello");
}

#[test]
fn actor_getter() {
    let t = TextCrdt::new("my-node");
    assert_eq!(t.actor(), "my-node");
}

#[test]
fn triple_merge_convergence() {
    let mut t1 = TextCrdt::new("alice");
    t1.insert_str(0, "base");

    let mut t2 = t1.fork("bob");
    let mut t3 = t1.fork("carol");

    t1.insert(4, '!');
    t2.insert(0, '>');
    t3.remove(2);

    let mut r1 = t1.clone();
    r1.merge(&t2);
    r1.merge(&t3);

    let mut r2 = t2.clone();
    r2.merge(&t3);
    r2.merge(&t1);

    let mut r3 = t3.clone();
    r3.merge(&t1);
    r3.merge(&t2);

    assert_eq!(r1.to_string(), r2.to_string());
    assert_eq!(r2.to_string(), r3.to_string());
}

#[test]
fn text_concurrent_inserts_have_a_fixed_order() {
    let mut t1 = TextCrdt::new("alice");
    t1.insert_str(0, "ac");
    let mut t2 = t1.fork("bob");
    t1.insert(1, 'X');
    t2.insert(1, 'Y');
    let mut left = t1.clone();
    left.merge(&t2);
    let mut right = t2.clone();
    right.merge(&t1);
    assert_eq!(left.to_string(), "aYXc");
    assert_eq!(right.to_string(), "aYXc");
}

#[test]
fn text_merge_twice_changes_nothing() {
    let mut t1 = TextCrdt::new("alice");
    t1.insert_str(0, "héllo");
    let mut t2 = t1.fork("bob");
    t2.remove(1);
    t2.insert_str(1, "e");
    t1.remove_range(3, 2);
    t1.merge(&t2);
    let once = t1.clone();
    t1.merge(&t2);
    assert_eq!(t1, once);
    assert_eq!(t1.to_string(), "hel");
}

#[test]
fn text_replicas_of_one_history_converge() {
    let mut state: u64 = 987654321;
    for round in 0..400u32 {
        let mut base = TextCrdt::new("a");
        base.insert_str(0, "12");
        let mut reps = vec![base.clone(), base.fork("b"), base.fork("c")];
        for step in 0..9 {
            state = state
                .wrapping_mul(6364136223846793005)
                .wrapping_add(1442695040888963407);
            let r = (state >> 33) as usize;
            let who = r % 3;
            let kind = (r / 3) % 4;
            let len = reps[who].len();
            if kind == 3 {
                let from = (r / 12) % 3;
                if from != who {
                    let other = reps[from].clone();
                    reps[who].merge(&other);
                }
            } else if kind < 2 || len == 0 {
                let pos = (r / 12) % (len + 1);
                reps[who].insert(pos, (b'a' + step as u8) as char);
            } else {
                reps[who].remove((r / 12) % len);
            }
        }
        let (a, b, c) = (&reps[0], &reps[1], &reps[2]);
        let mut ab = a.clone();
        ab.merge(b);
        let mut ba = b.clone();
        ba.merge(a);
        assert_eq!(ab.to_string(), ba.to_string(), "round {}", round);
        let mut left = ab.clone();
        left.merge(c);
        let mut bc = b.clone();
        bc.merge(c);
        let mut right = a.clone();
        right.merge(&bc);
        assert_eq!(left.to_string(), right.to_string(), "round {}", round);
        let once = left.clone();
        left.merge(c);
        assert_eq!(left, once, "round {}", round);
    }
}

#[test]
fn text_replicas_with_one_name_keep_their_own_order() {
    let mut first = TextCrdt::new("a");
    first.insert(0, 'x');
    first.insert(1, 'y');
    let mut second = TextCrdt::new("a");
    second.insert(0, 'x');
    second.insert(0, 'y');
    let mut left = first.clone();
    left.merge(&second);
    let mut right = second.clone();
    right.merge(&first);
    assert_eq!(left.to_string(), "xy");
    assert_eq!(right.to_string(), "yx");
}
