use crdt_kit::gcounter::GCounterDelta;
use crdt_kit::or_set::ORSetDelta;
use crdt_kit::pncounter::PNCounterDelta;
use crdt_kit::prelude::{
    Crdt, DeltaCrdt, GCounter, GSet, MVRegister, ORSet, PNCounter, Rga, TextCrdt, TwoPSet,
};

#[test]
fn gcounter_round_trips_through_plain_data() {
    let mut c = GCounter::new("b");
    c.increment_by(3);
    let mut other = GCounter::new("a");
    other.increment_by(5);
    c.merge(&other);
    let entries = c.entries();
    assert_eq!(entries, vec![("a".to_string(), 5), ("b".to_string(), 3)]);
    let back = GCounter::from_entries(c.actor(), &entries);
    assert_eq!(back, c);

    let shuffled = vec![
        ("b".to_string(), 1),
        ("a".to_string(), 5),
        ("b".to_string(), 3),
    ];
    assert_eq!(GCounter::from_entries("b", &shuffled), c);

    let d = c.delta(&other);
    assert_eq!(d.entries(), vec![("b".to_string(), 3)]);
    assert_eq!(GCounterDelta::from_entries(&d.entries()), d);
}

#[test]
fn pncounter_round_trips_through_plain_data() {
    let mut c = PNCounter::new("a");
    c.increment();
    c.increment();
    c.decrement();
    let back = PNCounter::from_entries(c.actor(), &c.increments(), &c.decrements());
    assert_eq!(back, c);
    assert_eq!(back.value(), 1);
    let d = c.delta(&PNCounter::new("b"));
    assert_eq!(
        PNCounterDelta::from_entries(&d.increments(), &d.decrements()),
        d
    );
}

#[test]
fn sets_round_trip_through_plain_data() {
    let mut g = GSet::new();
    g.insert(3);
    g.insert(1);
    assert_eq!(g.to_vec(), vec![1, 3]);
    assert_eq!(GSet::from_vec(g.to_vec()), g);
    assert_eq!(GSet::from_vec(vec![3, 1, 3]), g);

    let mut t = TwoPSet::new();
    t.insert("a");
    t.insert("b");
    t.remove(&"a");
    assert_eq!(t.added(), vec!["a", "b"]);
    assert_eq!(t.removed(), vec!["a"]);
    assert_eq!(TwoPSet::from_parts(t.added(), t.removed()), t);
}

#[test]
fn mv_register_round_trips_through_plain_data() {
    let mut a = MVRegister::new("a");
    a.set(1);
    let mut b = MVRegister::new("b");
    b.set(2);
    a.merge(&b);
    let back = MVRegister::from_parts(a.actor(), &a.version(), &a.entries());
    assert_eq!(back, a);
    assert_eq!(
        a.entries(),
        vec![
            (1, vec![("a".to_string(), 1)]),
            (2, vec![("b".to_string(), 1)])
        ]
    );
}

#[test]
fn or_set_round_trips_through_plain_data() {
    let mut a = ORSet::new("a");
    a.insert("x");
    a.insert("y");
    a.remove(&"x");
    a.insert("y");
    assert_eq!(a.counter(), 3);
    assert_eq!(
        a.elements(),
        vec![("y", vec![("a".to_string(), 2), ("a".to_string(), 3)])]
    );
    assert_eq!(a.tombstones(), vec![("a".to_string(), 1)]);
    let back = ORSet::from_parts(a.actor(), a.counter(), &a.elements(), &a.tombstones());
    assert_eq!(back, a);

    let without_tags = vec![("z", vec![]), ("y", vec![("b".to_string(), 9)])];
    let built = ORSet::from_parts("c", 9, &without_tags, &vec![]);
    assert!(!built.contains(&"z"));
    assert!(built.contains(&"y"));
    assert_eq!(built.len(), 1);

    let d = a.delta(&ORSet::new("b"));
    assert_eq!(ORSetDelta::from_parts(&d.additions(), &d.tombstones()), d);
}

#[test]
fn rga_round_trips_through_plain_data() {
    let mut a = Rga::new("a");
    a.insert_at(0, 'x');
    a.insert_at(1, 'z');
    a.insert_at(1, 'y');
    a.remove(2);
    let nodes = a.nodes();
    assert_eq!(
        nodes,
        vec![
            (("a".to_string(), 1), 'x', None),
            (("a".to_string(), 2), 'z', Some(("a".to_string(), 1))),
            (("a".to_string(), 3), 'y', Some(("a".to_string(), 1))),
        ]
    );
    assert_eq!(a.tombstones(), vec![("a".to_string(), 2)]);
    let back = Rga::from_parts(a.actor(), a.counter(), &nodes, &a.tombstones()).unwrap();
    assert_eq!(back, a);
    assert_eq!(back.to_vec(), vec!['x', 'y']);

    assert!(Rga::from_parts("a", 2, &nodes, &vec![]).is_none());
    assert!(Rga::from_parts("a", 3, &nodes, &vec![("b".to_string(), 1)]).is_none());
    assert!(Rga::<char>::from_parts("a", 0, &vec![], &vec![]).unwrap().is_empty());
}

#[test]
fn text_round_trips_through_plain_data() {
    let mut t = TextCrdt::new("a");
    t.insert_str(0, "abc");
    t.remove(1);
    let elements = t.elements();
    assert_eq!(
        elements,
        vec![
            (("a".to_string(), 1), 'a', None),
            (("a".to_string(), 2), 'b', Some(("a".to_string(), 1))),
            (("a".to_string(), 3), 'c', Some(("a".to_string(), 2))),
        ]
    );
    assert_eq!(t.tombstones(), vec![("a".to_string(), 2)]);
    let back = TextCrdt::from_parts(t.actor(), t.counter(), &elements, &t.tombstones()).unwrap();
    assert_eq!(back, t);
    assert_eq!(back.to_string(), "ac");
    assert!(TextCrdt::from_parts("a", 1, &elements, &vec![]).is_none());
}

#[test]
fn rga_parts_must_stand_under_earlier_elements() {
    let a1 = ("a".to_string(), 1u64);
    let a2 = ("a".to_string(), 2u64);
    let b1 = ("b".to_string(), 1u64);

    let upside_down = vec![(a2.clone(), 'x', None), (a1.clone(), 'y', Some(a2.clone()))];
    assert!(Rga::from_parts("a", 2, &upside_down, &vec![]).is_none());

    let orphan = vec![(a1.clone(), 'x', Some(b1.clone()))];
    assert!(Rga::from_parts("a", 2, &orphan, &vec![]).is_none());

    let under_itself = vec![(a1.clone(), 'x', Some(a1.clone()))];
    assert!(Rga::from_parts("a", 2, &under_itself, &vec![]).is_none());

    let same_number = vec![(a1.clone(), 'x', None), (b1.clone(), 'y', Some(a1.clone()))];
    let built = Rga::from_parts("a", 1, &same_number, &vec![]).unwrap();
    assert_eq!(built.to_vec(), vec!['x', 'y']);
    let backwards = vec![(b1.clone(), 'x', None), (a1.clone(), 'y', Some(b1.clone()))];
    assert!(Rga::from_parts("a", 1, &backwards, &vec![]).is_none());

    let chain = vec![
        (a2.clone(), 'y', Some(a1.clone())),
        (a1.clone(), 'x', None),
    ];
    let built = Rga::from_parts("a", 2, &chain, &vec![]).unwrap();
    assert_eq!(built.len(), 2);
    assert_eq!(built.to_vec(), vec!['x', 'y']);

    assert!(TextCrdt::from_parts("a", 2, &upside_down, &vec![]).is_none());
    assert_eq!(
        TextCrdt::from_parts("a", 2, &chain, &vec![])
            .unwrap()
            .to_string(),
        "xy"
    );
}

#[test]
fn text_typed_in_a_row_hangs_on_the_character_before() {
    let mut t = TextCrdt::new("a");
    t.insert_str(0, "ac");
    t.insert_str(1, "xyz");
    assert_eq!(t.to_string(), "axyzc");
    assert_eq!(
        t.elements(),
        vec![
            (("a".to_string(), 1), 'a', None),
            (("a".to_string(), 2), 'c', Some(("a".to_string(), 1))),
            (("a".to_string(), 3), 'x', Some(("a".to_string(), 1))),
            (("a".to_string(), 4), 'y', Some(("a".to_string(), 3))),
            (("a".to_string(), 5), 'z', Some(("a".to_string(), 4))),
        ]
    );
}
