use crdt_kit::clock::{FnSource, HybridClock, HybridTimestamp, TimeSource};
use crdt_kit::time::to_reading;
use std::cell::Cell;
use std::rc::Rc;

#[test]
fn monotonic_within_same_ms() {
    let time = Rc::new(Cell::new(5000u64));
    let source = time.clone();
    let mut clock = HybridClock::with_time_source(1, move || source.get());

    let ts1 = clock.now();
    let ts2 = clock.now();
    let ts3 = clock.now();

    assert!(ts1 < ts2);
    assert!(ts2 < ts3);
    assert_eq!(ts1.physical, 5000);
    assert_eq!(ts1.logical, 0);
    assert_eq!(ts2.logical, 1);
    assert_eq!(ts3.logical, 2);
}

#[test]
fn physical_time_advance_resets_logical() {
    let time = Rc::new(Cell::new(1000u64));
    let source = time.clone();
    let mut clock = HybridClock::with_time_source(1, move || source.get());

    let ts1 = clock.now();
    assert_eq!(ts1.logical, 0);

    let _ts2 = clock.now();

    time.set(2000);
    let ts3 = clock.now();
    assert_eq!(ts3.physical, 2000);
    assert_eq!(ts3.logical, 0);
}

#[test]
fn receive_advances_clock() {
    let time = Rc::new(Cell::new(1000u64));
    let source = time.clone();
    let mut clock = HybridClock::with_time_source(1, move || source.get());

    let remote = HybridTimestamp {
        physical: 5000,
        logical: 3,
        node_id: 2,
    };

    let ts = clock.receive(&remote);
    assert!(ts > remote);
    assert_eq!(ts.physical, 5000);
    assert_eq!(ts.logical, 4);
}

#[test]
fn receive_same_physical_time() {
    let time = Rc::new(Cell::new(5000u64));
    let source = time.clone();
    let mut clock = HybridClock::with_time_source(1, move || source.get());

    let _local = clock.now();

    let remote = HybridTimestamp {
        physical: 5000,
        logical: 5,
        node_id: 2,
    };

    let ts = clock.receive(&remote);
    assert!(ts > remote);
    assert_eq!(ts.physical, 5000);
    assert_eq!(ts.logical, 6);
}

#[test]
fn ordering_is_total() {
    let a = HybridTimestamp {
        physical: 1000,
        logical: 0,
        node_id: 1,
    };
    let b = HybridTimestamp {
        physical: 1000,
        logical: 0,
        node_id: 2,
    };
    let c = HybridTimestamp {
        physical: 1000,
        logical: 1,
        node_id: 1,
    };

    assert!(a < b);
    assert!(a < c);
    assert!(b < c);
}

#[test]
fn to_u128_preserves_ordering() {
    let a = HybridTimestamp {
        physical: 1000,
        logical: 5,
        node_id: 1,
    };
    let b = HybridTimestamp {
        physical: 1000,
        logical: 6,
        node_id: 1,
    };
    let c = HybridTimestamp {
        physical: 1001,
        logical: 0,
        node_id: 1,
    };

    assert!(a.to_u128() < b.to_u128());
    assert!(b.to_u128() < c.to_u128());
}

#[test]
fn to_u128_exact_layout() {
    let t = HybridTimestamp {
        physical: 1,
        logical: 2,
        node_id: 3,
    };
    assert_eq!(t.to_u128(), (1u128 << 64) | (2u128 << 48) | (3u128 << 32));
    assert_eq!(HybridTimestamp::zero().to_u128(), 0);
    assert_eq!(t.to_u128() & 0xFFFF_FFFF, 0);
}

#[test]
fn clock_going_backward_still_increases() {
    let time = Rc::new(Cell::new(9000u64));
    let source = time.clone();
    let mut clock = HybridClock::with_time_source(7, move || source.get());
    let t1 = clock.now();
    time.set(10);
    let t2 = clock.now();
    let remote = HybridTimestamp {
        physical: 20,
        logical: 40,
        node_id: 1,
    };
    let t3 = clock.receive(&remote);
    let t4 = clock.now();
    assert!(t1 < t2 && t2 < t3 && t3 < t4);
    assert!(t1.is_before(&t2) && !t2.is_before(&t1));
    assert_eq!(
        t3,
        HybridTimestamp {
            physical: 9000,
            logical: 2,
            node_id: 7
        }
    );
    assert_eq!(clock.last_timestamp(), t4);
    assert_eq!(clock.node_id(), 7);
}

#[test]
fn receive_with_wall_clock_ahead_resets_counter() {
    let time = Rc::new(Cell::new(7000u64));
    let source = time.clone();
    let mut clock = HybridClock::with_time_source(1, move || source.get());
    let remote = HybridTimestamp {
        physical: 5000,
        logical: 9,
        node_id: 2,
    };
    let t = clock.receive(&remote);
    assert_eq!(
        t,
        HybridTimestamp {
            physical: 7000,
            logical: 0,
            node_id: 1
        }
    );
}

#[test]
fn system_clock_increases() {
    let mut clock = HybridClock::new(3);
    let a = clock.now();
    let b = clock.now();
    assert!(a < b);
    assert_eq!(b.node_id, 3);
}

#[test]
fn reading_keeps_the_low_bits() {
    assert_eq!(to_reading(None), 0);
    assert_eq!(to_reading(Some(0)), 0);
    assert_eq!(to_reading(Some(1_700_000_000_123)), 1_700_000_000_123);
    assert_eq!(to_reading(Some(u64::MAX as u128)), u64::MAX);
    assert_eq!(to_reading(Some(u64::MAX as u128 + 1)), 0);
    assert_eq!(to_reading(Some((1u128 << 64) + 7)), 7);
    assert_eq!(to_reading(Some(u128::MAX)), u64::MAX);
}

#[test]
fn a_function_source_shows_what_the_function_returns() {
    let source = FnSource { read: || 42u64 };
    assert_eq!(source.now_ms(), 42);
    let time = Rc::new(Cell::new(1u64));
    let seen = time.clone();
    let moving = FnSource {
        read: move || seen.get(),
    };
    assert_eq!(moving.now_ms(), 1);
    time.set(9);
    assert_eq!(moving.now_ms(), 9);
}

#[test]
fn a_full_counter_behind_a_later_remote_does_not_matter() {
    let last = HybridTimestamp {
        physical: 10,
        logical: u16::MAX,
        node_id: 1,
    };
    let remote = HybridTimestamp {
        physical: 11,
        logical: 4,
        node_id: 2,
    };
    let t = crdt_kit::clock::absorb(last, &remote, 5, 1);
    assert_eq!(
        t,
        HybridTimestamp {
            physical: 11,
            logical: 5,
            node_id: 1
        }
    );
    assert!(last < t && remote < t);
    let t = crdt_kit::clock::tick(last, 11, 1);
    assert_eq!(
        t,
        HybridTimestamp {
            physical: 11,
            logical: 0,
            node_id: 1
        }
    );
}
