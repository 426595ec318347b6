use crdt_kit::memory::MemoryStore;
use crdt_kit::store::{EventStore, StateStore};

#[test]
fn memory_state_put_get_delete() {
    let mut store = MemoryStore::new();
    store.put("ns", "k1", b"hello").unwrap();
    assert_eq!(store.get("ns", "k1").unwrap(), Some(b"hello".to_vec()));

    store.put("ns", "k1", b"world").unwrap();
    assert_eq!(store.get("ns", "k1").unwrap(), Some(b"world".to_vec()));

    store.delete("ns", "k1").unwrap();
    assert_eq!(store.get("ns", "k1").unwrap(), None);
}

#[test]
fn memory_state_namespace_isolation() {
    let mut store = MemoryStore::new();
    store.put("a", "k1", b"alpha").unwrap();
    store.put("b", "k1", b"beta").unwrap();

    assert_eq!(store.get("a", "k1").unwrap(), Some(b"alpha".to_vec()));
    assert_eq!(store.get("b", "k1").unwrap(), Some(b"beta".to_vec()));
}

#[test]
fn memory_state_list_keys() {
    let mut store = MemoryStore::new();
    store.put("ns", "a", b"1").unwrap();
    store.put("ns", "b", b"2").unwrap();
    store.put("other", "c", b"3").unwrap();

    let mut keys = store.list_keys("ns").unwrap();
    keys.sort();
    assert_eq!(keys, vec!["a", "b"]);
}

#[test]
fn memory_state_exists() {
    let mut store = MemoryStore::new();
    assert!(!store.exists_key("ns", "k").unwrap());
    store.put("ns", "k", b"v").unwrap();
    assert!(store.exists_key("ns", "k").unwrap());
}

#[test]
fn memory_event_append_and_read() {
    let mut store = MemoryStore::new();

    let seq1 = store
        .append_event("ns", "e1", b"op1", 100, "node-a")
        .unwrap();
    let seq2 = store
        .append_event("ns", "e1", b"op2", 101, "node-a")
        .unwrap();
    let seq3 = store
        .append_event("ns", "e1", b"op3", 102, "node-b")
        .unwrap();

    assert_eq!(seq1, 1);
    assert_eq!(seq2, 2);
    assert_eq!(seq3, 3);

    let events = store.events_since("ns", "e1", 0).unwrap();
    assert_eq!(events.len(), 3);
    assert_eq!(events[0].data, b"op1");
    assert_eq!(events[2].node_id, "node-b");

    let events = store.events_since("ns", "e1", 1).unwrap();
    assert_eq!(events.len(), 2);
    assert_eq!(events[0].sequence, 2);
}

#[test]
fn memory_event_count() {
    let mut store = MemoryStore::new();
    assert_eq!(store.event_count("ns", "e1").unwrap(), 0);

    store.append_event("ns", "e1", b"op1", 100, "n").unwrap();
    store.append_event("ns", "e1", b"op2", 101, "n").unwrap();
    assert_eq!(store.event_count("ns", "e1").unwrap(), 2);

    assert_eq!(store.event_count("ns", "e2").unwrap(), 0);
}

#[test]
fn memory_snapshot_save_load() {
    let mut store = MemoryStore::new();
    assert!(store.load_snapshot("ns", "e1").unwrap().is_none());

    store
        .save_snapshot("ns", "e1", b"state-data", 42, 2)
        .unwrap();

    let snap = store.load_snapshot("ns", "e1").unwrap().unwrap();
    assert_eq!(snap.state, b"state-data");
    assert_eq!(snap.at_sequence, 42);
    assert_eq!(snap.version, 2);
}

#[test]
fn memory_truncate_events() {
    let mut store = MemoryStore::new();
    store.append_event("ns", "e1", b"op1", 100, "n").unwrap();
    store.append_event("ns", "e1", b"op2", 101, "n").unwrap();
    store.append_event("ns", "e1", b"op3", 102, "n").unwrap();
    store.append_event("ns", "e1", b"op4", 103, "n").unwrap();

    let removed = store.truncate_events_before("ns", "e1", 3).unwrap();
    assert_eq!(removed, 2);

    let events = store.events_since("ns", "e1", 0).unwrap();
    assert_eq!(events.len(), 2);
    assert_eq!(events[0].sequence, 3);
}

#[test]
fn memory_entity_isolation() {
    let mut store = MemoryStore::new();
    store.append_event("ns", "e1", b"op1", 100, "n").unwrap();
    store.append_event("ns", "e2", b"op2", 101, "n").unwrap();

    assert_eq!(store.event_count("ns", "e1").unwrap(), 1);
    assert_eq!(store.event_count("ns", "e2").unwrap(), 1);
}

#[test]
fn memory_keys_are_listed_in_order() {
    let mut store = MemoryStore::new();
    store.put("ns", "b", b"2").unwrap();
    store.put("ns", "ab", b"1").unwrap();
    store.put("ns", "a", b"0").unwrap();
    store.put("n", "z", b"3").unwrap();
    store.put("ns0", "q", b"4").unwrap();
    assert_eq!(store.list_keys("ns").unwrap(), vec!["a", "ab", "b"]);
    assert_eq!(store.list_keys("n").unwrap(), vec!["z"]);
    assert_eq!(store.list_keys("none").unwrap(), Vec::<String>::new());
    assert_eq!(store.state_count(), 5);
    store.delete("ns", "missing").unwrap();
    assert_eq!(store.state_count(), 5);
}

#[test]
fn memory_sequences_are_shared_and_increase() {
    let mut store = MemoryStore::default();
    assert_eq!(store.append_event("ns", "e1", b"a", 1, "n").unwrap(), 1);
    assert_eq!(store.append_event("ns", "e2", b"b", 2, "n").unwrap(), 2);
    assert_eq!(store.append_event("ns", "e1", b"c", 3, "n").unwrap(), 3);
    let events = store.events_since("ns", "e1", 0).unwrap();
    let sequences: Vec<u64> = events.iter().map(|e| e.sequence).collect();
    assert_eq!(sequences, vec![1, 3]);
    assert_eq!(events[1].namespace, "ns");
    assert_eq!(events[1].entity_id, "e1");
    assert_eq!(events[1].timestamp, 3);
    assert_eq!(store.total_event_count(), 3);
    assert_eq!(store.truncate_events_before("ns", "missing", 9).unwrap(), 0);
    assert_eq!(store.truncate_events_before("ns", "e1", 4).unwrap(), 2);
    assert_eq!(store.event_count("ns", "e1").unwrap(), 0);
    assert_eq!(store.total_event_count(), 1);
}

#[test]
fn memory_snapshot_is_overwritten() {
    let mut store = MemoryStore::new();
    store.save_snapshot("ns", "e1", b"one", 1, 1).unwrap();
    store.save_snapshot("ns", "e1", b"two", 2, 3).unwrap();
    let snap = store.load_snapshot("ns", "e1").unwrap().unwrap();
    assert_eq!(snap.state, b"two");
    assert_eq!(snap.at_sequence, 2);
    assert_eq!(snap.version, 3);
    assert!(store.load_snapshot("ns", "e2").unwrap().is_none());
}
