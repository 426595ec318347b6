use crdt_kit::db::{after_write_back, CrdtDb, DbError};
use crdt_kit::engine::{MigrationConfig, MigrationError, MigrationStep};
use crdt_kit::envelope::{CrdtType, VersionedEnvelope};
use crdt_kit::memory::MemoryStore;
use crdt_kit::store::{presence_of, BatchOps, ErrorText, EventStore, StateStore};

struct Append {
    from: u32,
    to: u32,
    suffix: &'static [u8],
}

impl MigrationStep for Append {
    fn source_version(&self) -> u32 {
        self.from
    }

    fn target_version(&self) -> u32 {
        self.to
    }

    fn migrate(&self, data: &[u8]) -> Result<Vec<u8>, MigrationError> {
        let mut out = data.to_vec();
        out.extend_from_slice(self.suffix);
        Ok(out)
    }
}

#[test]
fn compact_saves_snapshot_and_truncates() {
    let mut db = CrdtDb::with_store(MemoryStore::new());

    db.append_event("ns", "e1", b"op1", 100, "n").unwrap();
    db.append_event("ns", "e1", b"op2", 101, "n").unwrap();
    db.append_event("ns", "e1", b"op3", 102, "n").unwrap();

    assert_eq!(db.event_count("ns", "e1").unwrap(), 3);

    let removed = db.compact("ns", "e1", b"snapshot-state", 1).unwrap();
    assert_eq!(removed, 2);

    let snap = db.load_snapshot("ns", "e1").unwrap().unwrap();
    assert_eq!(snap.state, b"snapshot-state");

    assert_eq!(db.event_count("ns", "e1").unwrap(), 1);
}

#[test]
fn event_log_and_compact_of_eight() {
    let mut db = CrdtDb::with_store(MemoryStore::new());
    for i in 0..8u8 {
        db.append_event("ns", "e", &[i], 100 + i as u64, "n").unwrap();
    }
    let removed = db.compact("ns", "e", b"S", 2).unwrap();
    assert_eq!(removed, 7);
    assert_eq!(db.event_count("ns", "e").unwrap(), 1);
    let snap = db.load_snapshot("ns", "e").unwrap().unwrap();
    assert_eq!(snap.state, b"S");
    assert_eq!(snap.at_sequence, 8);
    assert_eq!(snap.version, 2);
    let rest = db.events_since("ns", "e", 0).unwrap();
    assert_eq!(rest[0].sequence, 8);
    assert_eq!(db.compact("ns", "none", b"S", 2).unwrap(), 0);
    assert!(db.load_snapshot("ns", "none").unwrap().is_none());
}

#[test]
fn save_frames_the_payload() {
    let mut db = CrdtDb::with_store(MemoryStore::new());
    db.save("s1", 1, b"payload").unwrap();
    let raw = db.store().get("default", "s1").unwrap().unwrap();
    assert!(VersionedEnvelope::is_versioned(&raw));
    let envelope = VersionedEnvelope::from_bytes(&raw).unwrap();
    assert_eq!(envelope.version, 1);
    assert_eq!(envelope.crdt_type, CrdtType::Custom);
    assert_eq!(envelope.payload, b"payload");
    assert_eq!(db.load("s1", 1).unwrap(), Some(b"payload".to_vec()));
    assert_eq!(db.load("nope", 1).unwrap(), None);
    assert!(db.exists_key("s1").unwrap());
    db.delete("s1").unwrap();
    assert!(!db.exists_key("s1").unwrap());
    assert_eq!(db.load("s1", 1).unwrap(), None);
}

#[test]
fn namespaces_are_apart() {
    let mut db = CrdtDb::<MemoryStore>::builder(MemoryStore::new(), 1)
        .default_namespace("sensors")
        .migration_config(MigrationConfig {
            write_back_on_read: false,
            eager_migration: false,
        })
        .build();
    db.save("s1", 1, b"a").unwrap();
    db.save_ns("outdoor", "s1", 1, b"b").unwrap();
    assert!(db.store().get("sensors", "s1").unwrap().is_some());
    assert_eq!(db.load_ns("sensors", "s1", 1).unwrap(), Some(b"a".to_vec()));
    assert_eq!(db.load_ns("outdoor", "s1", 1).unwrap(), Some(b"b".to_vec()));
    assert_eq!(db.list_keys().unwrap(), vec!["s1"]);
    assert_eq!(db.list_keys_ns("outdoor").unwrap(), vec!["s1"]);
    assert!(db.exists_ns("outdoor", "s1").unwrap());
    db.delete_ns("outdoor", "s1").unwrap();
    assert!(!db.exists_ns("outdoor", "s1").unwrap());
}

#[test]
fn migration_on_load_writes_back_once() {
    let mut db = CrdtDb::builder(MemoryStore::new(), 3)
        .register_migration(Box::new(Append {
            from: 2,
            to: 3,
            suffix: b"|location=none",
        }))
        .register_migration(Box::new(Append {
            from: 1,
            to: 2,
            suffix: b"|humidity=none",
        }))
        .build();
    let stored = VersionedEnvelope::new(1, CrdtType::Custom, b"sensor-42".to_vec());
    db.store_mut()
        .put("default", "s1", &stored.to_bytes())
        .unwrap();

    let loaded = db.load("s1", 3).unwrap().unwrap();
    assert_eq!(loaded, b"sensor-42|humidity=none|location=none");

    let raw = db.store().get("default", "s1").unwrap().unwrap();
    let envelope = VersionedEnvelope::from_bytes(&raw).unwrap();
    assert_eq!(envelope.version, 3);
    assert_eq!(envelope.crdt_type, CrdtType::Custom);

    let again = db.load("s1", 3).unwrap().unwrap();
    assert_eq!(again, loaded);
    assert_eq!(db.store().get("default", "s1").unwrap().unwrap(), raw);
    assert_eq!(db.migration_engine().current_version(), 3);
}

#[test]
fn load_without_write_back_leaves_the_store() {
    let mut db = CrdtDb::builder(MemoryStore::new(), 2)
        .migration_config(MigrationConfig {
            write_back_on_read: false,
            eager_migration: false,
        })
        .register_migration(Box::new(Append {
            from: 1,
            to: 2,
            suffix: b"+v2",
        }))
        .build();
    let stored = VersionedEnvelope::new(1, CrdtType::GSet, b"x".to_vec()).to_bytes();
    db.store_mut().put("default", "k", &stored).unwrap();
    assert_eq!(db.load("k", 2).unwrap(), Some(b"x+v2".to_vec()));
    assert_eq!(db.store().get("default", "k").unwrap().unwrap(), stored);
}

#[test]
fn load_reports_each_kind_of_failure() {
    let mut db = CrdtDb::<_, Append>::builder(MemoryStore::new(), 2).build();
    db.store_mut().put("default", "plain", b"no magic").unwrap();
    assert_eq!(db.load("plain", 2).unwrap(), Some(b"no magic".to_vec()));

    db.store_mut().put("default", "bad", &[0xCF, 1, 200]).unwrap();
    match db.load("bad", 2) {
        Err(DbError::Envelope(msg)) => assert_eq!(msg, "unknown CRDT type: 200"),
        other => panic!("unexpected: {:?}", other),
    }

    db.store_mut().put("default", "short", &[0xCF]).unwrap();
    match db.load("short", 2) {
        Err(e @ DbError::Envelope(_)) => assert_eq!(
            e.to_string(),
            "envelope error: data too short for version envelope"
        ),
        other => panic!("unexpected: {:?}", other),
    }

    db.store_mut().put("default", "old", &[0xCF, 1, 255, 7]).unwrap();
    match db.load("old", 2) {
        Err(DbError::Migration(msg)) => assert_eq!(msg, "missing migration step for v1"),
        other => panic!("unexpected: {:?}", other),
    }

    db.store_mut().put("default", "new", &[0xCF, 9, 255, 7]).unwrap();
    match db.load("new", 2) {
        Err(DbError::Migration(msg)) => {
            assert_eq!(msg, "data version v9 is newer than current v2")
        }
        other => panic!("unexpected: {:?}", other),
    }
}

#[derive(Debug)]
struct Offline;

impl ErrorText for Offline {
    fn text(&self) -> String {
        "backend offline".to_string()
    }
}

struct BrokenStore;

impl StateStore for BrokenStore {
    type Error = Offline;

    fn put(&mut self, _namespace: &str, _key: &str, _value: &[u8]) -> Result<(), Offline> {
        Err(Offline)
    }

    fn get(&self, _namespace: &str, _key: &str) -> Result<Option<Vec<u8>>, Offline> {
        Err(Offline)
    }

    fn delete(&mut self, _namespace: &str, _key: &str) -> Result<(), Offline> {
        Err(Offline)
    }

    fn list_keys(&self, _namespace: &str) -> Result<Vec<String>, Offline> {
        Err(Offline)
    }
}

#[test]
fn backend_failures_are_passed_on() {
    let mut db = CrdtDb::with_store(BrokenStore);
    match db.save("k", 1, b"v") {
        Err(e @ DbError::Store(_)) => assert_eq!(e.to_string(), "store error: backend offline"),
        other => panic!("unexpected: {:?}", other),
    }
    assert!(matches!(db.load("k", 1), Err(DbError::Store(_))));
    assert!(matches!(db.delete("k"), Err(DbError::Store(_))));
    assert!(matches!(db.list_keys(), Err(DbError::Store(_))));
    assert!(matches!(db.exists_key("k"), Err(DbError::Store(_))));
    assert_eq!(
        DbError::<Offline>::Serialize("x".to_string()).to_string(),
        "serialization error: x"
    );
    assert_eq!(
        DbError::<Offline>::Deserialize("y".to_string()).to_string(),
        "deserialization error: y"
    );
}

#[test]
fn batch_put_stores_every_entry() {
    let mut store = MemoryStore::new();
    store
        .put_batch("ns", &[("a", b"1".as_slice()), ("b", b"2".as_slice()), ("a", b"3".as_slice())])
        .unwrap();
    assert_eq!(store.get("ns", "a").unwrap(), Some(b"3".to_vec()));
    assert_eq!(store.get("ns", "b").unwrap(), Some(b"2".to_vec()));
    assert_eq!(store.state_count(), 2);
}

struct Shelf {
    slots: Vec<(String, String, Vec<u8>)>,
}

impl StateStore for Shelf {
    type Error = Offline;

    fn put(&mut self, namespace: &str, key: &str, value: &[u8]) -> Result<(), Offline> {
        self.slots.retain(|(n, k, _)| !(n == namespace && k == key));
        self.slots
            .push((namespace.to_string(), key.to_string(), value.to_vec()));
        Ok(())
    }

    fn get(&self, namespace: &str, key: &str) -> Result<Option<Vec<u8>>, Offline> {
        Ok(self
            .slots
            .iter()
            .find(|(n, k, _)| n == namespace && k == key)
            .map(|(_, _, v)| v.clone()))
    }

    fn delete(&mut self, namespace: &str, key: &str) -> Result<(), Offline> {
        self.slots.retain(|(n, k, _)| !(n == namespace && k == key));
        Ok(())
    }

    fn list_keys(&self, namespace: &str) -> Result<Vec<String>, Offline> {
        Ok(self
            .slots
            .iter()
            .filter(|(n, _, _)| n == namespace)
            .map(|(_, k, _)| k.clone())
            .collect())
    }
}

#[test]
fn presence_follows_the_read() {
    assert!(matches!(presence_of::<Offline>(Ok(Some(vec![1, 2]))), Ok(true)));
    assert!(matches!(presence_of::<Offline>(Ok(Some(Vec::new()))), Ok(true)));
    assert!(matches!(presence_of::<Offline>(Ok(None)), Ok(false)));
    assert!(matches!(presence_of(Err(Offline)), Err(Offline)));
}

#[test]
fn a_store_without_its_own_lookup_reads_the_value() {
    let mut shelf = Shelf { slots: Vec::new() };
    assert!(!shelf.exists_key("ns", "k").unwrap());
    shelf.put("ns", "k", b"").unwrap();
    assert!(shelf.exists_key("ns", "k").unwrap());
    assert!(!shelf.exists_key("other", "k").unwrap());
    assert!(!shelf.exists_key("ns", "j").unwrap());
    shelf.delete("ns", "k").unwrap();
    assert!(!shelf.exists_key("ns", "k").unwrap());
    assert!(BrokenStore.exists_key("ns", "k").is_err());
}

fn sensor_v1(temperature: f32) -> Vec<u8> {
    temperature.to_le_bytes().to_vec()
}

fn read_v1(bytes: &[u8]) -> Option<f32> {
    let raw: [u8; 4] = bytes.try_into().ok()?;
    Some(f32::from_le_bytes(raw))
}

fn sensor_v2(temperature: f32, humidity: Option<f32>) -> Vec<u8> {
    let mut out = temperature.to_le_bytes().to_vec();
    match humidity {
        Some(h) => {
            out.push(1);
            out.extend_from_slice(&h.to_le_bytes());
        }
        None => out.push(0),
    }
    out
}

fn read_v2(bytes: &[u8]) -> Option<(f32, Option<f32>)> {
    let temperature = read_v1(bytes.get(..4)?)?;
    match bytes.get(4)? {
        0 if bytes.len() == 5 => Some((temperature, None)),
        1 => Some((temperature, Some(read_v1(bytes.get(5..)?)?))),
        _ => None,
    }
}

struct SensorMigration;

impl MigrationStep for SensorMigration {
    fn source_version(&self) -> u32 {
        1
    }

    fn target_version(&self) -> u32 {
        2
    }

    fn migrate(&self, data: &[u8]) -> Result<Vec<u8>, MigrationError> {
        let temperature = read_v1(data)
            .ok_or_else(|| MigrationError::Deserialization("not a v1 sensor".to_string()))?;
        Ok(sensor_v2(temperature, None))
    }
}

struct LocationMigration;

impl MigrationStep for LocationMigration {
    fn source_version(&self) -> u32 {
        2
    }

    fn target_version(&self) -> u32 {
        3
    }

    fn migrate(&self, data: &[u8]) -> Result<Vec<u8>, MigrationError> {
        read_v2(data)
            .ok_or_else(|| MigrationError::Deserialization("not a v2 sensor".to_string()))?;
        let mut out = data.to_vec();
        out.push(0);
        Ok(out)
    }
}

#[test]
fn save_and_load_basic() {
    let mut db = CrdtDb::with_store(MemoryStore::new());

    let sensor = sensor_v1(22.5);
    db.save("s1", 1, &sensor).unwrap();

    let loaded = db.load("s1", 1).unwrap();
    assert_eq!(loaded, Some(sensor));
}

#[test]
fn load_nonexistent_returns_none() {
    let mut db = CrdtDb::with_store(MemoryStore::new());

    let loaded = db.load("nope", 1).unwrap();
    assert_eq!(loaded, None);
}

#[test]
fn save_overwrites() {
    let mut db = CrdtDb::with_store(MemoryStore::new());

    db.save("s1", 1, &sensor_v1(20.0)).unwrap();
    db.save("s1", 1, &sensor_v1(25.0)).unwrap();

    let loaded = db.load("s1", 1).unwrap();
    assert_eq!(read_v1(&loaded.unwrap()), Some(25.0));
}

#[test]
fn namespace_isolation() {
    let mut db = CrdtDb::with_store(MemoryStore::new());

    db.save_ns("indoor", "s1", 1, &sensor_v1(10.0)).unwrap();
    db.save_ns("outdoor", "s1", 1, &sensor_v1(20.0)).unwrap();

    let indoor = db.load_ns("indoor", "s1", 1).unwrap().unwrap();
    let outdoor = db.load_ns("outdoor", "s1", 1).unwrap().unwrap();

    assert_eq!(read_v1(&indoor), Some(10.0));
    assert_eq!(read_v1(&outdoor), Some(20.0));
}

#[test]
fn delete_removes_value() {
    let mut db = CrdtDb::with_store(MemoryStore::new());

    db.save("s1", 1, &sensor_v1(22.5)).unwrap();
    assert!(db.exists_key("s1").unwrap());

    db.delete("s1").unwrap();
    assert!(!db.exists_key("s1").unwrap());

    let loaded = db.load("s1", 1).unwrap();
    assert_eq!(loaded, None);
}

#[test]
fn list_keys_works() {
    let mut db = CrdtDb::with_store(MemoryStore::new());

    db.save("b", 1, &sensor_v1(1.0)).unwrap();
    db.save("a", 1, &sensor_v1(2.0)).unwrap();

    let keys = db.list_keys().unwrap();
    assert_eq!(keys.len(), 2);
}

#[test]
fn migration_on_load() {
    let mut db = CrdtDb::builder(MemoryStore::new(), 2)
        .register_migration(Box::new(SensorMigration))
        .build();

    let payload = sensor_v1(22.5);
    let envelope = VersionedEnvelope::new(1, CrdtType::Custom, payload);
    db.store_mut()
        .put("default", "s1", &envelope.to_bytes())
        .unwrap();

    let loaded = db.load("s1", 2).unwrap();
    let (temperature, humidity) = read_v2(&loaded.unwrap()).unwrap();
    assert_eq!(temperature, 22.5);
    assert_eq!(humidity, None);

    let raw = db.store().get("default", "s1").unwrap().unwrap();
    let env = VersionedEnvelope::from_bytes(&raw).unwrap();
    assert_eq!(env.version, 2);
}

#[test]
fn event_sourcing_roundtrip() {
    let mut db = CrdtDb::with_store(MemoryStore::new());

    let set_temp = sensor_v2(22.5, None);
    let set_humidity = sensor_v2(0.0, Some(55.0));
    db.append_event("sensors", "s1", &set_temp, 1000, "node-1")
        .unwrap();
    db.append_event("sensors", "s1", &set_humidity, 1001, "node-1")
        .unwrap();

    let events = db.events_since("sensors", "s1", 0).unwrap();
    assert_eq!(events.len(), 2);

    assert_eq!(read_v2(&events[0].data), Some((22.5, None)));
    assert_eq!(read_v2(&events[1].data), Some((0.0, Some(55.0))));
}

#[test]
fn versioned_envelope_is_stored() {
    let mut db = CrdtDb::with_store(MemoryStore::new());

    db.save("s1", 1, &sensor_v1(22.5)).unwrap();

    let raw = db.store().get("default", "s1").unwrap().unwrap();
    assert!(VersionedEnvelope::is_versioned(&raw));

    let envelope = VersionedEnvelope::from_bytes(&raw).unwrap();
    assert_eq!(envelope.version, 1);
}

#[test]
fn builder_with_config() {
    let mut db = CrdtDb::<MemoryStore>::builder(MemoryStore::new(), 1)
        .default_namespace("sensors")
        .migration_config(MigrationConfig {
            write_back_on_read: false,
            eager_migration: false,
        })
        .build();

    db.save("s1", 1, &sensor_v1(22.5)).unwrap();

    let raw = db.store().get("sensors", "s1").unwrap().unwrap();
    assert!(VersionedEnvelope::is_versioned(&raw));
}

#[test]
fn a_chain_leads_through_steps_of_several_types() {
    let mut db = CrdtDb::<MemoryStore>::builder(MemoryStore::new(), 3)
        .register_migration(Box::new(LocationMigration))
        .register_migration(Box::new(SensorMigration))
        .build();
    assert!(db.migration_engine().validate_chain(1).is_ok());

    let stored = VersionedEnvelope::new(1, CrdtType::Custom, sensor_v1(22.5)).to_bytes();
    db.store_mut().put("default", "sensor-42", &stored).unwrap();

    let loaded = db.load("sensor-42", 3).unwrap().unwrap();
    let mut expected = sensor_v2(22.5, None);
    expected.push(0);
    assert_eq!(loaded, expected);

    let raw = db.store().get("default", "sensor-42").unwrap().unwrap();
    assert_eq!(
        raw,
        VersionedEnvelope::new(3, CrdtType::Custom, expected.clone()).to_bytes()
    );
    assert_eq!(db.load("sensor-42", 3).unwrap(), Some(expected));
    assert_eq!(db.store().get("default", "sensor-42").unwrap().unwrap(), raw);
}

struct ReadOnly {
    inner: MemoryStore,
}

impl StateStore for ReadOnly {
    type Error = Offline;

    fn put(&mut self, _namespace: &str, _key: &str, _value: &[u8]) -> Result<(), Offline> {
        Err(Offline)
    }

    fn get(&self, namespace: &str, key: &str) -> Result<Option<Vec<u8>>, Offline> {
        self.inner.get(namespace, key).map_err(|_| Offline)
    }

    fn delete(&mut self, _namespace: &str, _key: &str) -> Result<(), Offline> {
        Err(Offline)
    }

    fn list_keys(&self, namespace: &str) -> Result<Vec<String>, Offline> {
        self.inner.list_keys(namespace).map_err(|_| Offline)
    }
}

#[test]
fn a_failed_write_back_still_returns_the_value() {
    let mut inner = MemoryStore::new();
    let stored = VersionedEnvelope::new(1, CrdtType::Custom, sensor_v1(22.5)).to_bytes();
    inner.put("default", "s1", &stored).unwrap();
    let mut db = CrdtDb::builder(ReadOnly { inner }, 2)
        .register_migration(Box::new(SensorMigration))
        .build();

    let loaded = db.load("s1", 2).unwrap().unwrap();
    assert_eq!(read_v2(&loaded), Some((22.5, None)));
    assert_eq!(db.store().get("default", "s1").unwrap().unwrap(), stored);

    let again = db.load("s1", 2).unwrap().unwrap();
    assert_eq!(again, loaded);
    assert!(matches!(db.save("s2", 2, b"x"), Err(DbError::Store(_))));
}

#[test]
fn the_value_is_returned_whatever_the_write_back_gave() {
    assert_eq!(
        after_write_back::<Offline>(vec![1, 2], Ok(())).unwrap(),
        Some(vec![1, 2])
    );
    assert_eq!(
        after_write_back(vec![1, 2], Err(Offline)).unwrap(),
        Some(vec![1, 2])
    );
    assert_eq!(
        after_write_back(Vec::new(), Err(Offline)).unwrap(),
        Some(Vec::new())
    );
}

#[test]
fn appended_events_are_numbered_in_a_row() {
    let mut db = CrdtDb::with_store(MemoryStore::new());
    for i in 1..=8u64 {
        assert_eq!(db.append_event("ns", "e1", &[i as u8], 100 + i, "n").unwrap(), i);
    }
    assert_eq!(db.compact("ns", "e1", b"S", 1).unwrap(), 7);
    assert_eq!(db.event_count("ns", "e1").unwrap(), 1);
    let left = db.events_since("ns", "e1", 0).unwrap();
    assert_eq!(left.len(), 1);
    assert_eq!(left[0].sequence, 8);
    let snap = db.load_snapshot("ns", "e1").unwrap().unwrap();
    assert_eq!(snap.state, b"S");
    assert_eq!(snap.at_sequence, 8);
    assert_eq!(snap.version, 1);
    assert_eq!(db.store().event_count("ns", "other").unwrap(), 0);
}
