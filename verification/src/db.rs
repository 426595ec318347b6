//! The versioned database: values framed by an envelope on write, migrated
//! to the current schema on read, over any storage backend.

use crate::engine::{migration_outcome, MigrationConfig, MigrationEngine, MigrationStep};
use crate::envelope::{decode, encode, starts_with_magic, CrdtType, VersionedEnvelope};
use crate::store::{
    bytes_view, event_views, events_after, events_from, lists_keys, lookup, snapshot_view, Address,
    ErrorText, EventStore, Snapshot, SnapshotView, StateStore, StoredEvent,
};
use vstd::prelude::*;
use vstd::string::StringExecFns;

verus! {

/// Why an operation of the database failed.
#[derive(Debug)]
pub enum DbError<E> {
    /// The backend failed.
    Store(E),
    /// A value could not be serialized.
    Serialize(String),
    /// Bytes could not be deserialized.
    Deserialize(String),
    /// Stored bytes start with the magic byte but hold no envelope.
    Envelope(String),
    /// The stored version could not be migrated.
    Migration(String),
}

/// The kind of a database error, with its message as a sequence.
pub enum DbFailure {
    Store(Seq<char>),
    Serialize(Seq<char>),
    Deserialize(Seq<char>),
    Envelope(Seq<char>),
    Migration(Seq<char>),
}

impl DbFailure {
    /// The message of this failure.
    pub open spec fn message(self) -> Seq<char> {
        match self {
            DbFailure::Store(msg) => "store error: "@ + msg,
            DbFailure::Serialize(msg) => "serialization error: "@ + msg,
            DbFailure::Deserialize(msg) => "deserialization error: "@ + msg,
            DbFailure::Envelope(msg) => "envelope error: "@ + msg,
            DbFailure::Migration(msg) => "migration error: "@ + msg,
        }
    }
}

impl<E: ErrorText> DbError<E> {
    /// The kind of this error.
    pub open spec fn failure(&self) -> DbFailure {
        match self {
            DbError::Store(e) => DbFailure::Store(e.text_of()),
            DbError::Serialize(msg) => DbFailure::Serialize(msg@),
            DbError::Deserialize(msg) => DbFailure::Deserialize(msg@),
            DbError::Envelope(msg) => DbFailure::Envelope(msg@),
            DbError::Migration(msg) => DbFailure::Migration(msg@),
        }
    }

    /// Renders the kind of the error and its message.
    pub fn to_string(&self) -> (s: String)
        ensures
            s@ == self.failure().message(),
    {
        match self {
            DbError::Store(e) => {
                let mut s = String::from_str("store error: ");
                let text = e.text();
                s.append(text.as_str());
                s
            },
            DbError::Serialize(msg) => {
                let mut s = String::from_str("serialization error: ");
                s.append(msg.as_str());
                s
            },
            DbError::Deserialize(msg) => {
                let mut s = String::from_str("deserialization error: ");
                s.append(msg.as_str());
                s
            },
            DbError::Envelope(msg) => {
                let mut s = String::from_str("envelope error: ");
                s.append(msg.as_str());
                s
            },
            DbError::Migration(msg) => {
                let mut s = String::from_str("migration error: ");
                s.append(msg.as_str());
                s
            },
        }
    }
}

/// Settings of a database.
#[derive(Debug, Clone, PartialEq, Eq)]
pub struct CrdtDbConfig {
    /// How reads treat data of an older version.
    pub migration: MigrationConfig,
    /// The namespace of the operations that name none.
    pub default_namespace: String,
}

impl Default for CrdtDbConfig {
    fn default() -> (c: Self)
        ensures
            c.migration.write_back_on_read,
            !c.migration.eager_migration,
            c.default_namespace@ == "default"@,
    {
        Self {
            migration: MigrationConfig { write_back_on_read: true, eager_migration: false },
            default_namespace: String::from_str("default"),
        }
    }
}

/// What reading stored bytes gives: the payload at the wanted schema version
/// and, where the payload was migrated, the envelope to write back.
pub open spec fn resolution<M: MigrationStep + ?Sized>(
    raw: Seq<u8>,
    schema_version: u8,
    chain: Seq<Box<M>>,
    current: u32,
) -> Result<(Seq<u8>, Option<Seq<u8>>), DbFailure> {
    if !starts_with_magic(raw) {
        Ok((raw, None))
    } else {
        match decode(raw) {
            Err(e) => Err(DbFailure::Envelope(e.message())),
            Ok((version, crdt_type, payload)) => if version == schema_version {
                Ok((payload, None))
            } else {
                match migration_outcome(chain, payload, version as u32, current) {
                    Err(f) => Err(DbFailure::Migration(f.message())),
                    Ok(migrated) => Ok(
                        (migrated, Some(encode(schema_version, crdt_type, migrated))),
                    ),
                }
            },
        }
    }
}

/// Reading what a write-back has stored needs no migration: the envelope of
/// the wanted version gives its payload, and nothing is written again.
pub proof fn lemma_write_back_settles<M: MigrationStep + ?Sized>(
    schema_version: u8,
    crdt_type: CrdtType,
    payload: Seq<u8>,
    chain: Seq<Box<M>>,
    current: u32,
)
    ensures
        resolution(encode(schema_version, crdt_type, payload), schema_version, chain, current)
            == Ok::<(Seq<u8>, Option<Seq<u8>>), DbFailure>((payload, None)),
{
    crate::envelope::lemma_envelope_round_trip(schema_version, crdt_type, payload);
}

/// The view of a resolved read.
pub open spec fn resolved_view<E: ErrorText>(r: Result<(Vec<u8>, Option<Vec<u8>>), DbError<E>>)
    -> Result<
    (Seq<u8>, Option<Seq<u8>>),
    DbFailure,
> {
    match r {
        Ok((payload, rewrite)) => Ok((payload@, bytes_view(rewrite))),
        Err(e) => Err(e.failure()),
    }
}

/// What stored bytes hold at `schema_version`: the payload and, where it was
/// migrated, the envelope to write back.
///
/// Bytes without the magic byte are the payload as it is. An envelope of the
/// wanted version gives its payload; one of another version is migrated by
/// `engine`.
pub fn resolve_payload<M: MigrationStep + ?Sized, E: ErrorText>(
    engine: &MigrationEngine<M>,
    raw: Vec<u8>,
    schema_version: u8,
) -> (r: Result<(Vec<u8>, Option<Vec<u8>>), DbError<E>>)
    requires
        engine.wf(),
    ensures
        resolved_view(r) == resolution(raw@, schema_version, engine.chain(), engine.current()),
{
    if !VersionedEnvelope::is_versioned(raw.as_slice()) {
        return Ok((raw, None));
    }
    let envelope = match VersionedEnvelope::from_bytes(raw.as_slice()) {
        Ok(e) => e,
        Err(e) => {
            return Err(DbError::Envelope(e.to_string()));
        },
    };
    if envelope.version == schema_version {
        return Ok((envelope.payload, None));
    }
    let migrated = match engine.migrate_to_current(
        envelope.payload.as_slice(),
        envelope.version as u32,
    ) {
        Ok(m) => m,
        Err(e) => {
            return Err(DbError::Migration(e.to_string()));
        },
    };
    let rewritten = VersionedEnvelope::new(
        schema_version,
        envelope.crdt_type,
        vstd::slice::slice_to_vec(migrated.as_slice()),
    ).to_bytes();
    Ok((migrated, Some(rewritten)))
}

/// What a read returns once the write-back of a migrated payload was tried:
/// the payload, whether the backend took the write or refused it. Where it
/// refused, the stored bytes are as before and the next read migrates again.
pub fn after_write_back<E>(payload: Vec<u8>, written: Result<(), E>) -> (r: Result<
    Option<Vec<u8>>,
    DbError<E>,
>)
    ensures
        r == Ok::<Option<Vec<u8>>, DbError<E>>(Some(payload)),
{
    match written {
        Ok(()) => Ok(Some(payload)),
        Err(_) => Ok(Some(payload)),
    }
}

/// A storage backend with a migration engine and settings.
pub struct CrdtDb<S: StateStore, M: MigrationStep + ?Sized = dyn MigrationStep> {
    store: S,
    migration_engine: MigrationEngine<M>,
    config: CrdtDbConfig,
}

/// Collects the parts of a database.
pub struct CrdtDbBuilder<S: StateStore, M: MigrationStep + ?Sized = dyn MigrationStep> {
    store: S,
    migration_engine: MigrationEngine<M>,
    config: CrdtDbConfig,
}

impl<S: StateStore, M: MigrationStep + ?Sized> CrdtDbBuilder<S, M> {
    /// The backend collected so far.
    pub closed spec fn backend(&self) -> S {
        self.store
    }

    /// The engine collected so far.
    pub closed spec fn engine(&self) -> MigrationEngine<M> {
        self.migration_engine
    }

    /// The settings collected so far.
    pub closed spec fn settings(&self) -> CrdtDbConfig {
        self.config
    }

    /// Sets how reads treat data of an older version.
    pub fn migration_config(self, config: MigrationConfig) -> (b: Self)
        ensures
            b.backend() == self.backend(),
            b.engine() == self.engine(),
            b.settings().migration == config,
            b.settings().default_namespace == self.settings().default_namespace,
    {
        let mut b = self;
        b.config.migration = config;
        b
    }

    /// Sets the namespace of the operations that name none.
    pub fn default_namespace(self, ns: &str) -> (b: Self)
        ensures
            b.backend() == self.backend(),
            b.engine() == self.engine(),
            b.settings().migration == self.settings().migration,
            b.settings().default_namespace@ == ns@,
    {
        let mut b = self;
        b.config.default_namespace = ns.to_owned();
        b
    }

    /// Registers a migration step with the engine.
    pub fn register_migration(self, step: Box<M>) -> (b: Self)
        requires
            self.engine().wf(),
            step.source() < step.target(),
        ensures
            b.backend() == self.backend(),
            b.settings() == self.settings(),
            b.engine().wf(),
            b.engine().current() == self.engine().current(),
            b.engine().chain() == self.engine().chain().insert(
                crate::engine::slot_for(self.engine().chain(), step.source()),
                step,
            ),
    {
        let mut b = self;
        b.migration_engine.register(step);
        b
    }

    /// Builds the database.
    pub fn build(self) -> (db: CrdtDb<S, M>)
        ensures
            db.backend() == self.backend(),
            db.engine() == self.engine(),
            db.settings() == self.settings(),
    {
        CrdtDb { store: self.store, migration_engine: self.migration_engine, config: self.config }
    }
}

impl<S: StateStore> CrdtDb<S, dyn MigrationStep> {
    /// Creates a database over `store` with the default settings, at schema
    /// version 1 and without migrations. Its steps may be of any types.
    pub fn with_store(store: S) -> (db: Self)
        ensures
            db.backend() == store,
            db.engine().wf(),
            db.engine().current() == 1,
            db.engine().chain().len() == 0,
            db.settings().migration.write_back_on_read,
            db.settings().default_namespace@ == "default"@,
    {
        Self { store, migration_engine: MigrationEngine::new(1), config: CrdtDbConfig::default() }
    }
}

impl<S: StateStore, M: MigrationStep + ?Sized> CrdtDb<S, M> {
    /// The storage backend.
    pub closed spec fn backend(&self) -> S {
        self.store
    }

    /// The migration engine.
    pub closed spec fn engine(&self) -> MigrationEngine<M> {
        self.migration_engine
    }

    /// The settings.
    pub closed spec fn settings(&self) -> CrdtDbConfig {
        self.config
    }

    /// The backend is consistent and the chain of the engine well formed.
    pub open spec fn inv(&self) -> bool {
        &&& self.backend().inv()
        &&& self.engine().wf()
    }

    /// The stored values of the backend.
    pub open spec fn state(&self) -> Map<Address, Seq<u8>> {
        self.backend().state()
    }

    /// The backend promises that its operations do not fail.
    pub open spec fn dependable(&self) -> bool {
        self.backend().dependable()
    }

    /// How many events the backend is sure to take yet.
    pub open spec fn room(&self) -> nat {
        self.backend().room()
    }

    /// The namespace of the operations that name none.
    pub open spec fn default_ns(&self) -> Seq<char> {
        self.settings().default_namespace@
    }

    /// Engine and settings are those of `other`.
    pub open spec fn same_setup(&self, other: &Self) -> bool {
        &&& self.engine() == other.engine()
        &&& self.settings() == other.settings()
    }

    /// Starts a builder over `store` for schema version `current_version`.
    pub fn builder(store: S, current_version: u32) -> (b: CrdtDbBuilder<S, M>)
        ensures
            b.backend() == store,
            b.engine().wf(),
            b.engine().current() == current_version,
            b.engine().chain().len() == 0,
            b.settings().migration.write_back_on_read,
            b.settings().default_namespace@ == "default"@,
    {
        CrdtDbBuilder {
            store,
            migration_engine: MigrationEngine::new(current_version),
            config: CrdtDbConfig::default(),
        }
    }

    /// The storage backend.
    pub fn store(&self) -> (s: &S)
        ensures
            *s == self.backend(),
    {
        &self.store
    }

    /// The storage backend, for changing it in place.
    pub fn store_mut(&mut self) -> (s: &mut S)
        ensures
            *s == old(self).backend(),
            final(self).backend() == *final(s),
            final(self).same_setup(old(self)),
    {
        &mut self.store
    }

    /// The migration engine.
    pub fn migration_engine(&self) -> (e: &MigrationEngine<M>)
        ensures
            *e == self.engine(),
    {
        &self.migration_engine
    }

    /// Stores `payload` under `key` in the default namespace, framed as for
    /// [`CrdtDb::save_ns`].
    pub fn save(&mut self, key: &str, schema_version: u8, payload: &[u8]) -> (r: Result<
        (),
        DbError<S::Error>,
    >)
        requires
            old(self).inv(),
        ensures
            final(self).inv(),
            final(self).same_setup(old(self)),
            old(self).dependable() ==> r is Ok && final(self).dependable(),
            final(self).room() >= old(self).room(),
            r is Ok ==> final(self).state() == old(self).state().insert(
                (old(self).default_ns(), key@),
                encode(schema_version, CrdtType::Custom, payload@),
            ),
            r matches Err(e) ==> e is Store && final(self).state() == old(self).state(),
    {
        let ns = self.config.default_namespace.clone();
        self.save_ns(ns.as_str(), key, schema_version, payload)
    }

    /// Stores `payload` under `(namespace, key)`, in an envelope with
    /// `schema_version` and the type code of application-defined values.
    pub fn save_ns(&mut self, namespace: &str, key: &str, schema_version: u8, payload: &[u8])
        -> (r: Result<(), DbError<S::Error>>)
        requires
            old(self).inv(),
        ensures
            final(self).inv(),
            final(self).same_setup(old(self)),
            old(self).dependable() ==> r is Ok && final(self).dependable(),
            final(self).room() >= old(self).room(),
            r is Ok ==> final(self).state() == old(self).state().insert(
                (namespace@, key@),
                encode(schema_version, CrdtType::Custom, payload@),
            ),
            r matches Err(e) ==> e is Store && final(self).state() == old(self).state(),
    {
        let envelope = VersionedEnvelope::new(
            schema_version,
            CrdtType::Custom,
            vstd::slice::slice_to_vec(payload),
        );
        let bytes = envelope.to_bytes();
        match self.store.put(namespace, key, bytes.as_slice()) {
            Ok(()) => Ok(()),
            Err(e) => Err(DbError::Store(e)),
        }
    }

    /// Reads the payload under `key` in the default namespace, as
    /// [`CrdtDb::load_ns`] does.
    pub fn load(&mut self, key: &str, schema_version: u8) -> (r: Result<
        Option<Vec<u8>>,
        DbError<S::Error>,
    >)
        requires
            old(self).inv(),
        ensures
            final(self).inv(),
            final(self).same_setup(old(self)),
            old(self).dependable() ==> final(self).dependable(),
            final(self).room() >= old(self).room(),
            load_result(
                old(self).state(),
                final(self).state(),
                old(self).default_ns(),
                key@,
                schema_version,
                old(self).engine().chain(),
                old(self).engine().current(),
                old(self).settings().migration.write_back_on_read,
                old(self).dependable(),
                r,
            ),
    {
        let ns = self.config.default_namespace.clone();
        self.load_ns(ns.as_str(), key, schema_version)
    }

    /// Reads the payload under `(namespace, key)` at `schema_version`.
    ///
    /// Nothing stored gives `None`. Bytes without the magic byte are returned
    /// as they are. An envelope of another version is migrated; where the
    /// settings ask for it the migrated payload is written back in an envelope
    /// of `schema_version`. The payload is returned whether or not that write
    /// succeeds; over a backend that is dependable it does, and the envelope
    /// is stored.
    pub fn load_ns(&mut self, namespace: &str, key: &str, schema_version: u8) -> (r: Result<
        Option<Vec<u8>>,
        DbError<S::Error>,
    >)
        requires
            old(self).inv(),
        ensures
            final(self).inv(),
            final(self).same_setup(old(self)),
            old(self).dependable() ==> final(self).dependable(),
            final(self).room() >= old(self).room(),
            load_result(
                old(self).state(),
                final(self).state(),
                namespace@,
                key@,
                schema_version,
                old(self).engine().chain(),
                old(self).engine().current(),
                old(self).settings().migration.write_back_on_read,
                old(self).dependable(),
                r,
            ),
    {
        let raw = match self.store.get(namespace, key) {
            Ok(Some(data)) => data,
            Ok(None) => {
                return Ok(None);
            },
            Err(e) => {
                return Err(DbError::Store(e));
            },
        };
        let (payload, rewrite) = match resolve_payload::<M, S::Error>(
            &self.migration_engine,
            raw,
            schema_version,
        ) {
            Ok(pair) => pair,
            Err(e) => {
                return Err(e);
            },
        };
        if self.config.migration.write_back_on_read {
            match rewrite {
                Some(bytes) => {
                    let written = self.store.put(namespace, key, bytes.as_slice());
                    return after_write_back(payload, written);
                },
                None => {},
            }
        }
        Ok(Some(payload))
    }

    /// Removes what is stored under `key` in the default namespace.
    pub fn delete(&mut self, key: &str) -> (r: Result<(), DbError<S::Error>>)
        requires
            old(self).inv(),
        ensures
            final(self).inv(),
            final(self).same_setup(old(self)),
            old(self).dependable() ==> r is Ok && final(self).dependable(),
            final(self).room() >= old(self).room(),
            r is Ok ==> final(self).state() == old(self).state().remove(
                (old(self).default_ns(), key@),
            ),
            r matches Err(e) ==> e is Store && final(self).state() == old(self).state(),
    {
        let ns = self.config.default_namespace.clone();
        self.delete_ns(ns.as_str(), key)
    }

    /// Removes what is stored under `(namespace, key)`.
    pub fn delete_ns(&mut self, namespace: &str, key: &str) -> (r: Result<(), DbError<S::Error>>)
        requires
            old(self).inv(),
        ensures
            final(self).inv(),
            final(self).same_setup(old(self)),
            old(self).dependable() ==> r is Ok && final(self).dependable(),
            final(self).room() >= old(self).room(),
            r is Ok ==> final(self).state() == old(self).state().remove((namespace@, key@)),
            r matches Err(e) ==> e is Store && final(self).state() == old(self).state(),
    {
        match self.store.delete(namespace, key) {
            Ok(()) => Ok(()),
            Err(e) => Err(DbError::Store(e)),
        }
    }

    /// The keys of the default namespace.
    pub fn list_keys(&self) -> (r: Result<Vec<String>, DbError<S::Error>>)
        requires
            self.inv(),
        ensures
            self.dependable() ==> r is Ok,
            r matches Ok(keys) ==> lists_keys(keys@, self.state(), self.default_ns()),
            r matches Err(e) ==> e is Store,
    {
        self.list_keys_ns(self.config.default_namespace.as_str())
    }

    /// The keys of a namespace.
    pub fn list_keys_ns(&self, namespace: &str) -> (r: Result<Vec<String>, DbError<S::Error>>)
        requires
            self.inv(),
        ensures
            self.dependable() ==> r is Ok,
            r matches Ok(keys) ==> lists_keys(keys@, self.state(), namespace@),
            r matches Err(e) ==> e is Store,
    {
        match self.store.list_keys(namespace) {
            Ok(keys) => Ok(keys),
            Err(e) => Err(DbError::Store(e)),
        }
    }

    /// Whether something is stored under `key` in the default namespace.
    pub fn exists_key(&self, key: &str) -> (r: Result<bool, DbError<S::Error>>)
        requires
            self.inv(),
        ensures
            self.dependable() ==> r is Ok,
            r matches Ok(b) ==> b == self.state().dom().contains((self.default_ns(), key@)),
            r matches Err(e) ==> e is Store,
    {
        self.exists_ns(self.config.default_namespace.as_str(), key)
    }

    /// Whether something is stored under `(namespace, key)`.
    pub fn exists_ns(&self, namespace: &str, key: &str) -> (r: Result<bool, DbError<S::Error>>)
        requires
            self.inv(),
        ensures
            self.dependable() ==> r is Ok,
            r matches Ok(b) ==> b == self.state().dom().contains((namespace@, key@)),
            r matches Err(e) ==> e is Store,
    {
        match self.store.exists_key(namespace, key) {
            Ok(b) => Ok(b),
            Err(e) => Err(DbError::Store(e)),
        }
    }
}

/// What a read of `(namespace, key)` returned and did to the stored values.
///
/// - Nothing stored: `None`, nothing changed.
/// - Stored bytes that resolve: their payload; the stored values are as
///   before, or hold the rewritten envelope where one was due and write-back
///   is on. Over a dependable backend they hold it.
/// - Stored bytes that do not resolve: the failure, nothing changed.
/// - A backend that fails to read: `Store`, nothing changed. A dependable
///   backend does not.
pub open spec fn load_result<M: MigrationStep + ?Sized, E: ErrorText>(
    before: Map<Address, Seq<u8>>,
    after: Map<Address, Seq<u8>>,
    namespace: Seq<char>,
    key: Seq<char>,
    schema_version: u8,
    chain: Seq<Box<M>>,
    current: u32,
    write_back: bool,
    dependable: bool,
    r: Result<Option<Vec<u8>>, DbError<E>>,
) -> bool {
    match r {
        Ok(None) => lookup(before, namespace, key) is None && after == before,
        Ok(Some(payload)) => {
            &&& lookup(before, namespace, key) matches Some(raw)
            &&& resolution(raw, schema_version, chain, current) matches Ok((resolved, rewrite))
            &&& payload@ == resolved
            &&& (after == before || (write_back && rewrite is Some && after == before.insert(
                (namespace, key),
                rewrite->Some_0,
            )))
            &&& dependable && write_back && rewrite is Some ==> after == before.insert(
                (namespace, key),
                rewrite->Some_0,
            )
        },
        Err(e) => {
            &&& after == before
            &&& dependable ==> !(e is Store)
            &&& (e is Store || (lookup(before, namespace, key) is Some && resolution(
                lookup(before, namespace, key)->Some_0,
                schema_version,
                chain,
                current,
            ) == Err::<(Seq<u8>, Option<Seq<u8>>), DbFailure>(e.failure())))
        },
    }
}

/// What compacting the log of an entity did.
///
/// With no event of a sequence above zero nothing changes and nothing is
/// removed. Otherwise the snapshot holds `state` at the last sequence, and the
/// log keeps the events from that sequence on: the last event stays.
pub open spec fn compacted(
    log_before: Seq<crate::store::EventView>,
    log_after: Seq<crate::store::EventView>,
    snapshot_before: Option<SnapshotView>,
    snapshot_after: Option<SnapshotView>,
    state: Seq<u8>,
    version: u8,
    removed: u64,
) -> bool {
    let visible = events_after(log_before, 0);
    if visible.len() == 0 {
        removed == 0 && log_after == log_before && snapshot_after == snapshot_before
    } else {
        let last = visible.last().sequence;
        &&& snapshot_after == Some(SnapshotView { state, at_sequence: last, version })
        &&& log_after == events_from(log_before, last as int)
        &&& removed == log_before.len() - log_after.len()
    }
}

impl<S: EventStore, M: MigrationStep + ?Sized> CrdtDb<S, M> {
    /// The log of an entity.
    pub open spec fn log(&self, namespace: Seq<char>, entity: Seq<char>) -> Seq<
        crate::store::EventView,
    > {
        self.backend().log(namespace, entity)
    }

    /// The snapshot of an entity.
    pub open spec fn snapshot(&self, namespace: Seq<char>, entity: Seq<char>) -> Option<
        SnapshotView,
    > {
        self.backend().snapshot(namespace, entity)
    }

    /// Appends a serialized operation to the log of an entity and returns its
    /// sequence.
    pub fn append_event(
        &mut self,
        namespace: &str,
        entity_id: &str,
        data: &[u8],
        timestamp: u64,
        node_id: &str,
    ) -> (r: Result<u64, DbError<S::Error>>)
        requires
            old(self).inv(),
        ensures
            final(self).inv(),
            final(self).same_setup(old(self)),
            old(self).dependable() ==> final(self).dependable(),
            old(self).room() > 0 ==> r is Ok,
            final(self).room() + 1 >= old(self).room(),
            final(self).state() == old(self).state(),
            r matches Ok(sequence) ==> {
                &&& final(self).log(namespace@, entity_id@) == old(self).log(
                    namespace@,
                    entity_id@,
                ).push(
                    crate::store::EventView {
                        sequence,
                        entity_id: entity_id@,
                        namespace: namespace@,
                        data: data@,
                        timestamp,
                        node_id: node_id@,
                    },
                )
                &&& forall|i: int|
                    0 <= i < old(self).log(namespace@, entity_id@).len() ==> (#[trigger] old(
                        self,
                    ).log(namespace@, entity_id@)[i]).sequence < sequence
                &&& forall|n: Seq<char>, e: Seq<char>|
                    (n, e) != (namespace@, entity_id@) ==> #[trigger] final(self).log(n, e) == old(
                        self,
                    ).log(n, e)
                &&& forall|n: Seq<char>, e: Seq<char>| #[trigger]
                    final(self).snapshot(n, e) == old(self).snapshot(n, e)
            },
            r matches Err(e) ==> e is Store,
    {
        match self.store.append_event(namespace, entity_id, data, timestamp, node_id) {
            Ok(sequence) => Ok(sequence),
            Err(e) => Err(DbError::Store(e)),
        }
    }

    /// The events of an entity with a sequence above `since_sequence`.
    pub fn events_since(&self, namespace: &str, entity_id: &str, since_sequence: u64) -> (r: Result<
        Vec<StoredEvent>,
        DbError<S::Error>,
    >)
        requires
            self.inv(),
        ensures
            self.dependable() ==> r is Ok,
            r matches Ok(events) ==> event_views(events@) == events_after(
                self.log(namespace@, entity_id@),
                since_sequence,
            ),
            r matches Err(e) ==> e is Store,
    {
        match self.store.events_since(namespace, entity_id, since_sequence) {
            Ok(events) => Ok(events),
            Err(e) => Err(DbError::Store(e)),
        }
    }

    /// The number of events in the log of an entity.
    pub fn event_count(&self, namespace: &str, entity_id: &str) -> (r: Result<
        u64,
        DbError<S::Error>,
    >)
        requires
            self.inv(),
        ensures
            self.dependable() ==> r is Ok,
            r matches Ok(n) ==> n == self.log(namespace@, entity_id@).len(),
            r matches Err(e) ==> e is Store,
    {
        match self.store.event_count(namespace, entity_id) {
            Ok(n) => Ok(n),
            Err(e) => Err(DbError::Store(e)),
        }
    }

    /// Saves the snapshot of an entity, replacing an earlier one.
    pub fn save_snapshot(
        &mut self,
        namespace: &str,
        entity_id: &str,
        state: &[u8],
        at_sequence: u64,
        version: u8,
    ) -> (r: Result<(), DbError<S::Error>>)
        requires
            old(self).inv(),
        ensures
            final(self).inv(),
            final(self).same_setup(old(self)),
            old(self).dependable() ==> r is Ok && final(self).dependable(),
            final(self).room() >= old(self).room(),
            r is Ok ==> {
                &&& final(self).snapshot(namespace@, entity_id@) == Some(
                    SnapshotView { state: state@, at_sequence, version },
                )
                &&& forall|n: Seq<char>, e: Seq<char>|
                    (n, e) != (namespace@, entity_id@) ==> #[trigger] final(self).snapshot(n, e)
                        == old(self).snapshot(n, e)
                &&& forall|n: Seq<char>, e: Seq<char>| #[trigger]
                    final(self).log(n, e) == old(self).log(n, e)
                &&& final(self).state() == old(self).state()
            },
            r matches Err(e) ==> e is Store,
    {
        match self.store.save_snapshot(namespace, entity_id, state, at_sequence, version) {
            Ok(()) => Ok(()),
            Err(e) => Err(DbError::Store(e)),
        }
    }

    /// The snapshot of an entity, if one was saved.
    pub fn load_snapshot(&self, namespace: &str, entity_id: &str) -> (r: Result<
        Option<Snapshot>,
        DbError<S::Error>,
    >)
        requires
            self.inv(),
        ensures
            self.dependable() ==> r is Ok,
            r matches Ok(s) ==> snapshot_view(s) == self.snapshot(namespace@, entity_id@),
            r matches Err(e) ==> e is Store,
    {
        match self.store.load_snapshot(namespace, entity_id) {
            Ok(s) => Ok(s),
            Err(e) => Err(DbError::Store(e)),
        }
    }

    /// Saves `state` as the snapshot at the last sequence of the log, then
    /// removes the events before that sequence. Returns how many were removed.
    pub fn compact(&mut self, namespace: &str, entity_id: &str, state: &[u8], version: u8) -> (r:
        Result<u64, DbError<S::Error>>)
        requires
            old(self).inv(),
        ensures
            final(self).inv(),
            final(self).same_setup(old(self)),
            old(self).dependable() ==> r is Ok && final(self).dependable(),
            final(self).room() >= old(self).room(),
            r matches Ok(removed) ==> {
                &&& compacted(
                    old(self).log(namespace@, entity_id@),
                    final(self).log(namespace@, entity_id@),
                    old(self).snapshot(namespace@, entity_id@),
                    final(self).snapshot(namespace@, entity_id@),
                    state@,
                    version,
                    removed,
                )
                &&& forall|n: Seq<char>, e: Seq<char>|
                    (n, e) != (namespace@, entity_id@) ==> #[trigger] final(self).log(n, e) == old(
                        self,
                    ).log(n, e)
                &&& forall|n: Seq<char>, e: Seq<char>|
                    (n, e) != (namespace@, entity_id@) ==> #[trigger] final(self).snapshot(n, e)
                        == old(self).snapshot(n, e)
                &&& final(self).state() == old(self).state()
            },
            r matches Err(e) ==> e is Store,
    {
        let events = match self.store.events_since(namespace, entity_id, 0) {
            Ok(events) => events,
            Err(e) => {
                return Err(DbError::Store(e));
            },
        };
        if events.len() == 0 {
            return Ok(0);
        }
        let max_seq = events[events.len() - 1].sequence;
        proof {
            let views = event_views(events@);
            assert(views.last() == events@[events@.len() - 1]@);
        }
        match self.store.save_snapshot(namespace, entity_id, state, max_seq, version) {
            Ok(()) => {},
            Err(e) => {
                return Err(DbError::Store(e));
            },
        }
        match self.store.truncate_events_before(namespace, entity_id, max_seq) {
            Ok(removed) => Ok(removed),
            Err(e) => Err(DbError::Store(e)),
        }
    }
}

} // verus!
