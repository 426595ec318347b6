//! The storage interface: state by namespace and key, an append-only event
//! log per entity, and one snapshot per entity.

use crate::element::{
    compare_text, lemma_bytes_rank_bounds, lemma_pair_rank, lemma_text_rank_injective, pair_rank,
    text_rank, Element, Replicate,
};
use crate::order::{lemma_lex_order, Order};
use vstd::prelude::*;
use vstd::utf8::encode_utf8;

verus! {

/// An event of an entity's log.
#[derive(Debug, Clone, PartialEq, Eq)]
pub struct StoredEvent {
    /// Position in the log; increases within one entity.
    pub sequence: u64,
    /// The entity the event belongs to.
    pub entity_id: String,
    /// The namespace of the entity.
    pub namespace: String,
    /// The serialized operation.
    pub data: Vec<u8>,
    /// When the event was made.
    pub timestamp: u64,
    /// The node that made the event.
    pub node_id: String,
}

/// A stored event with its texts and bytes as sequences.
pub struct EventView {
    pub sequence: u64,
    pub entity_id: Seq<char>,
    pub namespace: Seq<char>,
    pub data: Seq<u8>,
    pub timestamp: u64,
    pub node_id: Seq<char>,
}

impl View for StoredEvent {
    type V = EventView;

    open spec fn view(&self) -> EventView {
        EventView {
            sequence: self.sequence,
            entity_id: self.entity_id@,
            namespace: self.namespace@,
            data: self.data@,
            timestamp: self.timestamp,
            node_id: self.node_id@,
        }
    }
}

/// A saved state of an entity at a position of its log.
#[derive(Debug, Clone, PartialEq, Eq)]
pub struct Snapshot {
    /// The serialized state.
    pub state: Vec<u8>,
    /// The sequence of the last event that the state includes.
    pub at_sequence: u64,
    /// Schema version of the state.
    pub version: u8,
}

/// A snapshot with its bytes as a sequence.
pub struct SnapshotView {
    pub state: Seq<u8>,
    pub at_sequence: u64,
    pub version: u8,
}

impl View for Snapshot {
    type V = SnapshotView;

    open spec fn view(&self) -> SnapshotView {
        SnapshotView { state: self.state@, at_sequence: self.at_sequence, version: self.version }
    }
}

/// Counts for one namespace.
#[derive(Debug, Clone, PartialEq, Eq)]
pub struct NamespaceInfo {
    pub name: String,
    pub entity_count: u64,
    pub event_count: u64,
    pub snapshot_count: u64,
}

/// Counts for a whole database.
#[derive(Debug, Clone, PartialEq, Eq)]
pub struct DbInfo {
    pub total_entities: u64,
    pub total_events: u64,
    pub total_snapshots: u64,
    pub namespaces: Vec<NamespaceInfo>,
}

/// A namespace and a key in it.
pub type Address = (Seq<char>, Seq<char>);

/// The views of a list of events.
pub open spec fn event_views(events: Seq<StoredEvent>) -> Seq<EventView> {
    events.map_values(|e: StoredEvent| e@)
}

/// The view of bytes that may be absent.
pub open spec fn bytes_view(v: Option<Vec<u8>>) -> Option<Seq<u8>> {
    match v {
        Some(bytes) => Some(bytes@),
        None => None,
    }
}

/// The view of a snapshot that may be absent.
pub open spec fn snapshot_view(v: Option<Snapshot>) -> Option<SnapshotView> {
    match v {
        Some(s) => Some(s@),
        None => None,
    }
}

/// What a map holds under an address, if anything.
pub open spec fn lookup<V>(m: Map<Address, V>, namespace: Seq<char>, key: Seq<char>) -> Option<V> {
    if m.dom().contains((namespace, key)) {
        Some(m[(namespace, key)])
    } else {
        None
    }
}

/// The sequences of a log increase strictly.
pub open spec fn increasing_log(log: Seq<EventView>) -> bool {
    forall|i: int, j: int|
        0 <= i < j < log.len() ==> (#[trigger] log[i]).sequence < (#[trigger] log[j]).sequence
}

/// The events of `log` with a sequence of at least `floor`, in order.
pub open spec fn events_from(log: Seq<EventView>, floor: int) -> Seq<EventView>
    decreases log.len(),
{
    if log.len() == 0 {
        Seq::empty()
    } else if log.last().sequence >= floor {
        events_from(log.drop_last(), floor).push(log.last())
    } else {
        events_from(log.drop_last(), floor)
    }
}

/// The events of `log` with a sequence above `since`, in order.
pub open spec fn events_after(log: Seq<EventView>, since: u64) -> Seq<EventView> {
    events_from(log, since + 1)
}

/// What is kept of a log is part of it: no longer, and increasing where the
/// log is.
pub proof fn lemma_events_from(log: Seq<EventView>, floor: int)
    ensures
        events_from(log, floor).len() <= log.len(),
        forall|i: int|
            0 <= i < events_from(log, floor).len() ==> (#[trigger] events_from(
                log,
                floor,
            )[i]).sequence >= floor && log.contains(events_from(log, floor)[i]),
        increasing_log(log) ==> increasing_log(events_from(log, floor)),
        increasing_log(log) && log.len() > 0 && log.last().sequence >= floor ==> events_from(
            log,
            floor,
        ).len() > 0 && events_from(log, floor).last() == log.last(),
    decreases log.len(),
{
    if log.len() > 0 {
        let front = log.drop_last();
        lemma_events_from(front, floor);
        let kept = events_from(log, floor);
        let kept_front = events_from(front, floor);
        assert forall|i: int| 0 <= i < kept.len() implies (#[trigger] kept[i]).sequence >= floor
            && log.contains(kept[i]) by {
            if i < kept_front.len() {
                assert(front.contains(kept_front[i]));
                let j = choose|j: int| 0 <= j < front.len() && front[j] == kept_front[i];
                assert(log[j] == kept[i]);
            } else {
                assert(log[log.len() - 1] == kept[i]);
            }
        }
        if increasing_log(log) {
            assert(increasing_log(front)) by {
                assert forall|i: int, j: int| 0 <= i < j < front.len() implies (#[trigger] front[i]).sequence
                    < (#[trigger] front[j]).sequence by {
                    assert(log[i].sequence < log[j].sequence);
                }
            }
            assert forall|i: int, j: int| 0 <= i < j < kept.len() implies (#[trigger] kept[i]).sequence
                < (#[trigger] kept[j]).sequence by {
                if j == kept_front.len() {
                    assert(front.contains(kept_front[i]));
                    let m = choose|m: int| 0 <= m < front.len() && front[m] == kept_front[i];
                    assert(log[m].sequence < log[log.len() - 1].sequence);
                } else {
                    assert(kept_front[i].sequence < kept_front[j].sequence);
                }
            }
        }
    }
}

/// The keys are exactly the keys of `namespace` in `state`, each once.
pub open spec fn lists_keys(keys: Seq<String>, state: Map<Address, Seq<u8>>, namespace: Seq<char>)
    -> bool {
    &&& forall|i: int|
        0 <= i < keys.len() ==> state.dom().contains((namespace, #[trigger] keys[i]@))
    &&& forall|k: Seq<char>|
        state.dom().contains((namespace, k)) ==> exists|i: int|
            0 <= i < keys.len() && #[trigger] keys[i]@ == k
    &&& forall|i: int, j: int|
        0 <= i < j < keys.len() ==> #[trigger] keys[i]@ != #[trigger] keys[j]@
}

/// An error of a backend that can be rendered as a message.
pub trait ErrorText {
    /// The message of the error. An implementation that is not verified
    /// leaves it unspecified.
    open spec fn text_of(&self) -> Seq<char> {
        arbitrary()
    }

    /// Renders the error as a printable message.
    fn text(&self) -> (s: String)
        ensures
            s@ == self.text_of(),
    ;
}

/// What reading a value tells of its presence: a value that was read is
/// there, none that was read is not, and a failed read tells nothing and hands
/// its error on.
pub open spec fn presence<E>(got: Result<Option<Vec<u8>>, E>) -> Result<bool, E> {
    match got {
        Ok(value) => Ok(value is Some),
        Err(e) => Err(e),
    }
}

/// Answers whether a value is there from the outcome of reading it.
pub fn presence_of<E>(got: Result<Option<Vec<u8>>, E>) -> (r: Result<bool, E>)
    ensures
        r == presence(got),
{
    match got {
        Ok(value) => Ok(value.is_some()),
        Err(e) => Err(e),
    }
}

/// Key and value storage, partitioned by namespace. Values are opaque bytes.
///
/// Any operation may fail; what a successful operation did is stated over
/// `state`, the map from address to value. A backend whose operations cannot
/// fail says so by `dependable`.
pub trait StateStore {
    /// What a failed operation returns.
    type Error: ErrorText;

    /// The store is in a consistent condition.
    open spec fn inv(&self) -> bool {
        arbitrary()
    }

    /// The stored values by address.
    open spec fn state(&self) -> Map<Address, Seq<u8>> {
        arbitrary()
    }

    /// No operation of this store fails, but for appending an event to a
    /// store that cannot take one. Unless a backend promises it, it is false.
    open spec fn dependable(&self) -> bool {
        false
    }

    /// How many events the store is sure to take yet. It is zero unless a
    /// backend that keeps event logs promises more.
    open spec fn room(&self) -> nat {
        0
    }

    /// Stores `value` under `(namespace, key)`, replacing what was there. A
    /// failed write leaves the stored values as they were.
    fn put(&mut self, namespace: &str, key: &str, value: &[u8]) -> (r: Result<(), Self::Error>)
        requires
            old(self).inv(),
        ensures
            final(self).inv(),
            old(self).dependable() ==> r is Ok && final(self).dependable(),
            final(self).room() >= old(self).room(),
            r is Ok ==> final(self).state() == old(self).state().insert(
                (namespace@, key@),
                value@,
            ),
            r is Err ==> final(self).state() == old(self).state(),
    ;

    /// The value under `(namespace, key)`, if there is one.
    fn get(&self, namespace: &str, key: &str) -> (r: Result<Option<Vec<u8>>, Self::Error>)
        requires
            self.inv(),
        ensures
            self.dependable() ==> r is Ok,
            r matches Ok(v) ==> bytes_view(v) == lookup(self.state(), namespace@, key@),
    ;

    /// Removes what is stored under `(namespace, key)`. A failed removal
    /// leaves the stored values as they were.
    fn delete(&mut self, namespace: &str, key: &str) -> (r: Result<(), Self::Error>)
        requires
            old(self).inv(),
        ensures
            final(self).inv(),
            old(self).dependable() ==> r is Ok && final(self).dependable(),
            final(self).room() >= old(self).room(),
            r is Ok ==> final(self).state() == old(self).state().remove((namespace@, key@)),
            r is Err ==> final(self).state() == old(self).state(),
    ;

    /// The keys of a namespace.
    fn list_keys(&self, namespace: &str) -> (r: Result<Vec<String>, Self::Error>)
        requires
            self.inv(),
        ensures
            self.dependable() ==> r is Ok,
            r matches Ok(keys) ==> lists_keys(keys@, self.state(), namespace@),
    ;

    /// Whether something is stored under `(namespace, key)`. Unless a backend
    /// has a better way, it reads the value.
    fn exists_key(&self, namespace: &str, key: &str) -> (r: Result<bool, Self::Error>)
        requires
            self.inv(),
        ensures
            self.dependable() ==> r is Ok,
            r matches Ok(b) ==> b == self.state().dom().contains((namespace@, key@)),
    {
        presence_of(self.get(namespace, key))
    }
}

/// An append-only event log and one snapshot per entity.
///
/// `log` is the log of an entity in order of sequence; `snapshot` is its
/// snapshot. Within one log the sequences increase strictly.
pub trait EventStore: StateStore {
    /// The log of an entity.
    open spec fn log(&self, namespace: Seq<char>, entity: Seq<char>) -> Seq<EventView> {
        arbitrary()
    }

    /// The snapshot of an entity.
    open spec fn snapshot(&self, namespace: Seq<char>, entity: Seq<char>) -> Option<SnapshotView> {
        arbitrary()
    }

    /// Appends an event to the log of an entity and returns its sequence,
    /// which is above every sequence of that log. A store with room takes
    /// the event.
    fn append_event(
        &mut self,
        namespace: &str,
        entity_id: &str,
        data: &[u8],
        timestamp: u64,
        node_id: &str,
    ) -> (r: Result<u64, Self::Error>)
        requires
            old(self).inv(),
        ensures
            final(self).inv(),
            old(self).dependable() ==> final(self).dependable(),
            old(self).room() > 0 ==> r is Ok,
            final(self).room() + 1 >= old(self).room(),
            r is Err ==> final(self).state() == old(self).state(),
            r matches Ok(sequence) ==> {
                &&& final(self).log(namespace@, entity_id@) == old(self).log(
                    namespace@,
                    entity_id@,
                ).push(
                    EventView {
                        sequence,
                        entity_id: entity_id@,
                        namespace: namespace@,
                        data: data@,
                        timestamp,
                        node_id: node_id@,
                    },
                )
                &&& forall|i: int|
                    0 <= i < old(self).log(namespace@, entity_id@).len() ==> (#[trigger] old(
                        self,
                    ).log(namespace@, entity_id@)[i]).sequence < sequence
                &&& forall|n: Seq<char>, e: Seq<char>|
                    (n, e) != (namespace@, entity_id@) ==> #[trigger] final(self).log(n, e) == old(
                        self,
                    ).log(n, e)
                &&& forall|n: Seq<char>, e: Seq<char>| #[trigger]
                    final(self).snapshot(n, e) == old(self).snapshot(n, e)
                &&& final(self).state() == old(self).state()
            },
    ;

    /// The events of an entity with a sequence above `since_sequence`, in
    /// increasing order of sequence.
    fn events_since(&self, namespace: &str, entity_id: &str, since_sequence: u64) -> (r: Result<
        Vec<StoredEvent>,
        Self::Error,
    >)
        requires
            self.inv(),
        ensures
            self.dependable() ==> r is Ok,
            r matches Ok(events) ==> event_views(events@) == events_after(
                self.log(namespace@, entity_id@),
                since_sequence,
            ),
    ;

    /// The number of events in the log of an entity.
    fn event_count(&self, namespace: &str, entity_id: &str) -> (r: Result<u64, Self::Error>)
        requires
            self.inv(),
        ensures
            self.dependable() ==> r is Ok,
            r matches Ok(n) ==> n == self.log(namespace@, entity_id@).len(),
    ;

    /// Saves the snapshot of an entity, replacing an earlier one.
    fn save_snapshot(
        &mut self,
        namespace: &str,
        entity_id: &str,
        state: &[u8],
        at_sequence: u64,
        version: u8,
    ) -> (r: Result<(), Self::Error>)
        requires
            old(self).inv(),
        ensures
            final(self).inv(),
            old(self).dependable() ==> r is Ok && final(self).dependable(),
            final(self).room() >= old(self).room(),
            r is Ok ==> {
                &&& final(self).snapshot(namespace@, entity_id@) == Some(
                    SnapshotView { state: state@, at_sequence, version },
                )
                &&& forall|n: Seq<char>, e: Seq<char>|
                    (n, e) != (namespace@, entity_id@) ==> #[trigger] final(self).snapshot(n, e)
                        == old(self).snapshot(n, e)
                &&& forall|n: Seq<char>, e: Seq<char>| #[trigger]
                    final(self).log(n, e) == old(self).log(n, e)
                &&& final(self).state() == old(self).state()
            },
    ;

    /// The snapshot of an entity, if one was saved.
    fn load_snapshot(&self, namespace: &str, entity_id: &str) -> (r: Result<
        Option<Snapshot>,
        Self::Error,
    >)
        requires
            self.inv(),
        ensures
            self.dependable() ==> r is Ok,
            r matches Ok(s) ==> snapshot_view(s) == self.snapshot(namespace@, entity_id@),
    ;

    /// Removes the events of an entity with a sequence below
    /// `before_sequence` and returns how many were removed.
    fn truncate_events_before(&mut self, namespace: &str, entity_id: &str, before_sequence: u64)
        -> (r: Result<u64, Self::Error>)
        requires
            old(self).inv(),
        ensures
            final(self).inv(),
            old(self).dependable() ==> r is Ok && final(self).dependable(),
            final(self).room() >= old(self).room(),
            r matches Ok(removed) ==> {
                &&& final(self).log(namespace@, entity_id@) == events_from(
                    old(self).log(namespace@, entity_id@),
                    before_sequence as int,
                )
                &&& removed == old(self).log(namespace@, entity_id@).len() - final(self).log(
                    namespace@,
                    entity_id@,
                ).len()
                &&& forall|n: Seq<char>, e: Seq<char>|
                    (n, e) != (namespace@, entity_id@) ==> #[trigger] final(self).log(n, e) == old(
                        self,
                    ).log(n, e)
                &&& forall|n: Seq<char>, e: Seq<char>| #[trigger]
                    final(self).snapshot(n, e) == old(self).snapshot(n, e)
                &&& final(self).state() == old(self).state()
            },
    ;
}

/// The stored values after writing a batch of entries into a namespace, one
/// after the other.
pub open spec fn batch_written(
    state: Map<Address, Seq<u8>>,
    namespace: Seq<char>,
    entries: Seq<(&str, &[u8])>,
) -> Map<Address, Seq<u8>>
    decreases entries.len(),
{
    if entries.len() == 0 {
        state
    } else {
        batch_written(state, namespace, entries.drop_last()).insert(
            (namespace, entries.last().0@),
            entries.last().1@,
        )
    }
}

/// A backend that runs several operations as one: all of them or none.
pub trait Transactional: StateStore {
    /// Runs `f` on the store. Where `f` fails, the stored values are as
    /// before.
    fn transaction<F, R>(&mut self, f: F) -> (r: Result<R, Self::Error>) where
        F: FnOnce(&mut Self) -> Result<R, Self::Error>,

        requires
            old(self).inv(),
        ensures
            final(self).inv(),
            r is Err ==> final(self).state() == old(self).state(),
    ;
}

/// A backend that stores several values at once.
pub trait BatchOps: StateStore {
    /// Stores all entries in a namespace, or none of them.
    fn put_batch(&mut self, namespace: &str, entries: &[(&str, &[u8])]) -> (r: Result<
        (),
        Self::Error,
    >)
        requires
            old(self).inv(),
        ensures
            final(self).inv(),
            old(self).dependable() ==> r is Ok && final(self).dependable(),
            final(self).room() >= old(self).room(),
            r is Ok ==> final(self).state() == batch_written(
                old(self).state(),
                namespace@,
                entries@,
            ),
            r is Err ==> final(self).state() == old(self).state(),
    ;
}

/// A namespace and a key as one key of a sorted map, ordered by namespace and
/// then by key.
#[derive(Debug, Clone, PartialEq, Eq)]
pub struct NsKey {
    pub namespace: String,
    pub key: String,
}

impl View for NsKey {
    type V = Address;

    open spec fn view(&self) -> Address {
        (self.namespace@, self.key@)
    }
}

impl NsKey {
    /// Makes the key for `(namespace, key)`.
    pub fn new(namespace: &str, key: &str) -> (k: Self)
        ensures
            k@ == (namespace@, key@),
    {
        NsKey { namespace: namespace.to_owned(), key: key.to_owned() }
    }
}

impl Replicate for NsKey {
    fn replicate(&self) -> (r: Self) {
        NsKey { namespace: self.namespace.clone(), key: self.key.clone() }
    }
}

impl Element for NsKey {
    open spec fn rank(v: Address) -> Seq<int> {
        pair_rank(text_rank(v.0), text_rank(v.1))
    }

    proof fn lemma_rank_injective(a: Address, b: Address) {
        lemma_bytes_rank_bounds(encode_utf8(a.0));
        lemma_bytes_rank_bounds(encode_utf8(b.0));
        lemma_pair_rank(text_rank(a.0), text_rank(a.1), text_rank(b.0), text_rank(b.1));
        lemma_text_rank_injective(a.0, b.0);
        lemma_text_rank_injective(a.1, b.1);
    }

    fn order(&self, other: &Self) -> (o: Order) {
        proof {
            lemma_bytes_rank_bounds(encode_utf8(self@.0));
            lemma_bytes_rank_bounds(encode_utf8(other@.0));
            lemma_pair_rank(
                text_rank(self@.0),
                text_rank(self@.1),
                text_rank(other@.0),
                text_rank(other@.1),
            );
            lemma_lex_order(text_rank(self@.0), text_rank(other@.0));
            lemma_lex_order(text_rank(self@.1), text_rank(other@.1));
            lemma_lex_order(Self::rank(self@), Self::rank(other@));
        }
        match compare_text(self.namespace.as_str(), other.namespace.as_str()) {
            Order::Less => Order::Less,
            Order::Greater => Order::Greater,
            Order::Equal => compare_text(self.key.as_str(), other.key.as_str()),
        }
    }
}

} // verus!
