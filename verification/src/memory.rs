//! The reference backend: all three stores in memory, in ordered maps.
//!
//! One counter supplies the sequences of all logs, so sequences increase
//! within every log.

use crate::element::same_text;
use crate::sorted_map::SortedMap;
use crate::store::{
    batch_written, event_views, events_from, increasing_log, lemma_events_from, Address, BatchOps,
    ErrorText, EventStore, EventView, NsKey, Snapshot, SnapshotView, StateStore, StoredEvent,
};
use vstd::prelude::*;
use vstd::slice::slice_to_vec;
use vstd::string::StringExecFns;

verus! {

/// The error of the in-memory backend: the sequence counter is used up.
#[derive(Debug, Clone, PartialEq, Eq)]
pub struct MemoryError(pub String);

impl ErrorText for MemoryError {
    open spec fn text_of(&self) -> Seq<char> {
        "MemoryStore error: "@ + self.0@
    }

    fn text(&self) -> (s: String) {
        let mut s = String::from_str("MemoryStore error: ");
        s.append(self.0.as_str());
        s
    }
}

impl MemoryError {
    /// Renders the error as a printable message.
    pub fn to_string(&self) -> (s: String)
        ensures
            s@ == "MemoryStore error: "@ + self.0@,
    {
        self.text()
    }
}

impl StoredEvent {
    /// Returns a copy of the event.
    pub fn replicate(&self) -> (r: Self)
        ensures
            r@ == self@,
    {
        StoredEvent {
            sequence: self.sequence,
            entity_id: self.entity_id.clone(),
            namespace: self.namespace.clone(),
            data: slice_to_vec(self.data.as_slice()),
            timestamp: self.timestamp,
            node_id: self.node_id.clone(),
        }
    }
}

impl Snapshot {
    /// Returns a copy of the snapshot.
    pub fn replicate(&self) -> (r: Self)
        ensures
            r@ == self@,
    {
        Snapshot {
            state: slice_to_vec(self.state.as_slice()),
            at_sequence: self.at_sequence,
            version: self.version,
        }
    }
}

/// A log increases strictly and stays below the next sequence to hand out.
pub open spec fn log_ok(log: Seq<StoredEvent>, next: u64) -> bool {
    &&& increasing_log(event_views(log))
    &&& forall|j: int| 0 <= j < log.len() ==> (#[trigger] log[j]).sequence < next
}

/// Storage in memory.
pub struct MemoryStore {
    state: SortedMap<NsKey, Vec<u8>>,
    events: SortedMap<NsKey, Vec<StoredEvent>>,
    snapshots: SortedMap<NsKey, Snapshot>,
    next_sequence: u64,
}

impl MemoryStore {
    /// The sequence that the next appended event gets.
    pub closed spec fn next(&self) -> u64 {
        self.next_sequence
    }

    /// The number of stored values.
    pub closed spec fn spec_state_count(&self) -> nat {
        self.state.keys@.len()
    }

    /// The number of events in the first `n` logs.
    pub closed spec fn events_in(&self, n: int) -> int
        decreases n,
    {
        if n <= 0 {
            0
        } else {
            self.events_in(n - 1) + self.events.vals@[n - 1]@.len()
        }
    }

    /// The number of events in all logs.
    pub closed spec fn spec_total_events(&self) -> int {
        self.events_in(self.events.vals@.len() as int)
    }

    /// Creates an empty store. The first sequence it hands out is 1.
    pub fn new() -> (s: Self)
        ensures
            s.inv(),
            s.next() == 1,
            s.state() == Map::<Address, Seq<u8>>::empty(),
            forall|n: Seq<char>, e: Seq<char>| #[trigger] s.log(n, e) == Seq::<EventView>::empty(),
            forall|n: Seq<char>, e: Seq<char>| #[trigger] s.snapshot(n, e) is None,
            s.spec_state_count() == 0,
            s.spec_total_events() == 0,
    {
        let s = MemoryStore {
            state: SortedMap::new(),
            events: SortedMap::new(),
            snapshots: SortedMap::new(),
            next_sequence: 1,
        };
        assert(s.state() =~= Map::<Address, Seq<u8>>::empty());
        s
    }

    /// The number of stored values, over all namespaces.
    pub fn state_count(&self) -> (n: usize)
        requires
            self.inv(),
        ensures
            n == self.spec_state_count(),
            n == self.state().dom().len(),
    {
        proof {
            self.lemma_state_count();
        }
        self.state.len()
    }

    /// The stored values are as many as the addresses of `state`.
    proof fn lemma_state_count(&self)
        requires
            self.inv(),
        ensures
            self.state().dom().finite(),
            self.state().dom().len() == self.state.keys@.len(),
    {
        let views = self.state.key_views();
        assert(views.no_duplicates()) by {
            assert forall|i: int, j: int| 0 <= i < views.len() && 0 <= j < views.len() && i
                != j implies views[i] != views[j] by {
                self.state.lemma_position(i);
                self.state.lemma_position(j);
            }
        }
        views.unique_seq_to_set();
        assert(views.to_set() =~= self.state().dom()) by {
            assert forall|a: Address| views.to_set().contains(a) <==> self.state().dom().contains(
                a,
            ) by {
                if views.contains(a) {
                    let i = choose|i: int| 0 <= i < views.len() && views[i] == a;
                    assert(self.state.keys@[i]@ == a);
                }
                if self.state.has(a) {
                    let i = self.state.index_of(a);
                    assert(views[i] == a);
                }
            }
        }
    }

    /// The number of events, over all entities.
    pub fn total_event_count(&self) -> (n: usize)
        requires
            self.inv(),
            self.spec_total_events() <= usize::MAX,
        ensures
            n == self.spec_total_events(),
    {
        let mut total: usize = 0;
        let mut i: usize = 0;
        while i < self.events.vals.len()
            invariant
                i <= self.events.vals@.len(),
                total == self.events_in(i as int),
                self.spec_total_events() <= usize::MAX,
            decreases self.events.vals@.len() - i,
        {
            proof {
                self.lemma_events_in_monotone(i as int + 1, self.events.vals@.len() as int);
            }
            total = total + self.events.vals[i].len();
            i += 1;
        }
        total
    }

    /// More logs hold at least as many events.
    proof fn lemma_events_in_monotone(&self, a: int, b: int)
        requires
            0 <= a <= b,
        ensures
            0 <= self.events_in(a) <= self.events_in(b),
        decreases b,
    {
        if a < b {
            self.lemma_events_in_monotone(a, b - 1);
        } else if a > 0 {
            self.lemma_events_in_monotone(a - 1, a - 1);
        }
    }

    /// In a consistent store every log increases strictly, and stays below
    /// the next sequence.
    pub proof fn lemma_log_increasing(&self, namespace: Seq<char>, entity: Seq<char>)
        requires
            self.inv(),
        ensures
            increasing_log(self.log(namespace, entity)),
            forall|i: int|
                0 <= i < self.log(namespace, entity).len() ==> (#[trigger] self.log(
                    namespace,
                    entity,
                )[i]).sequence < self.next(),
    {
        if self.events.has((namespace, entity)) {
            let i = self.events.index_of((namespace, entity));
            let log = self.events.vals@[i]@;
            assert(log_ok(log, self.next_sequence));
            assert forall|j: int| 0 <= j < event_views(log).len() implies (#[trigger] event_views(
                log,
            )[j]).sequence < self.next_sequence by {
                assert(event_views(log)[j] == log[j]@);
            }
        }
    }

    /// The key of a sorted map for `(namespace, key)`.
    pub fn ns_key(namespace: &str, key: &str) -> (k: NsKey)
        ensures
            k@ == (namespace@, key@),
    {
        NsKey::new(namespace, key)
    }
}

impl Default for MemoryStore {
    fn default() -> (s: Self)
        ensures
            s.inv(),
            s.state() == Map::<Address, Seq<u8>>::empty(),
    {
        Self::new()
    }
}

impl StateStore for MemoryStore {
    type Error = MemoryError;

    closed spec fn inv(&self) -> bool {
        &&& self.state.wf()
        &&& self.events.wf()
        &&& self.snapshots.wf()
        &&& forall|i: int|
            0 <= i < self.events.vals@.len() ==> log_ok(
                (#[trigger] self.events.vals@[i])@,
                self.next_sequence,
            )
    }

    /// The store in memory never fails to read or to write.
    open spec fn dependable(&self) -> bool {
        true
    }

    /// The store takes an event as long as a sequence is left to give.
    open spec fn room(&self) -> nat {
        (u64::MAX - self.next()) as nat
    }

    closed spec fn state(&self) -> Map<Address, Seq<u8>> {
        Map::new(|a: Address| self.state.has(a), |a: Address| self.state.value_of(a)@)
    }

    fn put(&mut self, namespace: &str, key: &str, value: &[u8]) -> (r: Result<(), MemoryError>)
        ensures
            r is Ok,
    {
        let k = Self::ns_key(namespace, key);
        let v = slice_to_vec(value);
        self.state.insert(k, v);
        assert(self.state() =~= old(self).state().insert((namespace@, key@), value@)) by {
            assert forall|a: Address| self.state.has(a) && a != (namespace@, key@) implies self.state.value_of(
                a,
            ) == old(self).state.value_of(a) by {
                assert(self.state.as_map()[a] == old(self).state.as_map()[a]);
            }
        }
        Ok(())
    }

    fn get(&self, namespace: &str, key: &str) -> (r: Result<Option<Vec<u8>>, MemoryError>)
        ensures
            r is Ok,
    {
        let k = Self::ns_key(namespace, key);
        match self.state.get(&k) {
            Some(v) => Ok(Some(slice_to_vec(v.as_slice()))),
            None => Ok(None),
        }
    }

    fn delete(&mut self, namespace: &str, key: &str) -> (r: Result<(), MemoryError>)
        ensures
            r is Ok,
    {
        let k = Self::ns_key(namespace, key);
        let _ = self.state.remove(&k);
        assert(self.state() =~= old(self).state().remove((namespace@, key@))) by {
            assert forall|a: Address| self.state.has(a) implies self.state.value_of(a) == old(
                self,
            ).state.value_of(a) by {
                assert(self.state.as_map()[a] == old(self).state.as_map()[a]);
            }
        }
        Ok(())
    }

    /// The keys come in increasing order.
    fn list_keys(&self, namespace: &str) -> (r: Result<Vec<String>, MemoryError>)
        ensures
            r is Ok,
            r matches Ok(keys) ==> forall|k: int, l: int|
                0 <= k < l < keys@.len() ==> crate::order::lex_less(
                    crate::element::text_rank(#[trigger] keys@[k]@),
                    crate::element::text_rank(#[trigger] keys@[l]@),
                ),
    {
        let mut keys: Vec<String> = Vec::new();
        let ghost mut from: Seq<int> = Seq::empty();
        let mut i: usize = 0;
        while i < self.state.keys.len()
            invariant
                self.state.wf(),
                i <= self.state.keys@.len(),
                from.len() == keys@.len(),
                forall|k: int|
                    0 <= k < from.len() ==> 0 <= #[trigger] from[k] < i && self.state.keys@[from[k]]@
                        == (namespace@, keys@[k]@),
                forall|k: int, l: int| 0 <= k < l < from.len() ==> from[k] < from[l],
                forall|j: int|
                    0 <= j < i && (#[trigger] self.state.keys@[j])@.0 == namespace@ ==> exists|k: int|
                        0 <= k < from.len() && #[trigger] from[k] == j,
            decreases self.state.keys@.len() - i,
        {
            let entry = self.state.key_at(i);
            if same_text(entry.namespace.as_str(), namespace) {
                keys.push(entry.key.clone());
                proof {
                    let ghost before = from;
                    from = from.push(i as int);
                    assert forall|j: int|
                        0 <= j < i + 1 && (#[trigger] self.state.keys@[j])@.0
                            == namespace@ implies exists|k: int|
                        0 <= k < from.len() && #[trigger] from[k] == j by {
                        if j < i {
                            let k = choose|k: int| 0 <= k < before.len() && #[trigger] before[k] == j;
                            assert(from[k] == j);
                        } else {
                            assert(from[before.len() as int] == j);
                        }
                    }
                }
            }
            i += 1;
        }
        proof {
            let state = self.state();
            assert forall|k: int| 0 <= k < keys@.len() implies state.dom().contains(
                (namespace@, #[trigger] keys@[k]@),
            ) by {
                assert(self.state.keys@[from[k]]@ == (namespace@, keys@[k]@));
            }
            assert forall|t: Seq<char>| state.dom().contains((namespace@, t)) implies exists|k: int|
                0 <= k < keys@.len() && #[trigger] keys@[k]@ == t by {
                let j = self.state.index_of((namespace@, t));
                assert(self.state.keys@[j]@.0 == namespace@);
                let k = choose|k: int| 0 <= k < from.len() && #[trigger] from[k] == j;
                assert(keys@[k]@ == t);
            }
            assert forall|k: int, l: int| 0 <= k < l < keys@.len() implies #[trigger] keys@[k]@
                != #[trigger] keys@[l]@ by {
                if keys@[k]@ == keys@[l]@ {
                    self.state.lemma_position(from[k]);
                    self.state.lemma_position(from[l]);
                }
            }
            assert forall|k: int, l: int| 0 <= k < l < keys@.len() implies crate::order::lex_less(
                crate::element::text_rank(#[trigger] keys@[k]@),
                crate::element::text_rank(#[trigger] keys@[l]@),
            ) by {
                let a = self.state.keys@[from[k]]@;
                let b = self.state.keys@[from[l]]@;
                assert(crate::order::lex_less(
                    self.state.ranks()[from[k]],
                    self.state.ranks()[from[l]],
                ));
                crate::element::lemma_bytes_rank_bounds(vstd::utf8::encode_utf8(a.0));
                crate::element::lemma_bytes_rank_bounds(vstd::utf8::encode_utf8(b.0));
                crate::element::lemma_pair_rank(
                    crate::element::text_rank(a.0),
                    crate::element::text_rank(a.1),
                    crate::element::text_rank(b.0),
                    crate::element::text_rank(b.1),
                );
                crate::order::lemma_lex_irreflexive(crate::element::text_rank(a.0));
            }
        }
        Ok(keys)
    }

    fn exists_key(&self, namespace: &str, key: &str) -> (r: Result<bool, MemoryError>)
        ensures
            r is Ok,
    {
        let k = Self::ns_key(namespace, key);
        Ok(self.state.contains_key(&k))
    }
}

impl BatchOps for MemoryStore {
    fn put_batch(&mut self, namespace: &str, entries: &[(&str, &[u8])]) -> (r: Result<
        (),
        MemoryError,
    >)
        ensures
            r is Ok,
    {
        let mut i: usize = 0;
        assert(entries@.take(0) =~= Seq::<(&str, &[u8])>::empty());
        while i < entries.len()
            invariant
                self.inv(),
                i <= entries@.len(),
                self.state() == batch_written(old(self).state(), namespace@, entries@.take(i as int)),
                self.room() >= old(self).room(),
            decreases entries@.len() - i,
        {
            proof {
                let next = entries@.take(i + 1);
                assert(next.drop_last() =~= entries@.take(i as int));
                assert(next.last() == entries@[i as int]);
            }
            let _ = self.put(namespace, entries[i].0, entries[i].1);
            i += 1;
        }
        assert(entries@.take(i as int) =~= entries@);
        Ok(())
    }
}

impl EventStore for MemoryStore {
    closed spec fn log(&self, namespace: Seq<char>, entity: Seq<char>) -> Seq<EventView> {
        if self.events.has((namespace, entity)) {
            event_views(self.events.value_of((namespace, entity))@)
        } else {
            Seq::empty()
        }
    }

    closed spec fn snapshot(&self, namespace: Seq<char>, entity: Seq<char>) -> Option<
        SnapshotView,
    > {
        if self.snapshots.has((namespace, entity)) {
            Some(self.snapshots.value_of((namespace, entity))@)
        } else {
            None
        }
    }

    /// Fails only when the sequence counter is used up.
    fn append_event(
        &mut self,
        namespace: &str,
        entity_id: &str,
        data: &[u8],
        timestamp: u64,
        node_id: &str,
    ) -> (r: Result<u64, MemoryError>)
        ensures
            r is Ok <==> old(self).next() < u64::MAX,
            r matches Ok(sequence) ==> sequence == old(self).next() && final(self).next()
                == sequence + 1,
            r is Err ==> final(self).next() == old(self).next(),
    {
        let seq = self.next_sequence;
        if seq == u64::MAX {
            return Err(MemoryError(String::from_str("sequence counter exhausted")));
        }
        let event = StoredEvent {
            sequence: seq,
            entity_id: entity_id.to_owned(),
            namespace: namespace.to_owned(),
            data: slice_to_vec(data),
            timestamp,
            node_id: node_id.to_owned(),
        };
        let ghost ev = event@;
        let k = Self::ns_key(namespace, entity_id);
        let (pos, found) = self.events.search(&k);
        if found {
            let slot = self.events.value_at_mut(pos);
            slot.push(event);
            proof {
                let new_log = self.events.vals@[pos as int];
                old(self).events.lemma_update_value(&self.events, pos as int, new_log);
                old(self).events.lemma_position(pos as int);
                let old_log = old(self).events.vals@[pos as int];
                assert(log_ok(old_log@, seq));
                assert(event_views(new_log@) =~= event_views(old_log@).push(ev));
            }
        } else {
            let mut fresh: Vec<StoredEvent> = Vec::new();
            fresh.push(event);
            self.events.insert_at(pos, k, fresh);
            proof {
                assert(event_views(fresh@) =~= Seq::<EventView>::empty().push(ev));
                assert(self.events.as_map()[(namespace@, entity_id@)] == fresh);
            }
        }
        self.next_sequence = seq + 1;
        proof {
            let key = (namespace@, entity_id@);
            assert forall|n: Seq<char>, e: Seq<char>| (n, e) != key implies #[trigger] self.log(n, e)
                == old(self).log(n, e) by {
                if old(self).events.has((n, e)) {
                    assert(self.events.as_map()[(n, e)] == old(self).events.as_map()[(n, e)]);
                }
            }
            assert forall|i: int| 0 <= i < self.events.vals@.len() implies log_ok(
                (#[trigger] self.events.vals@[i])@,
                self.next_sequence,
            ) by {
                self.events.lemma_position(i);
                let a = self.events.keys@[i]@;
                if a == key {
                    let log = self.events.vals@[i]@;
                    let views = event_views(log);
                    assert(views == old(self).log(namespace@, entity_id@).push(ev));
                    if old(self).events.has(key) {
                        let oi = old(self).events.index_of(key);
                        assert(log_ok(old(self).events.vals@[oi]@, seq));
                        let old_log = old(self).events.vals@[oi]@;
                        assert(event_views(old_log) == old(self).log(namespace@, entity_id@));
                        assert(log.len() == old_log.len() + 1);
                        assert forall|j: int| 0 <= j < log.len() implies (#[trigger] log[j]).sequence
                            < self.next_sequence by {
                            assert(views[j] == log[j]@);
                            if j < old_log.len() {
                                assert(event_views(old_log)[j] == old_log[j]@);
                                assert(old_log[j].sequence < seq);
                            }
                        }
                        assert forall|x: int, y: int| 0 <= x < y < views.len() implies (#[trigger] views[x]).sequence
                            < (#[trigger] views[y]).sequence by {
                            assert(event_views(old_log)[x] == old_log[x]@);
                            assert(old_log[x].sequence < seq);
                            if y < old_log.len() {
                                assert(event_views(old_log)[x].sequence < event_views(
                                    old_log,
                                )[y].sequence);
                            }
                        }
                    } else {
                        assert(views.len() == 1);
                        assert(views[0] == log[0]@);
                    }
                } else {
                    assert(old(self).events.has(a));
                    let oi = old(self).events.index_of(a);
                    assert(log_ok(old(self).events.vals@[oi]@, seq));
                    assert(self.events.as_map()[a] == old(self).events.as_map()[a]);
                }
            }
        }
        Ok(seq)
    }

    fn events_since(&self, namespace: &str, entity_id: &str, since_sequence: u64) -> (r: Result<
        Vec<StoredEvent>,
        MemoryError,
    >)
        ensures
            r is Ok,
    {
        let k = Self::ns_key(namespace, entity_id);
        let mut out: Vec<StoredEvent> = Vec::new();
        match self.events.get(&k) {
            None => {
                assert(event_views(out@) =~= Seq::<EventView>::empty());
            },
            Some(log) => {
                let ghost views = event_views(log@);
                let mut i: usize = 0;
                assert(views.take(0) =~= Seq::<EventView>::empty());
                assert(event_views(out@) =~= Seq::<EventView>::empty());
                while i < log.len()
                    invariant
                        i <= log@.len(),
                        views == event_views(log@),
                        event_views(out@) == events_from(views.take(i as int), since_sequence + 1),
                    decreases log@.len() - i,
                {
                    proof {
                        let next = views.take(i + 1);
                        assert(next.drop_last() =~= views.take(i as int));
                        assert(next.last() == log@[i as int]@);
                    }
                    if log[i].sequence > since_sequence {
                        let ghost before = out@;
                        out.push(log[i].replicate());
                        assert(event_views(out@) =~= event_views(before).push(log@[i as int]@));
                    }
                    i += 1;
                }
                assert(views.take(i as int) =~= views);
            },
        }
        Ok(out)
    }

    fn event_count(&self, namespace: &str, entity_id: &str) -> (r: Result<u64, MemoryError>)
        ensures
            r is Ok,
    {
        let k = Self::ns_key(namespace, entity_id);
        match self.events.get(&k) {
            None => Ok(0),
            Some(log) => Ok(log.len() as u64),
        }
    }

    fn save_snapshot(
        &mut self,
        namespace: &str,
        entity_id: &str,
        state: &[u8],
        at_sequence: u64,
        version: u8,
    ) -> (r: Result<(), MemoryError>)
        ensures
            r is Ok,
    {
        let k = Self::ns_key(namespace, entity_id);
        let snapshot = Snapshot { state: slice_to_vec(state), at_sequence, version };
        self.snapshots.insert(k, snapshot);
        proof {
            let key = (namespace@, entity_id@);
            assert forall|n: Seq<char>, e: Seq<char>| (n, e) != key implies #[trigger] self.snapshot(
                n,
                e,
            ) == old(self).snapshot(n, e) by {
                if old(self).snapshots.has((n, e)) {
                    assert(self.snapshots.as_map()[(n, e)] == old(self).snapshots.as_map()[(n, e)]);
                }
            }
        }
        Ok(())
    }

    fn load_snapshot(&self, namespace: &str, entity_id: &str) -> (r: Result<
        Option<Snapshot>,
        MemoryError,
    >)
        ensures
            r is Ok,
    {
        let k = Self::ns_key(namespace, entity_id);
        match self.snapshots.get(&k) {
            Some(s) => Ok(Some(s.replicate())),
            None => Ok(None),
        }
    }

    fn truncate_events_before(&mut self, namespace: &str, entity_id: &str, before_sequence: u64)
        -> (r: Result<u64, MemoryError>)
        ensures
            r is Ok,
    {
        let k = Self::ns_key(namespace, entity_id);
        let (pos, found) = self.events.search(&k);
        if !found {
            return Ok(0);
        }
        let ghost key = (namespace@, entity_id@);
        let ghost old_log = self.events.vals@[pos as int];
        let ghost views = event_views(old_log@);
        let mut kept: Vec<StoredEvent> = Vec::new();
        let before_len = self.events.value_at(pos).len();
        let mut i: usize = 0;
        assert(views.take(0) =~= Seq::<EventView>::empty());
        assert(event_views(kept@) =~= Seq::<EventView>::empty());
        while i < self.events.value_at(pos).len()
            invariant
                pos < self.events.vals@.len(),
                self.events == old(self).events,
                old_log == self.events.vals@[pos as int],
                i <= old_log@.len(),
                views == event_views(old_log@),
                event_views(kept@) == events_from(views.take(i as int), before_sequence as int),
            decreases old_log@.len() - i,
        {
            proof {
                let next = views.take(i + 1);
                assert(next.drop_last() =~= views.take(i as int));
                assert(next.last() == old_log@[i as int]@);
            }
            let event = &self.events.value_at(pos)[i];
            if event.sequence >= before_sequence {
                let ghost before = kept@;
                kept.push(event.replicate());
                assert(event_views(kept@) =~= event_views(before).push(old_log@[i as int]@));
            }
            i += 1;
        }
        assert(views.take(i as int) =~= views);
        let after_len = kept.len();
        proof {
            lemma_events_from(views, before_sequence as int);
            assert(event_views(kept@).len() == kept@.len());
            old(self).events.lemma_position(pos as int);
            assert(log_ok(old_log@, self.next_sequence));
        }
        self.events.set_value_at(pos, kept);
        proof {
            let new_views = event_views(kept@);
            assert forall|n: Seq<char>, e: Seq<char>| (n, e) != key implies #[trigger] self.log(n, e)
                == old(self).log(n, e) by {
                if old(self).events.has((n, e)) {
                    assert(self.events.as_map()[(n, e)] == old(self).events.as_map()[(n, e)]);
                }
            }
            assert(self.events.as_map()[key] == kept);
            assert forall|i: int| 0 <= i < self.events.vals@.len() implies log_ok(
                (#[trigger] self.events.vals@[i])@,
                self.next_sequence,
            ) by {
                if i == pos {
                    assert forall|j: int| 0 <= j < kept@.len() implies (#[trigger] kept@[j]).sequence
                        < self.next_sequence by {
                        assert(new_views[j] == kept@[j]@);
                        assert(views.contains(new_views[j]));
                        let m = choose|m: int| 0 <= m < views.len() && views[m] == new_views[j];
                        assert(views[m] == old_log@[m]@);
                        assert(old_log@[m].sequence < self.next_sequence);
                    }
                } else {
                    assert(log_ok(old(self).events.vals@[i]@, self.next_sequence));
                }
            }
        }
        Ok((before_len - after_len) as u64)
    }
}

} // verus!
