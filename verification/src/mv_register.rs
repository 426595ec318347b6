//! The multi-value register: concurrent writes are all kept until a later
//! write supersedes them.

use crate::crdt::Crdt;
use crate::element::Element;
use crate::gcounter::{
    absorb, count_in, counts_from_pairs, counts_of, counts_to_pairs, dominates, dominates_counts,
    join, replicate_counts, same_counts, Counts,
};
use crate::tag::{pair_views, Pair};
use crate::gset::{lists_set, ref_views, view_ranks};
use crate::sorted_map::SortedMap;
use vstd::prelude::*;

verus! {

/// A value with the version vector at which it was written.
pub type Write<V> = (V, Counts);

/// The state of a multi-value register.
pub struct MvState<V> {
    /// For each replica the number of its writes that this replica has seen.
    pub version: Counts,
    /// The writes that no later write has superseded.
    pub entries: Seq<Write<V>>,
}

/// Whether some write of `entries` was made at `version`.
pub open spec fn has_version<V>(entries: Seq<Write<V>>, version: Counts) -> bool {
    exists|i: int| 0 <= i < entries.len() && (#[trigger] entries[i]).1 == version
}

/// The writes of the receiver that stay: those that the sender has not seen,
/// and those that the sender still holds.
pub open spec fn kept_entries<V>(mine: Seq<Write<V>>, their_version: Counts, theirs: Seq<Write<V>>)
    -> Seq<Write<V>>
    decreases mine.len(),
{
    if mine.len() == 0 {
        Seq::empty()
    } else {
        let rest = kept_entries(mine.drop_last(), their_version, theirs);
        let e = mine.last();
        if !dominates_counts(their_version, e.1) || has_version(theirs, e.1) {
            rest.push(e)
        } else {
            rest
        }
    }
}

/// `acc` with the writes of the sender that the receiver has not seen and
/// that `acc` does not hold yet, in the sender's order.
pub open spec fn added_entries<V>(acc: Seq<Write<V>>, incoming: Seq<Write<V>>, my_version: Counts)
    -> Seq<Write<V>>
    decreases incoming.len(),
{
    if incoming.len() == 0 {
        acc
    } else {
        let so_far = added_entries(acc, incoming.drop_last(), my_version);
        let e = incoming.last();
        if !dominates_counts(my_version, e.1) && !has_version(so_far, e.1) {
            so_far.push(e)
        } else {
            so_far
        }
    }
}

/// The state of `a` after merging `b`.
pub open spec fn mv_join<V>(a: MvState<V>, b: MvState<V>) -> MvState<V> {
    MvState {
        version: join(a.version, b.version),
        entries: added_entries(
            kept_entries(a.entries, b.version, b.entries),
            b.entries,
            a.version,
        ),
    }
}

/// No two writes of the list were made at the same version vector.
pub open spec fn distinct_versions<V>(entries: Seq<Write<V>>) -> bool {
    forall|i: int, j: int|
        0 <= i < j < entries.len() ==> (#[trigger] entries[i]).1 != (#[trigger] entries[j]).1
}

/// The first write of each version vector, in the order of the list.
pub open spec fn first_of_each<V>(entries: Seq<Write<V>>) -> Seq<Write<V>>
    decreases entries.len(),
{
    if entries.len() == 0 {
        Seq::empty()
    } else {
        let front = first_of_each(entries.drop_last());
        if has_version(front, entries.last().1) {
            front
        } else {
            front.push(entries.last())
        }
    }
}

/// The values of a list of writes.
pub open spec fn written_values<V>(entries: Seq<Write<V>>) -> Set<V> {
    Set::new(|v: V| exists|i: int| 0 <= i < entries.len() && (#[trigger] entries[i]).0 == v)
}

/// A write of a register.
#[derive(Debug, Clone, PartialEq, Eq)]
pub struct MvEntry<T: Element> {
    value: T,
    written_at: SortedMap<String, u64>,
}

impl<T: Element> View for MvEntry<T> {
    type V = Write<T::V>;

    closed spec fn view(&self) -> Write<T::V> {
        (self.value@, self.written_at.as_map())
    }
}

impl<T: Element> MvEntry<T> {
    /// The version vector stands in order of replica.
    pub closed spec fn wf(&self) -> bool {
        self.written_at.wf()
    }

    /// Returns a copy of the write.
    fn replicate(&self) -> (r: Self)
        requires
            self.wf(),
        ensures
            r.wf(),
            r@ == self@,
    {
        MvEntry { value: self.value.replicate(), written_at: replicate_counts(&self.written_at) }
    }
}

/// The views of a list of writes.
pub open spec fn entry_views<T: Element>(entries: Seq<MvEntry<T>>) -> Seq<Write<T::V>> {
    entries.map_values(|e: MvEntry<T>| e@)
}

/// A write as plain data: the value and the version vector as pairs.
pub type PlainWrite<T> = (T, Vec<Pair>);

/// The writes that plain data gives.
pub open spec fn plain_writes<T: Element>(items: Seq<PlainWrite<T>>) -> Seq<Write<T::V>> {
    items.map_values(|w: PlainWrite<T>| (w.0@, counts_of(pair_views(w.1@))))
}

/// Whether some write of `entries` was made at `version`.
fn holds_version<T: Element>(entries: &Vec<MvEntry<T>>, version: &SortedMap<String, u64>) -> (r:
    bool)
    requires
        version.wf(),
        forall|i: int| 0 <= i < entries@.len() ==> (#[trigger] entries@[i]).wf(),
    ensures
        r == has_version(entry_views(entries@), version.as_map()),
{
    let mut i: usize = 0;
    while i < entries.len()
        invariant
            version.wf(),
            i <= entries@.len(),
            forall|j: int| 0 <= j < entries@.len() ==> (#[trigger] entries@[j]).wf(),
            forall|j: int|
                0 <= j < i ==> (#[trigger] entry_views(entries@)[j]).1 != version.as_map(),
        decreases entries@.len() - i,
    {
        assert(entries@[i as int].wf());
        if same_counts(&entries[i].written_at, version) {
            assert(entry_views(entries@)[i as int].1 == version.as_map());
            return true;
        }
        i += 1;
    }
    false
}

/// A register that keeps concurrent writes side by side.
#[derive(Debug, Clone, PartialEq, Eq)]
pub struct MVRegister<T: Element> {
    actor: String,
    version: SortedMap<String, u64>,
    entries: Vec<MvEntry<T>>,
}

impl<T: Element> View for MVRegister<T> {
    type V = MvState<T::V>;

    closed spec fn view(&self) -> MvState<T::V> {
        MvState { version: self.version.as_map(), entries: entry_views(self.entries@) }
    }
}

impl<T: Element> MVRegister<T> {
    /// The version vectors stand in order of replica, and no two writes were
    /// made at the same version vector.
    pub closed spec fn wf(&self) -> bool {
        &&& self.version.wf()
        &&& forall|i: int| 0 <= i < self.entries@.len() ==> (#[trigger] self.entries@[i]).wf()
        &&& distinct_versions(self@.entries)
    }

    /// A well-formed register holds no two writes of one version vector.
    pub proof fn lemma_wf_distinct(&self)
        requires
            self.wf(),
        ensures
            distinct_versions(self@.entries),
    {
    }

    /// The replica that holds this register.
    pub closed spec fn spec_actor(&self) -> Seq<char> {
        self.actor@
    }

    /// Creates a register for the replica `actor`, without a value.
    pub fn new(actor: &str) -> (r: Self)
        ensures
            r.wf(),
            r.spec_actor() == actor@,
            r@.version == Map::<Seq<char>, u64>::empty(),
            r@.entries == Seq::<Write<T::V>>::empty(),
    {
        let r = Self { actor: actor.to_owned(), version: SortedMap::new(), entries: Vec::new() };
        assert(r@.entries =~= Seq::<Write<T::V>>::empty());
        r
    }

    /// The version vector as plain pairs.
    pub fn version(&self) -> (out: Vec<Pair>)
        requires
            self.wf(),
        ensures
            counts_of(pair_views(out@)) == self@.version,
    {
        counts_to_pairs(&self.version)
    }

    /// The writes as plain data, in the order in which the register holds
    /// them.
    pub fn entries(&self) -> (out: Vec<PlainWrite<T>>)
        requires
            self.wf(),
        ensures
            plain_writes(out@) == self@.entries,
    {
        let mut out: Vec<PlainWrite<T>> = Vec::new();
        let mut i: usize = 0;
        while i < self.entries.len()
            invariant
                self.wf(),
                i <= self.entries@.len(),
                out@.len() == i,
                forall|k: int|
                    0 <= k < i ==> ((#[trigger] out@[k]).0@, counts_of(pair_views(out@[k].1@)))
                        == self.entries@[k]@,
            decreases self.entries@.len() - i,
        {
            assert(self.entries@[i as int].wf());
            let entry = &self.entries[i];
            out.push((entry.value.replicate(), counts_to_pairs(&entry.written_at)));
            i += 1;
        }
        assert(plain_writes(out@) =~= self@.entries);
        out
    }

    /// The register of the replica `actor` with the version vector and the
    /// writes that plain data gives: of the writes made at one version
    /// vector, the first.
    pub fn from_parts(actor: &str, version: &Vec<Pair>, entries: &Vec<PlainWrite<T>>) -> (r: Self)
        ensures
            r.wf(),
            r.spec_actor() == actor@,
            r@.version == counts_of(pair_views(version@)),
            r@.entries == first_of_each(plain_writes(entries@)),
            distinct_versions(plain_writes(entries@)) ==> r@.entries == plain_writes(entries@),
    {
        let mut list: Vec<MvEntry<T>> = Vec::new();
        let mut i: usize = 0;
        assert(entry_views(list@) =~= first_of_each(plain_writes(entries@).take(0)));
        while i < entries.len()
            invariant
                i <= entries@.len(),
                forall|k: int| 0 <= k < list@.len() ==> (#[trigger] list@[k]).wf(),
                entry_views(list@) == first_of_each(plain_writes(entries@).take(i as int)),
                distinct_versions(entry_views(list@)),
            decreases entries@.len() - i,
        {
            let item = &entries[i];
            let written_at = counts_from_pairs(&item.1);
            let ghost before = list@;
            proof {
                let next = plain_writes(entries@).take(i + 1);
                assert(next.drop_last() =~= plain_writes(entries@).take(i as int));
                assert(next.last() == (item.0@, written_at.as_map()));
            }
            if !holds_version(&list, &written_at) {
                list.push(MvEntry { value: item.0.replicate(), written_at });
                proof {
                    let e = (item.0@, written_at.as_map());
                    assert(entry_views(list@) =~= entry_views(before).push(e));
                    lemma_push_distinct(entry_views(before), e);
                }
            }
            i += 1;
        }
        assert(plain_writes(entries@).take(i as int) =~= plain_writes(entries@));
        let r = Self {
            actor: actor.to_owned(),
            version: counts_from_pairs(version),
            entries: list,
        };
        proof {
            if distinct_versions(plain_writes(entries@)) {
                lemma_first_of_each(plain_writes(entries@));
            }
        }
        r
    }

    /// Writes a value: raises the count of this replica by one and replaces
    /// all writes by this one, made at the new version vector.
    pub fn set(&mut self, value: T)
        requires
            old(self).wf(),
            count_in(old(self)@.version, old(self).spec_actor()) < u64::MAX,
        ensures
            final(self).wf(),
            final(self).spec_actor() == old(self).spec_actor(),
            final(self)@.version == old(self)@.version.insert(
                old(self).spec_actor(),
                (count_in(old(self)@.version, old(self).spec_actor()) + 1) as u64,
            ),
            final(self)@.entries == seq![(value@, final(self)@.version)],
    {
        let (pos, found) = self.version.search(&self.actor);
        if found {
            proof {
                self.version.lemma_position(pos as int);
            }
            let current = *self.version.value_at(pos);
            self.version.set_value_at(pos, current + 1);
        } else {
            let key = self.actor.clone();
            self.version.insert_at(pos, key, 1);
        }
        let entry = MvEntry { value, written_at: replicate_counts(&self.version) };
        let mut entries: Vec<MvEntry<T>> = Vec::new();
        entries.push(entry);
        self.entries = entries;
        assert(self@.entries =~= seq![(value@, self@.version)]);
    }

    /// The values of all writes, each once, in increasing order.
    pub fn values(&self) -> (vals: Vec<&T>)
        requires
            self.wf(),
        ensures
            lists_set::<T>(vals@, written_values(self@.entries)),
    {
        let mut sorted: SortedMap<&T, ()> = SortedMap::new();
        let mut i: usize = 0;
        let ghost views = entry_views(self.entries@);
        while i < self.entries.len()
            invariant
                sorted.wf(),
                i <= self.entries@.len(),
                views == entry_views(self.entries@),
                forall|v: T::V|
                    sorted.has(v) <==> exists|j: int| 0 <= j < i && (#[trigger] views[j]).0 == v,
            decreases self.entries@.len() - i,
        {
            let ghost before = sorted;
            let item: &T = &self.entries[i].value;
            assert(item@ == views[i as int].0);
            let (pos, found) = sorted.search(&item);
            if !found {
                sorted.insert_at(pos, item, ());
            }
            proof {
                assert forall|v: T::V|
                    sorted.has(v) <==> exists|j: int| 0 <= j < i + 1 && (#[trigger] views[j]).0
                        == v by {
                    if before.has(v) {
                        let j = choose|j: int| 0 <= j < i && (#[trigger] views[j]).0 == v;
                        assert(views[j].0 == v);
                    }
                    if v == item@ {
                        assert(views[i as int].0 == v);
                    }
                }
            }
            i += 1;
        }
        let ghost sorted_map = sorted;
        let vals = sorted.keys;
        proof {
            let sorted = sorted_map;
            assert(vals@ == sorted.keys@);
            let listed = ref_views::<T>(vals@);
            assert(view_ranks::<T>(listed) =~= sorted.ranks());
            assert forall|v: T::V| written_values(self@.entries).contains(v) <==> listed.contains(
                v,
            ) by {
                assert(self@.entries == views);
                if written_values(views).contains(v) {
                    let j = choose|j: int| 0 <= j < views.len() && (#[trigger] views[j]).0 == v;
                    assert(views[j].0 == v);
                    assert(sorted.has(v));
                }
                if sorted.has(v) {
                    let k = sorted.index_of(v);
                    assert(listed[k] == v);
                    let j = choose|j: int| 0 <= j < i && (#[trigger] views[j]).0 == v;
                    assert(views[j].0 == v);
                }
                if listed.contains(v) {
                    let k = choose|k: int| 0 <= k < listed.len() && listed[k] == v;
                    assert(0 <= k < sorted.keys@.len());
                    assert(sorted.key_views()[k] == v);
                    assert(sorted.has(v));
                }
            }
        }
        vals
    }

    /// Whether the register holds more than one write.
    pub fn is_conflicted(&self) -> (b: bool)
        ensures
            b == (self@.entries.len() > 1),
    {
        self.entries.len() > 1
    }

    /// The replica that holds this register.
    pub fn actor(&self) -> (a: &str)
        ensures
            a@ == self.spec_actor(),
    {
        self.actor.as_str()
    }
}

impl<T: Element> Crdt for MVRegister<T> {
    open spec fn valid(&self) -> bool {
        self.wf()
    }

    /// Keeps the writes of this replica that `other` has not seen or still
    /// holds, adds the writes of `other` that this replica had not seen, and
    /// joins the version vectors.
    fn merge(&mut self, other: &Self)
        ensures
            final(self)@ == mv_join(old(self)@, other@),
            final(self).spec_actor() == old(self).spec_actor(),
    {
        let ghost mine = entry_views(self.entries@);
        let ghost theirs = entry_views(other.entries@);
        let ghost my_version = self.version.as_map();
        let ghost their_version = other.version.as_map();
        let mut merged: Vec<MvEntry<T>> = Vec::new();
        let mut i: usize = 0;
        assert(mine.take(0) =~= Seq::<Write<T::V>>::empty());
        assert(entry_views(merged@) =~= Seq::<Write<T::V>>::empty());
        while i < self.entries.len()
            invariant
                self.wf(),
                other.wf(),
                i <= self.entries@.len(),
                mine == entry_views(self.entries@),
                theirs == entry_views(other.entries@),
                their_version == other.version.as_map(),
                forall|j: int| 0 <= j < merged@.len() ==> (#[trigger] merged@[j]).wf(),
                entry_views(merged@) == kept_entries(mine.take(i as int), their_version, theirs),
            decreases self.entries@.len() - i,
        {
            let entry = &self.entries[i];
            assert(self.entries@[i as int].wf());
            proof {
                let next = mine.take(i + 1);
                assert(next.drop_last() =~= mine.take(i as int));
                assert(next.last() == entry@);
            }
            if !dominates(&other.version, &entry.written_at) || holds_version(
                &other.entries,
                &entry.written_at,
            ) {
                let ghost before = merged@;
                merged.push(entry.replicate());
                assert(entry_views(merged@) =~= entry_views(before).push(entry@));
            }
            i += 1;
        }
        assert(mine.take(i as int) =~= mine);
        let ghost kept = entry_views(merged@);
        let mut k: usize = 0;
        assert(theirs.take(0) =~= Seq::<Write<T::V>>::empty());
        while k < other.entries.len()
            invariant
                self.wf(),
                other.wf(),
                k <= other.entries@.len(),
                theirs == entry_views(other.entries@),
                my_version == self.version.as_map(),
                forall|j: int| 0 <= j < merged@.len() ==> (#[trigger] merged@[j]).wf(),
                entry_views(merged@) == added_entries(kept, theirs.take(k as int), my_version),
            decreases other.entries@.len() - k,
        {
            let entry = &other.entries[k];
            assert(other.entries@[k as int].wf());
            proof {
                let next = theirs.take(k + 1);
                assert(next.drop_last() =~= theirs.take(k as int));
                assert(next.last() == entry@);
            }
            if !dominates(&self.version, &entry.written_at) && !holds_version(
                &merged,
                &entry.written_at,
            ) {
                let ghost before = merged@;
                merged.push(entry.replicate());
                assert(entry_views(merged@) =~= entry_views(before).push(entry@));
            }
            k += 1;
        }
        assert(theirs.take(k as int) =~= theirs);
        absorb(&mut self.version, &other.version);
        self.entries = merged;
        proof {
            lemma_join_distinct(old(self)@, other@);
        }
    }
}

/// A list without two writes of one version stays so with a write of a
/// version that it does not hold.
pub proof fn lemma_push_distinct<V>(s: Seq<Write<V>>, x: Write<V>)
    requires
        distinct_versions(s),
        !has_version(s, x.1),
    ensures
        distinct_versions(s.push(x)),
{
    let t = s.push(x);
    assert forall|i: int, j: int| 0 <= i < j < t.len() implies (#[trigger] t[i]).1 != (
    #[trigger] t[j]).1 by {
        if j < s.len() {
            assert(s[i].1 != s[j].1);
        } else {
            assert(s[i].1 != x.1);
        }
    }
}

/// A list without two writes of one version is the list of the first write
/// of each version.
pub proof fn lemma_first_of_each<V>(entries: Seq<Write<V>>)
    ensures
        distinct_versions(first_of_each(entries)),
        forall|c: Counts| has_version(first_of_each(entries), c) <==> has_version(entries, c),
        distinct_versions(entries) ==> first_of_each(entries) == entries,
    decreases entries.len(),
{
    if entries.len() == 0 {
        assert forall|c: Counts| !has_version(entries, c) by {}
        assert(distinct_versions(entries) ==> first_of_each(entries) =~= entries);
    } else {
        let front = entries.drop_last();
        let last = entries.last();
        let firsts = first_of_each(front);
        lemma_first_of_each(front);
        assert(entries =~= front.push(last));
        assert forall|c: Counts| has_version(first_of_each(entries), c) <==> has_version(
            entries,
            c,
        ) by {
            lemma_push_version(front, last, c);
            lemma_push_version(firsts, last, c);
        }
        if !has_version(firsts, last.1) {
            lemma_push_distinct(firsts, last);
        }
        if distinct_versions(entries) {
            assert(distinct_versions(front)) by {
                assert forall|i: int, j: int| 0 <= i < j < front.len() implies (
                #[trigger] front[i]).1 != (#[trigger] front[j]).1 by {
                    assert(entries[i].1 != entries[j].1);
                }
            }
            assert(!has_version(front, last.1)) by {
                if has_version(front, last.1) {
                    let i = choose|i: int| 0 <= i < front.len() && (#[trigger] front[i]).1 == last.1;
                    assert(entries[i].1 != entries[entries.len() - 1].1);
                }
            }
        }
    }
}

/// The writes that stay hold no version twice where the receiver held none
/// twice.
pub proof fn lemma_kept_distinct<V>(
    mine: Seq<Write<V>>,
    their_version: Counts,
    theirs: Seq<Write<V>>,
)
    requires
        distinct_versions(mine),
    ensures
        distinct_versions(kept_entries(mine, their_version, theirs)),
    decreases mine.len(),
{
    if mine.len() > 0 {
        let front = mine.drop_last();
        let last = mine.last();
        assert(distinct_versions(front)) by {
            assert forall|i: int, j: int| 0 <= i < j < front.len() implies (#[trigger] front[i]).1
                != (#[trigger] front[j]).1 by {
                assert(mine[i].1 != mine[j].1);
            }
        }
        lemma_kept_distinct(front, their_version, theirs);
        let rest = kept_entries(front, their_version, theirs);
        lemma_kept_version(front, their_version, theirs, last.1);
        assert(!has_version(front, last.1)) by {
            if has_version(front, last.1) {
                let i = choose|i: int| 0 <= i < front.len() && (#[trigger] front[i]).1 == last.1;
                assert(mine[i].1 != mine[mine.len() - 1].1);
            }
        }
        if stays(last, their_version, theirs) {
            lemma_push_distinct(rest, last);
        }
    }
}

/// Adding the writes of the sender brings no version twice.
pub proof fn lemma_added_distinct<V>(acc: Seq<Write<V>>, incoming: Seq<Write<V>>, my_version: Counts)
    requires
        distinct_versions(acc),
    ensures
        distinct_versions(added_entries(acc, incoming, my_version)),
    decreases incoming.len(),
{
    if incoming.len() > 0 {
        let front = incoming.drop_last();
        let last = incoming.last();
        lemma_added_distinct(acc, front, my_version);
        let so_far = added_entries(acc, front, my_version);
        if !dominates_counts(my_version, last.1) && !has_version(so_far, last.1) {
            lemma_push_distinct(so_far, last);
        }
    }
}

/// A register without two writes of one version has none after merging.
pub proof fn lemma_join_distinct<V>(a: MvState<V>, b: MvState<V>)
    requires
        distinct_versions(a.entries),
    ensures
        distinct_versions(mv_join(a, b).entries),
{
    lemma_kept_distinct(a.entries, b.version, b.entries);
    lemma_added_distinct(kept_entries(a.entries, b.version, b.entries), b.entries, a.version);
}

/// The version vectors of a list of writes.
pub open spec fn versions_of<V>(entries: Seq<Write<V>>) -> Seq<Counts> {
    entries.map_values(|e: Write<V>| e.1)
}

/// Two lists that hold the same versions, each once, are equally long.
pub proof fn lemma_same_versions_len<V>(s: Seq<Write<V>>, t: Seq<Write<V>>)
    requires
        distinct_versions(s),
        distinct_versions(t),
        forall|c: Counts| has_version(s, c) <==> has_version(t, c),
    ensures
        s.len() == t.len(),
{
    let vs = versions_of(s);
    let vt = versions_of(t);
    assert(vs.no_duplicates()) by {
        assert forall|i: int, j: int| 0 <= i < vs.len() && 0 <= j < vs.len() && i != j implies vs[i]
            != vs[j] by {
            if i < j {
                assert(s[i].1 != s[j].1);
            } else {
                assert(s[j].1 != s[i].1);
            }
        }
    }
    assert(vt.no_duplicates()) by {
        assert forall|i: int, j: int| 0 <= i < vt.len() && 0 <= j < vt.len() && i != j implies vt[i]
            != vt[j] by {
            if i < j {
                assert(t[i].1 != t[j].1);
            } else {
                assert(t[j].1 != t[i].1);
            }
        }
    }
    assert(vs.to_set() =~= vt.to_set()) by {
        assert forall|c: Counts| vs.to_set().contains(c) <==> vt.to_set().contains(c) by {
            if vs.contains(c) {
                let i = choose|i: int| 0 <= i < vs.len() && vs[i] == c;
                assert(s[i].1 == c);
                assert(has_version(t, c));
                let j = choose|j: int| 0 <= j < t.len() && (#[trigger] t[j]).1 == c;
                assert(vt[j] == c);
            }
            if vt.contains(c) {
                let i = choose|i: int| 0 <= i < vt.len() && vt[i] == c;
                assert(t[i].1 == c);
                assert(has_version(s, c));
                let j = choose|j: int| 0 <= j < s.len() && (#[trigger] s[j]).1 == c;
                assert(vs[j] == c);
            }
        }
    }
    vs.unique_seq_to_set();
    vt.unique_seq_to_set();
}

/// Two registers hold equally many writes after merging each other, in
/// either order: both are in conflict or neither is.
pub proof fn lemma_conflict_commutative<V>(a: MvState<V>, b: MvState<V>)
    requires
        distinct_versions(a.entries),
        distinct_versions(b.entries),
    ensures
        mv_join(a, b).entries.len() == mv_join(b, a).entries.len(),
        (mv_join(a, b).entries.len() > 1) == (mv_join(b, a).entries.len() > 1),
{
    lemma_join_distinct(a, b);
    lemma_join_distinct(b, a);
    assert forall|c: Counts|
        has_version(mv_join(a, b).entries, c) <==> has_version(mv_join(b, a).entries, c) by {
        lemma_join_version(a, b, c);
        lemma_join_version(b, a, c);
    }
    lemma_same_versions_len(mv_join(a, b).entries, mv_join(b, a).entries);
}

/// What a list with one more element holds.
pub proof fn lemma_push_contains<A>(s: Seq<A>, x: A, e: A)
    ensures
        s.push(x).contains(e) <==> s.contains(e) || e == x,
{
    if s.push(x).contains(e) {
        let i = choose|i: int| 0 <= i < s.push(x).len() && s.push(x)[i] == e;
        if i < s.len() {
            assert(s[i] == e);
        }
    }
    if s.contains(e) {
        let i = choose|i: int| 0 <= i < s.len() && s[i] == e;
        assert(s.push(x)[i] == e);
    }
    if e == x {
        assert(s.push(x)[s.len() as int] == e);
    }
}

/// What a list holds, by its last element and the rest.
pub proof fn lemma_last_contains<A>(s: Seq<A>, e: A)
    requires
        s.len() > 0,
    ensures
        s.contains(e) <==> s.drop_last().contains(e) || e == s.last(),
{
    assert(s =~= s.drop_last().push(s.last()));
    lemma_push_contains(s.drop_last(), s.last(), e);
}

/// A write that a list holds gives the list its version.
pub proof fn lemma_version_of<V>(s: Seq<Write<V>>, e: Write<V>)
    requires
        s.contains(e),
    ensures
        has_version(s, e.1),
{
    let i = choose|i: int| 0 <= i < s.len() && s[i] == e;
    assert(s[i].1 == e.1);
}

/// A write of a list that was made at a version the list holds.
pub open spec fn write_at<V>(s: Seq<Write<V>>, c: Counts) -> Write<V> {
    s[position_of(s, c)]
}

/// The position of a write made at a version the list holds.
pub open spec fn position_of<V>(s: Seq<Write<V>>, c: Counts) -> int {
    choose|i: int| 0 <= i < s.len() && (#[trigger] s[i]).1 == c
}

/// The write picked for a version is in the list and was made at it.
pub proof fn lemma_write_at<V>(s: Seq<Write<V>>, c: Counts)
    requires
        has_version(s, c),
    ensures
        s.contains(write_at(s, c)),
        write_at(s, c).1 == c,
{
    let i = position_of(s, c);
    assert(0 <= i < s.len() && s[i].1 == c);
    assert(s[i] == write_at(s, c));
}

/// Which versions a list with one more write holds.
pub proof fn lemma_push_version<V>(s: Seq<Write<V>>, x: Write<V>, c: Counts)
    ensures
        has_version(s.push(x), c) <==> has_version(s, c) || c == x.1,
{
    let t = s.push(x);
    if has_version(t, c) {
        let i = choose|i: int| 0 <= i < t.len() && (#[trigger] t[i]).1 == c;
        if i < s.len() {
            assert(s[i].1 == c);
        }
    }
    if has_version(s, c) {
        let i = choose|i: int| 0 <= i < s.len() && (#[trigger] s[i]).1 == c;
        assert(t[i].1 == c);
    }
    if c == x.1 {
        assert(t[s.len() as int].1 == c);
    }
}

/// Whether a write of the receiver stays when merging.
pub open spec fn stays<V>(e: Write<V>, their_version: Counts, theirs: Seq<Write<V>>) -> bool {
    !dominates_counts(their_version, e.1) || has_version(theirs, e.1)
}

/// The writes that stay are those of the receiver that the sender has not
/// seen or still holds.
pub proof fn lemma_kept_member<V>(
    mine: Seq<Write<V>>,
    their_version: Counts,
    theirs: Seq<Write<V>>,
    e: Write<V>,
)
    ensures
        kept_entries(mine, their_version, theirs).contains(e) <==> mine.contains(e) && stays(
            e,
            their_version,
            theirs,
        ),
    decreases mine.len(),
{
    let kept = kept_entries(mine, their_version, theirs);
    if mine.len() == 0 {
        assert(!kept.contains(e));
        assert(!mine.contains(e));
    } else {
        let front = mine.drop_last();
        let last = mine.last();
        let rest = kept_entries(front, their_version, theirs);
        lemma_kept_member(front, their_version, theirs, e);
        lemma_last_contains(mine, e);
        lemma_push_contains(rest, last, e);
    }
}

/// Where every write of the receiver stays, the writes are as before.
pub proof fn lemma_kept_all<V>(mine: Seq<Write<V>>, their_version: Counts, theirs: Seq<Write<V>>)
    requires
        forall|i: int| 0 <= i < mine.len() ==> stays(#[trigger] mine[i], their_version, theirs),
    ensures
        kept_entries(mine, their_version, theirs) == mine,
    decreases mine.len(),
{
    if mine.len() == 0 {
        assert(kept_entries(mine, their_version, theirs) =~= mine);
    } else {
        let front = mine.drop_last();
        assert forall|i: int| 0 <= i < front.len() implies stays(
            #[trigger] front[i],
            their_version,
            theirs,
        ) by {
            assert(front[i] == mine[i]);
        }
        lemma_kept_all(front, their_version, theirs);
        assert(stays(mine[mine.len() - 1], their_version, theirs));
        assert(mine =~= front.push(mine.last()));
    }
}

/// What adding the writes of the sender gives: all of what was there, and of
/// the sender only writes that the receiver had not seen.
pub proof fn lemma_added_member<V>(
    acc: Seq<Write<V>>,
    incoming: Seq<Write<V>>,
    my_version: Counts,
    e: Write<V>,
)
    ensures
        acc.contains(e) ==> added_entries(acc, incoming, my_version).contains(e),
        added_entries(acc, incoming, my_version).contains(e) ==> acc.contains(e) || (
        incoming.contains(e) && !dominates_counts(my_version, e.1)),
    decreases incoming.len(),
{
    if incoming.len() > 0 {
        let front = incoming.drop_last();
        let last = incoming.last();
        let so_far = added_entries(acc, front, my_version);
        lemma_added_member(acc, front, my_version, e);
        lemma_last_contains(incoming, e);
        lemma_push_contains(so_far, last, e);
    }
}

/// The versions after adding the writes of the sender: those that were
/// there, and those of the sender that the receiver had not seen.
pub proof fn lemma_added_version<V>(
    acc: Seq<Write<V>>,
    incoming: Seq<Write<V>>,
    my_version: Counts,
    c: Counts,
)
    ensures
        has_version(added_entries(acc, incoming, my_version), c) <==> has_version(acc, c) || (
        has_version(incoming, c) && !dominates_counts(my_version, c)),
    decreases incoming.len(),
{
    if incoming.len() == 0 {
        assert(!has_version(incoming, c));
    } else {
        let front = incoming.drop_last();
        let last = incoming.last();
        let so_far = added_entries(acc, front, my_version);
        lemma_added_version(acc, front, my_version, c);
        assert(incoming =~= front.push(last));
        lemma_push_version(front, last, c);
        lemma_push_version(so_far, last, c);
    }
}

/// Where the receiver has seen or holds every version of the sender, nothing
/// is added.
pub proof fn lemma_added_none<V>(acc: Seq<Write<V>>, incoming: Seq<Write<V>>, my_version: Counts)
    requires
        forall|i: int|
            0 <= i < incoming.len() ==> dominates_counts(my_version, (#[trigger] incoming[i]).1)
                || has_version(acc, incoming[i].1),
    ensures
        added_entries(acc, incoming, my_version) == acc,
    decreases incoming.len(),
{
    if incoming.len() > 0 {
        let front = incoming.drop_last();
        assert forall|i: int| 0 <= i < front.len() implies dominates_counts(
            my_version,
            (#[trigger] front[i]).1,
        ) || has_version(acc, front[i].1) by {
            assert(front[i] == incoming[i]);
        }
        lemma_added_none(acc, front, my_version);
        let last = incoming[incoming.len() - 1];
        assert(dominates_counts(my_version, last.1) || has_version(acc, last.1));
    }
}

/// Writes made at the same version vector hold the same value.
pub open spec fn agreeing<V>(a: Seq<Write<V>>, b: Seq<Write<V>>) -> bool {
    forall|x: Write<V>, y: Write<V>|
        (a.contains(x) || b.contains(x)) && (a.contains(y) || b.contains(y)) && x.1 == y.1 ==> x.0
            == y.0
}

/// A list holds a value exactly if it holds a write of it.
pub proof fn lemma_value_of<V>(s: Seq<Write<V>>, e: Write<V>)
    requires
        s.contains(e),
    ensures
        written_values(s).contains(e.0),
{
    let i = choose|i: int| 0 <= i < s.len() && s[i] == e;
    assert(s[i].0 == e.0);
}

/// Every value that `a` holds after merging `b` is held by `b` after merging
/// `a`, where writes of the same version hold the same value.
proof fn lemma_values_carry_over<V>(a: MvState<V>, b: MvState<V>, v: V)
    requires
        agreeing(a.entries, b.entries),
        written_values(mv_join(a, b).entries).contains(v),
    ensures
        written_values(mv_join(b, a).entries).contains(v),
{
    let kept_a = kept_entries(a.entries, b.version, b.entries);
    let ab = mv_join(a, b).entries;
    let kept_b = kept_entries(b.entries, a.version, a.entries);
    let ba = mv_join(b, a).entries;
    let i = choose|i: int| 0 <= i < ab.len() && (#[trigger] ab[i]).0 == v;
    let e = ab[i];
    assert(ab.contains(e));
    lemma_added_member(kept_a, b.entries, a.version, e);
    lemma_kept_member(a.entries, b.version, b.entries, e);
    if kept_a.contains(e) {
        lemma_version_of(a.entries, e);
        if !dominates_counts(b.version, e.1) {
            lemma_added_version(kept_b, a.entries, b.version, e.1);
            assert(has_version(ba, e.1));
            lemma_write_at(ba, e.1);
            let f = write_at(ba, e.1);
            lemma_added_member(kept_b, a.entries, b.version, f);
            lemma_kept_member(b.entries, a.version, a.entries, f);
            assert(a.entries.contains(f) || b.entries.contains(f));
            assert(f.0 == e.0);
            lemma_value_of(ba, f);
        } else {
            assert(has_version(b.entries, e.1));
            lemma_write_at(b.entries, e.1);
            let f = write_at(b.entries, e.1);
            lemma_kept_member(b.entries, a.version, a.entries, f);
            assert(stays(f, a.version, a.entries));
            assert(kept_b.contains(f));
            lemma_added_member(kept_b, a.entries, b.version, f);
            assert(ba.contains(f));
            assert(f.0 == e.0);
            lemma_value_of(ba, f);
        }
    } else {
        assert(b.entries.contains(e) && !dominates_counts(a.version, e.1));
        lemma_kept_member(b.entries, a.version, a.entries, e);
        assert(kept_b.contains(e));
        lemma_added_member(kept_b, a.entries, b.version, e);
        assert(ba.contains(e));
        lemma_value_of(ba, e);
    }
}

/// Merging is commutative in the values and the version vector, for
/// registers whose writes of the same version hold the same value.
pub proof fn lemma_merge_commutative<V>(a: MvState<V>, b: MvState<V>)
    requires
        agreeing(a.entries, b.entries),
    ensures
        written_values(mv_join(a, b).entries) == written_values(mv_join(b, a).entries),
        mv_join(a, b).version == mv_join(b, a).version,
{
    crate::gcounter::lemma_merge_commutative(a.version, b.version);
    assert forall|v: V|
        written_values(mv_join(a, b).entries).contains(v) <==> written_values(
            mv_join(b, a).entries,
        ).contains(v) by {
        if written_values(mv_join(a, b).entries).contains(v) {
            lemma_values_carry_over(a, b, v);
        }
        if written_values(mv_join(b, a).entries).contains(v) {
            assert(agreeing(b.entries, a.entries));
            lemma_values_carry_over(b, a, v);
        }
    }
    assert(written_values(mv_join(a, b).entries) =~= written_values(mv_join(b, a).entries));
}

/// A state that gives every replica at least the count of another dominates
/// what the other dominates.
pub proof fn lemma_join_dominates(a: Counts, b: Counts, c: Counts)
    ensures
        dominates_counts(a, c) ==> dominates_counts(join(a, b), c),
        dominates_counts(b, c) ==> dominates_counts(join(a, b), c),
{
    if dominates_counts(a, c) {
        assert forall|k: Seq<char>| c.dom().contains(k) implies count_in(join(a, b), k)
            >= #[trigger] c[k] by {
            assert(count_in(a, k) >= c[k]);
        }
    }
    if dominates_counts(b, c) {
        assert forall|k: Seq<char>| c.dom().contains(k) implies count_in(join(a, b), k)
            >= #[trigger] c[k] by {
            assert(count_in(b, k) >= c[k]);
        }
    }
}

/// Merging is idempotent: merging the same register a second time changes
/// neither the writes nor the version vector.
pub proof fn lemma_merge_idempotent<V>(a: MvState<V>, b: MvState<V>)
    ensures
        mv_join(mv_join(a, b), b) == mv_join(a, b),
{
    let kept_a = kept_entries(a.entries, b.version, b.entries);
    let once = mv_join(a, b);
    assert forall|i: int| 0 <= i < once.entries.len() implies stays(
        #[trigger] once.entries[i],
        b.version,
        b.entries,
    ) by {
        let e = once.entries[i];
        assert(once.entries.contains(e));
        lemma_added_member(kept_a, b.entries, a.version, e);
        lemma_kept_member(a.entries, b.version, b.entries, e);
        if !kept_a.contains(e) {
            lemma_version_of(b.entries, e);
        }
    }
    lemma_kept_all(once.entries, b.version, b.entries);
    assert forall|i: int| 0 <= i < b.entries.len() implies dominates_counts(
        once.version,
        (#[trigger] b.entries[i]).1,
    ) || has_version(once.entries, b.entries[i].1) by {
        let e = b.entries[i];
        assert(b.entries.contains(e));
        lemma_join_dominates(a.version, b.version, e.1);
        lemma_version_of(b.entries, e);
        lemma_added_version(kept_a, b.entries, a.version, e.1);
    }
    lemma_added_none(once.entries, b.entries, once.version);
    crate::gcounter::lemma_merge_idempotent(a.version, b.version);
}

/// The versions that stay are those of the receiver that the sender has not
/// seen or still holds.
pub proof fn lemma_kept_version<V>(
    mine: Seq<Write<V>>,
    their_version: Counts,
    theirs: Seq<Write<V>>,
    c: Counts,
)
    ensures
        has_version(kept_entries(mine, their_version, theirs), c) <==> has_version(mine, c) && (
        !dominates_counts(their_version, c) || has_version(theirs, c)),
    decreases mine.len(),
{
    if mine.len() == 0 {
        assert(!has_version(mine, c));
        assert(!has_version(kept_entries(mine, their_version, theirs), c));
    } else {
        let front = mine.drop_last();
        let last = mine.last();
        let rest = kept_entries(front, their_version, theirs);
        lemma_kept_version(front, their_version, theirs, c);
        assert(mine =~= front.push(last));
        lemma_push_version(front, last, c);
        lemma_push_version(rest, last, c);
    }
}

/// The three registers are of one history: each has seen its own writes,
/// writes of the same version hold the same value, and a write that two
/// registers together have seen, one of them has seen.
pub open spec fn one_history<V>(a: MvState<V>, b: MvState<V>, c: MvState<V>) -> bool {
    &&& agreeing(a.entries + b.entries, c.entries)
    &&& forall|i: int| 0 <= i < a.entries.len() ==> dominates_counts(a.version, (#[trigger] a.entries[i]).1)
    &&& forall|i: int| 0 <= i < b.entries.len() ==> dominates_counts(b.version, (#[trigger] b.entries[i]).1)
    &&& forall|i: int| 0 <= i < c.entries.len() ==> dominates_counts(c.version, (#[trigger] c.entries[i]).1)
    &&& forall|v: Counts|
        #![trigger dominates_counts(join(a.version, b.version), v)]
        written_at(a, b, c, v) && dominates_counts(join(a.version, b.version), v)
            ==> dominates_counts(a.version, v) || dominates_counts(b.version, v)
    &&& forall|v: Counts|
        #![trigger dominates_counts(join(b.version, c.version), v)]
        written_at(a, b, c, v) && dominates_counts(join(b.version, c.version), v)
            ==> dominates_counts(b.version, v) || dominates_counts(c.version, v)
}

/// Whether one of the three registers holds a write made at `v`.
pub open spec fn written_at<V>(a: MvState<V>, b: MvState<V>, c: MvState<V>, v: Counts) -> bool {
    has_version(a.entries, v) || has_version(b.entries, v) || has_version(c.entries, v)
}

/// Which versions a register holds after merging another.
pub proof fn lemma_join_version<V>(a: MvState<V>, b: MvState<V>, v: Counts)
    ensures
        has_version(mv_join(a, b).entries, v) <==> (has_version(a.entries, v) && (
        !dominates_counts(b.version, v) || has_version(b.entries, v))) || (has_version(
            b.entries,
            v,
        ) && !dominates_counts(a.version, v)),
{
    let kept = kept_entries(a.entries, b.version, b.entries);
    lemma_kept_version(a.entries, b.version, b.entries, v);
    lemma_added_version(kept, b.entries, a.version, v);
}

/// Every write of a merged register is a write of one of the two.
pub proof fn lemma_join_member<V>(a: MvState<V>, b: MvState<V>, e: Write<V>)
    requires
        mv_join(a, b).entries.contains(e),
    ensures
        a.entries.contains(e) || b.entries.contains(e),
{
    let kept = kept_entries(a.entries, b.version, b.entries);
    lemma_added_member(kept, b.entries, a.version, e);
    lemma_kept_member(a.entries, b.version, b.entries, e);
}

/// A register that has seen its own writes holds a version only if it has
/// seen it.
pub proof fn lemma_seen_own<V>(a: MvState<V>, v: Counts)
    requires
        forall|i: int| 0 <= i < a.entries.len() ==> dominates_counts(a.version, (#[trigger] a.entries[i]).1),
    ensures
        has_version(a.entries, v) ==> dominates_counts(a.version, v),
{
    if has_version(a.entries, v) {
        let i = choose|i: int| 0 <= i < a.entries.len() && (#[trigger] a.entries[i]).1 == v;
        assert(dominates_counts(a.version, a.entries[i].1));
    }
}

/// Registers of one history hold the same versions in either grouping.
proof fn lemma_associative_versions<V>(a: MvState<V>, b: MvState<V>, c: MvState<V>, v: Counts)
    requires
        one_history(a, b, c),
    ensures
        has_version(mv_join(mv_join(a, b), c).entries, v) <==> has_version(
            mv_join(a, mv_join(b, c)).entries,
            v,
        ),
{
    let ab = mv_join(a, b);
    let bc = mv_join(b, c);
    lemma_join_version(a, b, v);
    lemma_join_version(ab, c, v);
    lemma_join_version(b, c, v);
    lemma_join_version(a, bc, v);
    lemma_seen_own(a, v);
    lemma_seen_own(b, v);
    lemma_seen_own(c, v);
    lemma_join_dominates(a.version, b.version, v);
    lemma_join_dominates(b.version, c.version, v);
    if written_at(a, b, c, v) {
        assert(dominates_counts(join(a.version, b.version), v) ==> dominates_counts(a.version, v)
            || dominates_counts(b.version, v));
        assert(dominates_counts(join(b.version, c.version), v) ==> dominates_counts(b.version, v)
            || dominates_counts(c.version, v));
    }
}

/// Every value of one grouping is a value of the other.
proof fn lemma_associative_values<V>(
    a: MvState<V>,
    b: MvState<V>,
    c: MvState<V>,
    left: MvState<V>,
    right: MvState<V>,
    x: V,
)
    requires
        agreeing(a.entries + b.entries, c.entries),
        forall|e: Write<V>|
            left.entries.contains(e) ==> a.entries.contains(e) || b.entries.contains(e)
                || c.entries.contains(e),
        forall|e: Write<V>|
            right.entries.contains(e) ==> a.entries.contains(e) || b.entries.contains(e)
                || c.entries.contains(e),
        forall|v: Counts| has_version(left.entries, v) ==> has_version(right.entries, v),
        written_values(left.entries).contains(x),
    ensures
        written_values(right.entries).contains(x),
{
    let i = choose|i: int| 0 <= i < left.entries.len() && (#[trigger] left.entries[i]).0 == x;
    let e = left.entries[i];
    assert(left.entries.contains(e));
    lemma_version_of(left.entries, e);
    assert(has_version(right.entries, e.1));
    lemma_write_at(right.entries, e.1);
    let f = write_at(right.entries, e.1);
    let ab = a.entries + b.entries;
    assert forall|w: Write<V>| a.entries.contains(w) || b.entries.contains(w) implies ab.contains(
        w,
    ) by {
        if a.entries.contains(w) {
            let k = choose|k: int| 0 <= k < a.entries.len() && a.entries[k] == w;
            assert(ab[k] == w);
        } else {
            let k = choose|k: int| 0 <= k < b.entries.len() && b.entries[k] == w;
            assert(ab[a.entries.len() + k] == w);
        }
    }
    assert(ab.contains(e) || c.entries.contains(e));
    assert(ab.contains(f) || c.entries.contains(f));
    assert(f.0 == e.0);
    lemma_value_of(right.entries, f);
}

/// Merging is associative in the values and the version vector, for
/// registers of one history.
pub proof fn lemma_merge_associative<V>(a: MvState<V>, b: MvState<V>, c: MvState<V>)
    requires
        one_history(a, b, c),
    ensures
        written_values(mv_join(mv_join(a, b), c).entries) == written_values(
            mv_join(a, mv_join(b, c)).entries,
        ),
        mv_join(mv_join(a, b), c).version == mv_join(a, mv_join(b, c)).version,
{
    let left = mv_join(mv_join(a, b), c);
    let right = mv_join(a, mv_join(b, c));
    crate::gcounter::lemma_merge_associative(a.version, b.version, c.version);
    assert forall|e: Write<V>| left.entries.contains(e) implies a.entries.contains(e)
        || b.entries.contains(e) || c.entries.contains(e) by {
        lemma_join_member(mv_join(a, b), c, e);
        if mv_join(a, b).entries.contains(e) {
            lemma_join_member(a, b, e);
        }
    }
    assert forall|e: Write<V>| right.entries.contains(e) implies a.entries.contains(e)
        || b.entries.contains(e) || c.entries.contains(e) by {
        lemma_join_member(a, mv_join(b, c), e);
        if mv_join(b, c).entries.contains(e) {
            lemma_join_member(b, c, e);
        }
    }
    assert forall|v: Counts| has_version(left.entries, v) <==> has_version(right.entries, v) by {
        lemma_associative_versions(a, b, c, v);
    }
    assert forall|x: V|
        written_values(left.entries).contains(x) <==> written_values(right.entries).contains(
            x,
        ) by {
        if written_values(left.entries).contains(x) {
            lemma_associative_values(a, b, c, left, right, x);
        }
        if written_values(right.entries).contains(x) {
            lemma_associative_values(a, b, c, right, left, x);
        }
    }
    assert(written_values(left.entries) =~= written_values(right.entries));
}

} // verus!
