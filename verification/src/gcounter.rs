//! The grow-only counter: one count per replica, merged by maximum.

use crate::crdt::{Crdt, DeltaCrdt};
use crate::element::Replicate;
use crate::sorted_map::SortedMap;
use crate::tag::{pair_views, Pair, TagView};
use vstd::prelude::*;

verus! {

/// Counts by replica.
pub type Counts = Map<Seq<char>, u64>;

/// The count of `actor`, zero where it has none.
pub open spec fn count_in(counts: Counts, actor: Seq<char>) -> u64 {
    if counts.dom().contains(actor) {
        counts[actor]
    } else {
        0
    }
}

/// The sum of all counts.
pub open spec fn total(counts: Counts) -> nat
    decreases counts.dom().len(),
    when counts.dom().finite()
{
    if counts.dom().len() == 0 {
        0
    } else {
        let actor = counts.dom().choose();
        counts[actor] as nat + total(counts.remove(actor))
    }
}

/// The join of two states: for each replica the larger count.
pub open spec fn join(a: Counts, b: Counts) -> Counts {
    Map::new(
        |k: Seq<char>| a.dom().contains(k) || b.dom().contains(k),
        |k: Seq<char>|
            if count_in(a, k) >= count_in(b, k) {
                count_in(a, k)
            } else {
                count_in(b, k)
            },
    )
}

/// The counts of `a` that are ahead of `b`.
pub open spec fn ahead(a: Counts, b: Counts) -> Counts {
    Map::new(|k: Seq<char>| a.dom().contains(k) && a[k] > count_in(b, k), |k: Seq<char>| a[k])
}

/// The sum is the count of any one replica plus the sum of the others.
pub proof fn lemma_total_remove(counts: Counts, actor: Seq<char>)
    requires
        counts.dom().finite(),
        counts.dom().contains(actor),
    ensures
        total(counts) == counts[actor] as nat + total(counts.remove(actor)),
    decreases counts.dom().len(),
{
    let chosen = counts.dom().choose();
    if chosen != actor {
        let rest = counts.remove(chosen);
        lemma_total_remove(rest, actor);
        let others = counts.remove(actor);
        assert(others.dom().contains(chosen));
        lemma_total_remove(others, chosen);
        assert(rest.remove(actor) =~= others.remove(chosen));
    }
}

/// A new count adds to the sum.
pub proof fn lemma_total_insert(counts: Counts, actor: Seq<char>, count: u64)
    requires
        counts.dom().finite(),
    ensures
        total(counts.insert(actor, count)) == total(counts) - count_in(counts, actor) + count,
{
    let after = counts.insert(actor, count);
    lemma_total_remove(after, actor);
    if counts.dom().contains(actor) {
        lemma_total_remove(counts, actor);
        assert(after.remove(actor) =~= counts.remove(actor));
    } else {
        assert(after.remove(actor) =~= counts);
    }
}

/// States that give every replica the same count have the same sum: a count
/// of zero weighs as much as no count.
pub proof fn lemma_total_same_counts(a: Counts, b: Counts)
    requires
        a.dom().finite(),
        b.dom().finite(),
        forall|k: Seq<char>| count_in(a, k) == count_in(b, k),
    ensures
        total(a) == total(b),
    decreases a.dom().len(), b.dom().len(),
{
    if a.dom().len() > 0 {
        let k = a.dom().choose();
        lemma_total_remove(a, k);
        let a1 = a.remove(k);
        assert(count_in(a, k) == count_in(b, k));
        if b.dom().contains(k) {
            lemma_total_remove(b, k);
            let b1 = b.remove(k);
            assert forall|x: Seq<char>| count_in(a1, x) == count_in(b1, x) by {
                assert(count_in(a, x) == count_in(b, x));
            }
            lemma_total_same_counts(a1, b1);
        } else {
            assert forall|x: Seq<char>| count_in(a1, x) == count_in(b, x) by {
                assert(count_in(a, x) == count_in(b, x));
            }
            lemma_total_same_counts(a1, b);
        }
    } else if b.dom().len() > 0 {
        let k = b.dom().choose();
        lemma_total_remove(b, k);
        let b1 = b.remove(k);
        assert(count_in(a, k) == count_in(b, k));
        assert forall|x: Seq<char>| count_in(a, x) == count_in(b1, x) by {
            assert(count_in(a, x) == count_in(b, x));
        }
        lemma_total_same_counts(a, b1);
    }
}

/// The join of finite states is finite.
pub proof fn lemma_join_finite(a: Counts, b: Counts)
    requires
        a.dom().finite(),
        b.dom().finite(),
    ensures
        join(a, b).dom().finite(),
        join(a, b).dom() == a.dom().union(b.dom()),
        ahead(a, b).dom().finite(),
{
    assert(join(a, b).dom() =~= a.dom().union(b.dom()));
    vstd::set_lib::lemma_len_subset(ahead(a, b).dom(), a.dom());
}

/// The counts that a list of pairs gives: for each replica the count of its
/// last pair.
pub open spec fn counts_of(pairs: Seq<TagView>) -> Counts
    decreases pairs.len(),
{
    if pairs.len() == 0 {
        Map::empty()
    } else {
        counts_of(pairs.drop_last()).insert(pairs.last().0, pairs.last().1)
    }
}

/// The counts as plain pairs, in order of replica.
pub fn counts_to_pairs(map: &SortedMap<String, u64>) -> (out: Vec<Pair>)
    requires
        map.wf(),
    ensures
        counts_of(pair_views(out@)) == map.as_map(),
        out@.len() == map.keys@.len(),
{
    let mut out: Vec<Pair> = Vec::new();
    let mut i: usize = 0;
    proof {
        map.lemma_prefix(0);
        assert(pair_views(out@) =~= Seq::<TagView>::empty());
    }
    while i < map.len()
        invariant
            map.wf(),
            i <= map.keys@.len(),
            out@.len() == i,
            counts_of(pair_views(out@)) == map.prefix_map(i as int),
        decreases map.keys@.len() - i,
    {
        proof {
            map.lemma_prefix(i as int);
        }
        let ghost before = pair_views(out@);
        out.push((map.key_at(i).clone(), *map.value_at(i)));
        proof {
            let now = pair_views(out@);
            assert(now.drop_last() =~= before);
            assert(now.last() == (map.keys@[i as int]@, map.vals@[i as int]));
        }
        i += 1;
    }
    proof {
        map.lemma_prefix(i as int);
    }
    out
}

/// The counts that plain pairs give.
pub fn counts_from_pairs(pairs: &Vec<Pair>) -> (map: SortedMap<String, u64>)
    ensures
        map.wf(),
        map.as_map() == counts_of(pair_views(pairs@)),
{
    let mut map: SortedMap<String, u64> = SortedMap::new();
    let mut i: usize = 0;
    let ghost views = pair_views(pairs@);
    assert(views.take(0) =~= Seq::<TagView>::empty());
    while i < pairs.len()
        invariant
            map.wf(),
            i <= pairs@.len(),
            views == pair_views(pairs@),
            map.as_map() == counts_of(views.take(i as int)),
        decreases pairs@.len() - i,
    {
        proof {
            let next = views.take(i + 1);
            assert(next.drop_last() =~= views.take(i as int));
            assert(next.last() == views[i as int]);
        }
        map.insert(pairs[i].0.clone(), pairs[i].1);
        i += 1;
    }
    assert(views.take(i as int) =~= views);
    map
}

/// A state gives every replica at least the count that another gives it.
pub open spec fn dominates_counts(a: Counts, b: Counts) -> bool {
    forall|k: Seq<char>| b.dom().contains(k) ==> count_in(a, k) >= #[trigger] b[k]
}

/// Copies counts.
pub fn replicate_counts(from: &SortedMap<String, u64>) -> (out: SortedMap<String, u64>)
    requires
        from.wf(),
    ensures
        out.wf(),
        out.as_map() == from.as_map(),
{
    let mut out: SortedMap<String, u64> = SortedMap::new();
    let mut i: usize = 0;
    proof {
        from.lemma_prefix(0);
    }
    while i < from.len()
        invariant
            from.wf(),
            out.wf(),
            i <= from.keys@.len(),
            out.as_map() == from.prefix_map(i as int),
        decreases from.keys@.len() - i,
    {
        proof {
            from.lemma_prefix(i as int);
        }
        out.insert(from.key_at(i).replicate(), *from.value_at(i));
        i += 1;
    }
    proof {
        from.lemma_prefix(i as int);
    }
    out
}

/// Whether two maps hold the same counts.
pub fn same_counts(a: &SortedMap<String, u64>, b: &SortedMap<String, u64>) -> (same: bool)
    requires
        a.wf(),
        b.wf(),
    ensures
        same == (a.as_map() == b.as_map()),
{
    if a.len() != b.len() {
        proof {
            if a.as_map() == b.as_map() {
                a.lemma_canonical(b);
            }
        }
        return false;
    }
    let mut i: usize = 0;
    while i < a.len()
        invariant
            a.wf(),
            b.wf(),
            a.keys@.len() == b.keys@.len(),
            i <= a.keys@.len(),
            forall|j: int|
                #![trigger a.keys@[j]]
                0 <= j < i ==> (a.keys@[j]@ == b.keys@[j]@ && a.vals@[j] == b.vals@[j]),
        decreases a.keys@.len() - i,
    {
        let same_key = crate::element::same_text(a.key_at(i).as_str(), b.key_at(i).as_str());
        let x: u64 = *a.value_at(i);
        let y: u64 = *b.value_at(i);
        if !same_key || x != y {
            proof {
                if a.as_map() == b.as_map() {
                    a.lemma_canonical(b);
                    assert(a.key_views()[i as int] == b.key_views()[i as int]);
                }
            }
            return false;
        }
        proof {
            assert(a.keys@[i as int]@ == b.keys@[i as int]@);
            assert(a.vals@[i as int] == b.vals@[i as int]);
            assert forall|j: int|
                #![trigger a.keys@[j]]
                0 <= j < i + 1 implies (a.keys@[j]@ == b.keys@[j]@ && a.vals@[j] == b.vals@[j]) by {
                if j < i {
                    assert(a.keys@[j]@ == b.keys@[j]@);
                }
            }
        }
        i += 1;
    }
    proof {
        assert forall|k: Seq<char>| a.has(k) <==> b.has(k) by {
            if a.has(k) {
                let j = a.index_of(k);
                assert(a.keys@[j]@ == b.keys@[j]@);
                assert(b.keys@[j]@ == k);
            }
            if b.has(k) {
                let j = b.index_of(k);
                assert(a.keys@[j]@ == b.keys@[j]@);
                assert(a.keys@[j]@ == k);
            }
        }
        assert forall|k: Seq<char>| a.has(k) implies a.value_of(k) == b.value_of(k) by {
            let j = a.index_of(k);
            a.lemma_position(j);
            assert(a.keys@[j]@ == b.keys@[j]@);
            b.lemma_position(j);
        }
        assert(a.as_map() =~= b.as_map());
    }
    true
}

/// Whether `a` gives every replica at least the count that `b` gives it.
pub fn dominates(a: &SortedMap<String, u64>, b: &SortedMap<String, u64>) -> (r: bool)
    requires
        a.wf(),
        b.wf(),
    ensures
        r == dominates_counts(a.as_map(), b.as_map()),
{
    let mut i: usize = 0;
    while i < b.len()
        invariant
            a.wf(),
            b.wf(),
            i <= b.keys@.len(),
            forall|j: int|
                0 <= j < i ==> count_in(a.as_map(), b.keys@[j]@) >= #[trigger] b.vals@[j],
        decreases b.keys@.len() - i,
    {
        let mine = match a.get(b.key_at(i)) {
            Some(n) => *n,
            None => 0,
        };
        if mine < *b.value_at(i) {
            proof {
                b.lemma_position(i as int);
                let k = b.keys@[i as int]@;
                assert(b.as_map().dom().contains(k));
                assert(b.as_map()[k] == b.vals@[i as int]);
            }
            return false;
        }
        i += 1;
    }
    proof {
        assert forall|k: Seq<char>| b.as_map().dom().contains(k) implies count_in(a.as_map(), k)
            >= #[trigger] b.as_map()[k] by {
            let j = b.index_of(k);
            b.lemma_position(j);
        }
    }
    true
}

/// Joining in the counts of `from` one by one, keeping the larger count each
/// time, gives the join.
pub fn absorb(into: &mut SortedMap<String, u64>, from: &SortedMap<String, u64>)
    requires
        old(into).wf(),
        from.wf(),
    ensures
        final(into).wf(),
        final(into).as_map() == join(old(into).as_map(), from.as_map()),
{
    let ghost start = into.as_map();
    let mut i: usize = 0;
    proof {
        from.lemma_prefix(0);
        assert(into.as_map() =~= join(start, from.prefix_map(0)));
    }
    while i < from.len()
        invariant
            into.wf(),
            from.wf(),
            i <= from.keys@.len(),
            into.as_map() == join(start, from.prefix_map(i as int)),
        decreases from.keys@.len() - i,
    {
        let key = from.key_at(i);
        let count = *from.value_at(i);
        let ghost before = into.as_map();
        proof {
            from.lemma_prefix(i as int);
        }
        let ghost k = key@;
        let ghost next = from.prefix_map(i + 1);
        proof {
            assert(next == from.prefix_map(i as int).insert(k, count));
            assert(!from.prefix_map(i as int).dom().contains(k));
        }
        let (pos, found) = into.search(key);
        if found {
            proof {
                into.lemma_position(pos as int);
                assert(before.dom().contains(k));
                assert(before[k] == into.vals@[pos as int]);
            }
            if count > *into.value_at(pos) {
                into.set_value_at(pos, count);
                assert(into.as_map() == before.insert(k, count));
            }
        } else {
            assert(!before.dom().contains(k));
            into.insert_at(pos, key.replicate(), count);
            assert(into.as_map() == before.insert(k, count));
        }
        proof {
            assert forall|x: Seq<char>| into.as_map().dom().contains(x) <==> join(
                start,
                next,
            ).dom().contains(x) by {}
            assert forall|x: Seq<char>| into.as_map().dom().contains(x) implies into.as_map()[x]
                == join(start, next)[x] by {
                if x == k {
                    assert(count_in(next, k) == count);
                    assert(count_in(from.prefix_map(i as int), k) == 0);
                } else {
                    assert(count_in(next, x) == count_in(from.prefix_map(i as int), x));
                    assert(before.dom().contains(x));
                }
            }
            assert(into.as_map() =~= join(start, next));
        }
        i += 1;
    }
    proof {
        from.lemma_prefix(i as int);
    }
}

/// A grow-only counter.
#[derive(Debug, Clone, PartialEq, Eq)]
pub struct GCounter {
    actor: String,
    counts: SortedMap<String, u64>,
}

impl View for GCounter {
    type V = Counts;

    closed spec fn view(&self) -> Counts {
        self.counts.as_map()
    }
}

/// What one counter has and another lacks: the counts that are ahead.
#[derive(Debug, Clone, PartialEq, Eq)]
pub struct GCounterDelta {
    counts: SortedMap<String, u64>,
}

impl View for GCounterDelta {
    type V = Counts;

    closed spec fn view(&self) -> Counts {
        self.counts.as_map()
    }
}

impl GCounterDelta {
    /// The counts stand in order of replica, each replica once.
    pub closed spec fn wf(&self) -> bool {
        self.counts.wf()
    }

    /// A well-formed delta holds finitely many counts.
    pub proof fn lemma_finite(&self)
        requires
            self.wf(),
        ensures
            self@.dom().finite(),
    {
        self.counts.lemma_prefix(self.counts.keys@.len() as int);
        assert(self@.dom() =~= self.counts.key_set());
    }

    /// The counts of the delta as plain pairs.
    pub fn entries(&self) -> (out: Vec<Pair>)
        requires
            self.wf(),
        ensures
            counts_of(pair_views(out@)) == self@,
    {
        counts_to_pairs(&self.counts)
    }

    /// The delta that plain pairs give.
    pub fn from_entries(entries: &Vec<Pair>) -> (d: Self)
        ensures
            d.wf(),
            d@ == counts_of(pair_views(entries@)),
    {
        GCounterDelta { counts: counts_from_pairs(entries) }
    }

    /// The count that the delta holds for `actor`, if any.
    pub fn get(&self, actor: &str) -> (r: Option<u64>)
        requires
            self.wf(),
        ensures
            r is Some <==> self@.dom().contains(actor@),
            r matches Some(n) ==> n == self@[actor@],
    {
        let key = actor.to_owned();
        match self.counts.get(&key) {
            Some(n) => Some(*n),
            None => None,
        }
    }

    /// Whether the delta holds a count for `actor`.
    pub fn contains_key(&self, actor: &str) -> (b: bool)
        requires
            self.wf(),
        ensures
            b == self@.dom().contains(actor@),
    {
        let key = actor.to_owned();
        self.counts.contains_key(&key)
    }

    /// The number of counts in the delta.
    pub fn len(&self) -> (n: usize)
        requires
            self.wf(),
        ensures
            n == self@.dom().len(),
    {
        proof {
            self.counts.lemma_prefix(self.counts.keys@.len() as int);
            assert(self@.dom() =~= self.counts.key_set());
        }
        self.counts.len()
    }

    /// Whether the delta holds no count.
    pub fn is_empty(&self) -> (b: bool)
        requires
            self.wf(),
        ensures
            b == (self@.dom().len() == 0),
    {
        self.len() == 0
    }
}

impl GCounter {
    /// The counts stand in order of replica, each replica once.
    pub closed spec fn wf(&self) -> bool {
        self.counts.wf()
    }

    /// The replica that this counter counts for.
    pub closed spec fn spec_actor(&self) -> Seq<char> {
        self.actor@
    }

    /// A well-formed counter holds finitely many counts.
    pub proof fn lemma_finite(&self)
        requires
            self.wf(),
        ensures
            self@.dom().finite(),
    {
        self.counts.lemma_prefix(self.counts.keys@.len() as int);
        assert(self@.dom() =~= self.counts.key_set());
    }

    /// Creates a counter for the replica `actor`, without counts.
    pub fn new(actor: &str) -> (c: Self)
        ensures
            c.wf(),
            c.spec_actor() == actor@,
            c@ == Map::<Seq<char>, u64>::empty(),
    {
        Self { actor: actor.to_owned(), counts: SortedMap::new() }
    }

    /// The counts as plain pairs.
    pub fn entries(&self) -> (out: Vec<Pair>)
        requires
            self.wf(),
        ensures
            counts_of(pair_views(out@)) == self@,
    {
        counts_to_pairs(&self.counts)
    }

    /// The counter of the replica `actor` with the counts that plain pairs
    /// give.
    pub fn from_entries(actor: &str, entries: &Vec<Pair>) -> (c: Self)
        ensures
            c.wf(),
            c.spec_actor() == actor@,
            c@ == counts_of(pair_views(entries@)),
    {
        Self { actor: actor.to_owned(), counts: counts_from_pairs(entries) }
    }

    /// Adds one to the count of this replica.
    pub fn increment(&mut self)
        requires
            old(self).wf(),
            count_in(old(self)@, old(self).spec_actor()) < u64::MAX,
        ensures
            final(self).wf(),
            final(self).spec_actor() == old(self).spec_actor(),
            final(self)@ == old(self)@.insert(
                old(self).spec_actor(),
                (count_in(old(self)@, old(self).spec_actor()) + 1) as u64,
            ),
            total(final(self)@) == total(old(self)@) + 1,
    {
        self.increment_by(1);
    }

    /// Adds `n` to the count of this replica.
    pub fn increment_by(&mut self, n: u64)
        requires
            old(self).wf(),
            count_in(old(self)@, old(self).spec_actor()) + n <= u64::MAX,
        ensures
            final(self).wf(),
            final(self).spec_actor() == old(self).spec_actor(),
            final(self)@ == old(self)@.insert(
                old(self).spec_actor(),
                (count_in(old(self)@, old(self).spec_actor()) + n) as u64,
            ),
            total(final(self)@) == total(old(self)@) + n,
    {
        proof {
            self.lemma_finite();
            lemma_total_insert(
                self@,
                self.spec_actor(),
                (count_in(self@, self.spec_actor()) + n) as u64,
            );
        }
        let (pos, found) = self.counts.search(&self.actor);
        if found {
            proof {
                self.counts.lemma_position(pos as int);
            }
            let current = *self.counts.value_at(pos);
            self.counts.set_value_at(pos, current + n);
        } else {
            let key = self.actor.clone();
            self.counts.insert_at(pos, key, n);
        }
    }

    /// The sum of the counts of all replicas.
    pub fn value(&self) -> (v: u64)
        requires
            self.wf(),
            total(self@) <= u64::MAX,
        ensures
            v == total(self@),
    {
        let mut sum: u64 = 0;
        let mut i: usize = 0;
        proof {
            self.counts.lemma_prefix(0);
        }
        while i < self.counts.len()
            invariant
                self.counts.wf(),
                i <= self.counts.keys@.len(),
                sum == total(self.counts.prefix_map(i as int)),
                total(self.counts.as_map()) <= u64::MAX,
            decreases self.counts.keys@.len() - i,
        {
            proof {
                self.lemma_prefix_total(i as int + 1);
                self.counts.lemma_prefix(i as int);
                self.counts.lemma_prefix(i as int + 1);
                lemma_total_remove(self.counts.prefix_map(i as int + 1), self.counts.keys@[i as int]@);
            }
            sum = sum + *self.counts.value_at(i);
            i += 1;
        }
        proof {
            self.counts.lemma_prefix(i as int);
        }
        sum
    }

    /// The first counts sum to no more than all counts.
    proof fn lemma_prefix_total(&self, n: int)
        requires
            self.counts.wf(),
            0 <= n <= self.counts.keys@.len(),
        ensures
            total(self.counts.prefix_map(n)) <= total(self.counts.as_map()),
        decreases self.counts.keys@.len() - n,
    {
        self.counts.lemma_prefix(n);
        if n < self.counts.keys@.len() {
            self.lemma_prefix_total(n + 1);
            self.counts.lemma_prefix(n + 1);
            lemma_total_remove(self.counts.prefix_map(n + 1), self.counts.keys@[n]@);
        }
    }

    /// The replica that this counter counts for.
    pub fn actor(&self) -> (a: &str)
        ensures
            a@ == self.spec_actor(),
    {
        self.actor.as_str()
    }

    /// The count of `actor`, zero where it has none.
    pub fn count_for(&self, actor: &str) -> (n: u64)
        requires
            self.wf(),
        ensures
            n == count_in(self@, actor@),
    {
        let key = actor.to_owned();
        match self.counts.get(&key) {
            Some(n) => *n,
            None => 0,
        }
    }
}

impl Crdt for GCounter {
    open spec fn valid(&self) -> bool {
        self.wf()
    }

    /// Keeps for each replica the larger of the two counts.
    fn merge(&mut self, other: &Self)
        ensures
            final(self)@ == join(old(self)@, other@),
            final(self).spec_actor() == old(self).spec_actor(),
    {
        absorb(&mut self.counts, &other.counts);
    }
}

impl DeltaCrdt for GCounter {
    type Delta = GCounterDelta;

    open spec fn valid_delta(delta: &GCounterDelta) -> bool {
        delta.wf()
    }

    /// The counts of this replica that are ahead of `other`.
    fn delta(&self, other: &Self) -> (d: GCounterDelta)
        ensures
            d@ == ahead(self@, other@),
    {
        let mut out: SortedMap<String, u64> = SortedMap::new();
        let mut i: usize = 0;
        proof {
            self.counts.lemma_prefix(0);
            assert(out.as_map() =~= ahead(self.counts.prefix_map(0), other@));
        }
        while i < self.counts.len()
            invariant
                self.counts.wf(),
                other.counts.wf(),
                out.wf(),
                i <= self.counts.keys@.len(),
                out.as_map() == ahead(self.counts.prefix_map(i as int), other@),
            decreases self.counts.keys@.len() - i,
        {
            let key = self.counts.key_at(i);
            let count = *self.counts.value_at(i);
            proof {
                self.counts.lemma_prefix(i as int);
            }
            let theirs = match other.counts.get(key) {
                Some(n) => *n,
                None => 0,
            };
            if count > theirs {
                out.insert(key.replicate(), count);
            }
            proof {
                assert(out.as_map() =~= ahead(self.counts.prefix_map(i + 1), other@));
            }
            i += 1;
        }
        proof {
            self.counts.lemma_prefix(i as int);
        }
        GCounterDelta { counts: out }
    }

    /// Keeps for each replica the larger of its count and the delta's.
    fn apply_delta(&mut self, delta: &GCounterDelta)
        ensures
            final(self)@ == join(old(self)@, delta@),
            final(self).spec_actor() == old(self).spec_actor(),
    {
        absorb(&mut self.counts, &delta.counts);
    }
}

/// Merging is commutative: the order of two replicas does not change the
/// merged state, nor its value.
pub proof fn lemma_merge_commutative(a: Counts, b: Counts)
    ensures
        join(a, b) == join(b, a),
        total(join(a, b)) == total(join(b, a)),
{
    assert(join(a, b) =~= join(b, a));
}

/// Merging is associative: merging three replicas in either grouping gives
/// the same state, and the same value.
pub proof fn lemma_merge_associative(a: Counts, b: Counts, c: Counts)
    ensures
        join(join(a, b), c) == join(a, join(b, c)),
        total(join(join(a, b), c)) == total(join(a, join(b, c))),
{
    assert(join(join(a, b), c) =~= join(a, join(b, c)));
}

/// Merging is idempotent: merging the same replica a second time changes
/// nothing, and a replica merged with itself stays as it is.
pub proof fn lemma_merge_idempotent(a: Counts, b: Counts)
    ensures
        join(join(a, b), b) == join(a, b),
        join(a, a) == a,
        total(join(join(a, b), b)) == total(join(a, b)),
{
    assert(join(join(a, b), b) =~= join(a, b));
    assert(join(a, a) =~= a);
}

/// Applying to `b` the delta of `a` against `b` gives the value of merging `a`
/// into `b`.
pub proof fn lemma_delta_equivalent(a: Counts, b: Counts)
    requires
        a.dom().finite(),
        b.dom().finite(),
    ensures
        total(join(b, ahead(a, b))) == total(join(b, a)),
        forall|k: Seq<char>| count_in(join(b, ahead(a, b)), k) == count_in(join(b, a), k),
{
    lemma_join_finite(a, b);
    lemma_join_finite(b, a);
    lemma_join_finite(b, ahead(a, b));
    assert forall|k: Seq<char>| count_in(join(b, ahead(a, b)), k) == count_in(join(b, a), k) by {}
    lemma_total_same_counts(join(b, ahead(a, b)), join(b, a));
}

} // verus!
