//! The positive-negative counter: one grow-only counter for increments and
//! one for decrements.

use crate::crdt::{Crdt, DeltaCrdt};
use crate::gcounter::{ahead, count_in, counts_of, join, total, Counts, GCounter, GCounterDelta};
use crate::tag::{pair_views, Pair};
use vstd::prelude::*;

verus! {

/// The counts of increments and of decrements.
pub type Tally = (Counts, Counts);

/// The value of a state: all increments less all decrements.
pub open spec fn tally_value(t: Tally) -> int {
    total(t.0) - total(t.1)
}

/// The join of two states, side by side.
pub open spec fn tally_join(a: Tally, b: Tally) -> Tally {
    (join(a.0, b.0), join(a.1, b.1))
}

/// What `a` is ahead of `b`, side by side.
pub open spec fn tally_ahead(a: Tally, b: Tally) -> Tally {
    (ahead(a.0, b.0), ahead(a.1, b.1))
}

/// A counter that can be incremented and decremented.
#[derive(Debug, Clone, PartialEq, Eq)]
pub struct PNCounter {
    increments: GCounter,
    decrements: GCounter,
}

impl View for PNCounter {
    type V = Tally;

    closed spec fn view(&self) -> Tally {
        (self.increments@, self.decrements@)
    }
}

/// What one counter has and another lacks, for increments and decrements.
#[derive(Debug, Clone, PartialEq, Eq)]
pub struct PNCounterDelta {
    increments: GCounterDelta,
    decrements: GCounterDelta,
}

impl View for PNCounterDelta {
    type V = Tally;

    closed spec fn view(&self) -> Tally {
        (self.increments@, self.decrements@)
    }
}

impl PNCounterDelta {
    /// Both sides are well formed.
    pub closed spec fn wf(&self) -> bool {
        self.increments.wf() && self.decrements.wf()
    }

    /// The counts of increments as plain pairs.
    pub fn increments(&self) -> (out: Vec<Pair>)
        requires
            self.wf(),
        ensures
            counts_of(pair_views(out@)) == self@.0,
    {
        self.increments.entries()
    }

    /// The counts of decrements as plain pairs.
    pub fn decrements(&self) -> (out: Vec<Pair>)
        requires
            self.wf(),
        ensures
            counts_of(pair_views(out@)) == self@.1,
    {
        self.decrements.entries()
    }

    /// The delta that plain pairs give.
    pub fn from_entries(increments: &Vec<Pair>, decrements: &Vec<Pair>) -> (d: Self)
        ensures
            d.wf(),
            d@ == (counts_of(pair_views(increments@)), counts_of(pair_views(decrements@))),
    {
        PNCounterDelta {
            increments: GCounterDelta::from_entries(increments),
            decrements: GCounterDelta::from_entries(decrements),
        }
    }
}

impl PNCounter {
    /// Both sides are well formed and count for the same replica.
    pub closed spec fn wf(&self) -> bool {
        &&& self.increments.wf()
        &&& self.decrements.wf()
        &&& self.increments.spec_actor() == self.decrements.spec_actor()
    }

    /// The replica that this counter counts for.
    pub closed spec fn spec_actor(&self) -> Seq<char> {
        self.increments.spec_actor()
    }

    /// A well-formed counter holds finitely many counts.
    pub proof fn lemma_finite(&self)
        requires
            self.wf(),
        ensures
            self@.0.dom().finite(),
            self@.1.dom().finite(),
    {
        self.increments.lemma_finite();
        self.decrements.lemma_finite();
    }

    /// Creates a counter for the replica `actor`, at zero.
    pub fn new(actor: &str) -> (c: Self)
        ensures
            c.wf(),
            c.spec_actor() == actor@,
            c@ == (Map::<Seq<char>, u64>::empty(), Map::<Seq<char>, u64>::empty()),
            tally_value(c@) == 0,
    {
        Self { increments: GCounter::new(actor), decrements: GCounter::new(actor) }
    }

    /// The counts of increments as plain pairs.
    pub fn increments(&self) -> (out: Vec<Pair>)
        requires
            self.wf(),
        ensures
            counts_of(pair_views(out@)) == self@.0,
    {
        self.increments.entries()
    }

    /// The counts of decrements as plain pairs.
    pub fn decrements(&self) -> (out: Vec<Pair>)
        requires
            self.wf(),
        ensures
            counts_of(pair_views(out@)) == self@.1,
    {
        self.decrements.entries()
    }

    /// The counter of the replica `actor` with the counts that plain pairs
    /// give.
    pub fn from_entries(actor: &str, increments: &Vec<Pair>, decrements: &Vec<Pair>) -> (c: Self)
        ensures
            c.wf(),
            c.spec_actor() == actor@,
            c@ == (counts_of(pair_views(increments@)), counts_of(pair_views(decrements@))),
    {
        Self {
            increments: GCounter::from_entries(actor, increments),
            decrements: GCounter::from_entries(actor, decrements),
        }
    }

    /// The replica that this counter counts for.
    pub fn actor(&self) -> (a: &str)
        ensures
            a@ == self.spec_actor(),
    {
        self.increments.actor()
    }

    /// Adds one.
    pub fn increment(&mut self)
        requires
            old(self).wf(),
            count_in(old(self)@.0, old(self).spec_actor()) < u64::MAX,
        ensures
            final(self).wf(),
            final(self).spec_actor() == old(self).spec_actor(),
            final(self)@ == (
                old(self)@.0.insert(
                    old(self).spec_actor(),
                    (count_in(old(self)@.0, old(self).spec_actor()) + 1) as u64,
                ),
                old(self)@.1,
            ),
            tally_value(final(self)@) == tally_value(old(self)@) + 1,
    {
        self.increments.increment();
    }

    /// Takes one away.
    pub fn decrement(&mut self)
        requires
            old(self).wf(),
            count_in(old(self)@.1, old(self).spec_actor()) < u64::MAX,
        ensures
            final(self).wf(),
            final(self).spec_actor() == old(self).spec_actor(),
            final(self)@ == (
                old(self)@.0,
                old(self)@.1.insert(
                    old(self).spec_actor(),
                    (count_in(old(self)@.1, old(self).spec_actor()) + 1) as u64,
                ),
            ),
            tally_value(final(self)@) == tally_value(old(self)@) - 1,
    {
        self.decrements.increment();
    }

    /// All increments less all decrements.
    pub fn value(&self) -> (v: i64)
        requires
            self.wf(),
            total(self@.0) <= i64::MAX,
            total(self@.1) <= i64::MAX,
        ensures
            v == tally_value(self@),
    {
        let up = self.increments.value();
        let down = self.decrements.value();
        up as i64 - down as i64
    }
}

impl Crdt for PNCounter {
    open spec fn valid(&self) -> bool {
        self.wf()
    }

    /// Merges increments with increments and decrements with decrements.
    fn merge(&mut self, other: &Self)
        ensures
            final(self)@ == tally_join(old(self)@, other@),
            final(self).spec_actor() == old(self).spec_actor(),
    {
        self.increments.merge(&other.increments);
        self.decrements.merge(&other.decrements);
    }
}

impl DeltaCrdt for PNCounter {
    type Delta = PNCounterDelta;

    open spec fn valid_delta(delta: &PNCounterDelta) -> bool {
        delta.wf()
    }

    /// The deltas of both sides.
    fn delta(&self, other: &Self) -> (d: PNCounterDelta)
        ensures
            d@ == tally_ahead(self@, other@),
    {
        PNCounterDelta {
            increments: self.increments.delta(&other.increments),
            decrements: self.decrements.delta(&other.decrements),
        }
    }

    /// Applies the deltas of both sides.
    fn apply_delta(&mut self, delta: &PNCounterDelta)
        ensures
            final(self)@ == tally_join(old(self)@, delta@),
            final(self).spec_actor() == old(self).spec_actor(),
    {
        self.increments.apply_delta(&delta.increments);
        self.decrements.apply_delta(&delta.decrements);
    }
}

/// Merging is commutative.
pub proof fn lemma_merge_commutative(a: Tally, b: Tally)
    ensures
        tally_join(a, b) == tally_join(b, a),
        tally_value(tally_join(a, b)) == tally_value(tally_join(b, a)),
{
    crate::gcounter::lemma_merge_commutative(a.0, b.0);
    crate::gcounter::lemma_merge_commutative(a.1, b.1);
}

/// Merging is associative.
pub proof fn lemma_merge_associative(a: Tally, b: Tally, c: Tally)
    ensures
        tally_join(tally_join(a, b), c) == tally_join(a, tally_join(b, c)),
        tally_value(tally_join(tally_join(a, b), c)) == tally_value(
            tally_join(a, tally_join(b, c)),
        ),
{
    crate::gcounter::lemma_merge_associative(a.0, b.0, c.0);
    crate::gcounter::lemma_merge_associative(a.1, b.1, c.1);
}

/// Merging is idempotent.
pub proof fn lemma_merge_idempotent(a: Tally, b: Tally)
    ensures
        tally_join(tally_join(a, b), b) == tally_join(a, b),
        tally_value(tally_join(tally_join(a, b), b)) == tally_value(tally_join(a, b)),
{
    crate::gcounter::lemma_merge_idempotent(a.0, b.0);
    crate::gcounter::lemma_merge_idempotent(a.1, b.1);
}

/// Applying to `b` the delta of `a` against `b` gives the value of merging `a`
/// into `b`.
pub proof fn lemma_delta_equivalent(a: Tally, b: Tally)
    requires
        a.0.dom().finite(),
        a.1.dom().finite(),
        b.0.dom().finite(),
        b.1.dom().finite(),
    ensures
        tally_value(tally_join(b, tally_ahead(a, b))) == tally_value(tally_join(b, a)),
{
    crate::gcounter::lemma_delta_equivalent(a.0, b.0);
    crate::gcounter::lemma_delta_equivalent(a.1, b.1);
}

} // verus!
