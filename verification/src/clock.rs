//! The hybrid logical clock: timestamps that increase strictly on every
//! call, whatever the wall clock does.

use crate::time::system_time_ms;
use std::cmp::Ordering;
use vstd::prelude::*;
use vstd::std_specs::cmp::PartialOrdSpecImpl;

verus! {

/// A timestamp: wall-clock milliseconds, a counter for events within one
/// millisecond, and the node that made it. Ordered by these three in turn.
#[derive(Debug, Clone, Copy, PartialEq, Eq, Hash, Ord, Structural)]
pub struct HybridTimestamp {
    /// Wall-clock milliseconds.
    pub physical: u64,
    /// Counter within one millisecond.
    pub logical: u16,
    /// The node that made the timestamp.
    pub node_id: u16,
}

/// `a` comes strictly before `b`.
pub open spec fn precedes(a: HybridTimestamp, b: HybridTimestamp) -> bool {
    a.physical < b.physical || (a.physical == b.physical && (a.logical < b.logical || (a.logical
        == b.logical && a.node_id < b.node_id)))
}

/// The timestamp packed into 128 bits: the physical part in the upper 64, then
/// the counter, then the node; the lowest 32 bits are zero.
pub open spec fn packed(t: HybridTimestamp) -> int {
    t.physical * 0x1_0000_0000_0000_0000 + t.logical * 0x1_0000_0000_0000 + t.node_id
        * 0x1_0000_0000
}

/// The timestamp of a local event: the wall clock where it has advanced, else
/// the last timestamp with its counter raised by one.
pub open spec fn ticked(last: HybridTimestamp, wall: u64, node: u16) -> HybridTimestamp {
    if wall > last.physical {
        HybridTimestamp { physical: wall, logical: 0, node_id: node }
    } else {
        HybridTimestamp {
            physical: last.physical,
            logical: (last.logical + 1) as u16,
            node_id: node,
        }
    }
}

/// The largest of three.
pub open spec fn max3(a: u64, b: u64, c: u64) -> u64 {
    if a >= b && a >= c {
        a
    } else if b >= c {
        b
    } else {
        c
    }
}

/// The timestamp after receiving `remote`: the latest physical time of wall
/// clock, last timestamp and remote; the counter one above the counters that
/// share that physical time, zero where only the wall clock has it.
pub open spec fn received(last: HybridTimestamp, remote: HybridTimestamp, wall: u64, node: u16)
    -> HybridTimestamp {
    let top = max3(wall, last.physical, remote.physical);
    let logical = if top == last.physical && top == remote.physical {
        if last.logical >= remote.logical {
            last.logical + 1
        } else {
            remote.logical + 1
        }
    } else if top == last.physical {
        last.logical + 1
    } else if top == remote.physical {
        remote.logical + 1
    } else {
        0
    };
    HybridTimestamp { physical: top, logical: logical as u16, node_id: node }
}

impl PartialOrd for HybridTimestamp {
    fn partial_cmp(&self, other: &Self) -> (r: Option<Ordering>) {
        if self.physical < other.physical {
            Some(Ordering::Less)
        } else if self.physical > other.physical {
            Some(Ordering::Greater)
        } else if self.logical < other.logical {
            Some(Ordering::Less)
        } else if self.logical > other.logical {
            Some(Ordering::Greater)
        } else if self.node_id < other.node_id {
            Some(Ordering::Less)
        } else if self.node_id > other.node_id {
            Some(Ordering::Greater)
        } else {
            Some(Ordering::Equal)
        }
    }
}

impl PartialOrdSpecImpl for HybridTimestamp {
    open spec fn obeys_partial_cmp_spec() -> bool {
        true
    }

    open spec fn partial_cmp_spec(&self, other: &Self) -> Option<Ordering> {
        if precedes(*self, *other) {
            Some(Ordering::Less)
        } else if precedes(*other, *self) {
            Some(Ordering::Greater)
        } else {
            Some(Ordering::Equal)
        }
    }
}

impl HybridTimestamp {
    /// The timestamp before all others.
    pub fn zero() -> (t: Self)
        ensures
            t == (HybridTimestamp { physical: 0, logical: 0, node_id: 0 }),
    {
        Self { physical: 0, logical: 0, node_id: 0 }
    }

    /// Packs the timestamp into 128 bits, keeping the order.
    pub fn to_u128(&self) -> (p: u128)
        ensures
            p == packed(*self),
    {
        let physical = self.physical as u128;
        let logical = self.logical as u128;
        let node = self.node_id as u128;
        assert((physical << 64) | (logical << 48) | (node << 32) == physical
            * 0x1_0000_0000_0000_0000 + logical * 0x1_0000_0000_0000 + node * 0x1_0000_0000)
            by (bit_vector)
            requires
                physical < 0x1_0000_0000_0000_0000,
                logical < 0x1_0000,
                node < 0x1_0000,
        ;
        (physical << 64) | (logical << 48) | (node << 32)
    }

    /// Whether this timestamp comes strictly before `other`.
    pub fn is_before(&self, other: &Self) -> (b: bool)
        ensures
            b == precedes(*self, *other),
    {
        self.physical < other.physical || (self.physical == other.physical && (self.logical
            < other.logical || (self.logical == other.logical && self.node_id < other.node_id)))
    }
}

/// Packing keeps the order of timestamps.
pub proof fn lemma_packed_order(a: HybridTimestamp, b: HybridTimestamp)
    ensures
        precedes(a, b) <==> packed(a) < packed(b),
        a == b <==> packed(a) == packed(b),
{
}

/// The order of timestamps is strict and total.
pub proof fn lemma_precedes_order(a: HybridTimestamp, b: HybridTimestamp, c: HybridTimestamp)
    ensures
        !precedes(a, a),
        precedes(a, b) && precedes(b, c) ==> precedes(a, c),
        precedes(a, b) || precedes(b, a) || a == b,
{
}

/// Timestamps of which each comes before the next are strictly increasing
/// throughout: what a clock gives in a row of calls, in any mix of local
/// events and receptions, never repeats or goes back.
pub proof fn lemma_increasing_chain(stamps: Seq<HybridTimestamp>, i: int, j: int)
    requires
        forall|k: int| 0 <= k < stamps.len() - 1 ==> precedes(#[trigger] stamps[k], stamps[k + 1]),
        0 <= i < j < stamps.len(),
    ensures
        precedes(stamps[i], stamps[j]),
    decreases j - i,
{
    if j > i + 1 {
        lemma_increasing_chain(stamps, i, j - 1);
        assert(precedes(stamps[j - 1], stamps[j]));
    }
}

/// A local event gets a timestamp after the last one, whatever the wall clock
/// shows.
pub proof fn lemma_ticked_later(last: HybridTimestamp, wall: u64, node: u16)
    requires
        wall <= last.physical ==> last.logical < u16::MAX,
    ensures
        precedes(last, ticked(last, wall, node)),
{
}

/// The counter of whichever of the two timestamps may give the physical time
/// of the next one has room to rise: that of the later of the two, and both
/// where they have one physical time.
pub open spec fn counters_fit(last: HybridTimestamp, remote: HybridTimestamp) -> bool {
    &&& last.physical >= remote.physical ==> last.logical < u16::MAX
    &&& remote.physical >= last.physical ==> remote.logical < u16::MAX
}

/// Receiving gives a timestamp after the last one and after the remote one,
/// whatever the wall clock shows.
pub proof fn lemma_received_later(
    last: HybridTimestamp,
    remote: HybridTimestamp,
    wall: u64,
    node: u16,
)
    requires
        counters_fit(last, remote),
    ensures
        precedes(last, received(last, remote, wall, node)),
        precedes(remote, received(last, remote, wall, node)),
{
}

/// The timestamp of a local event at wall-clock time `wall`. Where the wall
/// clock has not advanced, the counter must have room to rise.
pub fn tick(last: HybridTimestamp, wall: u64, node: u16) -> (t: HybridTimestamp)
    requires
        wall <= last.physical ==> last.logical < u16::MAX,
    ensures
        t == ticked(last, wall, node),
        precedes(last, t),
{
    if wall > last.physical {
        HybridTimestamp { physical: wall, logical: 0, node_id: node }
    } else {
        HybridTimestamp { physical: last.physical, logical: last.logical + 1, node_id: node }
    }
}

/// The timestamp after receiving `remote` at wall-clock time `wall`.
pub fn absorb(last: HybridTimestamp, remote: &HybridTimestamp, wall: u64, node: u16) -> (t:
    HybridTimestamp)
    requires
        counters_fit(last, *remote),
    ensures
        t == received(last, *remote, wall, node),
        precedes(last, t),
        precedes(*remote, t),
{
    let mut top = wall;
    if last.physical > top {
        top = last.physical;
    }
    if remote.physical > top {
        top = remote.physical;
    }
    let logical = if top == last.physical && top == remote.physical {
        if last.logical >= remote.logical {
            last.logical + 1
        } else {
            remote.logical + 1
        }
    } else if top == last.physical {
        last.logical + 1
    } else if top == remote.physical {
        remote.logical + 1
    } else {
        0
    };
    HybridTimestamp { physical: top, logical, node_id: node }
}

/// Where a clock reads the physical time from.
pub trait TimeSource {
    /// The source can be read.
    open spec fn ready(&self) -> bool {
        true
    }

    /// The source may show `ms` when it is read. Where nothing is known of
    /// a source, it may show anything.
    open spec fn gives(&self, ms: u64) -> bool {
        true
    }

    /// The current physical time in milliseconds.
    fn now_ms(&self) -> (ms: u64)
        requires
            self.ready(),
        ensures
            self.gives(ms),
    ;
}

/// The system clock.
#[derive(Debug, Clone, Copy, PartialEq, Eq)]
pub struct SystemClock;

impl TimeSource for SystemClock {
    open spec fn ready(&self) -> bool {
        true
    }

    /// The system clock may show any time.
    open spec fn gives(&self, ms: u64) -> bool {
        true
    }

    fn now_ms(&self) -> (ms: u64) {
        system_time_ms()
    }
}

/// A function that gives the physical time.
pub struct FnSource<F: Fn() -> u64> {
    pub read: F,
}

impl<F: Fn() -> u64> TimeSource for FnSource<F> {
    open spec fn ready(&self) -> bool {
        call_requires(self.read, ())
    }

    /// The source shows what the function returns.
    open spec fn gives(&self, ms: u64) -> bool {
        call_ensures(self.read, (), ms)
    }

    fn now_ms(&self) -> (ms: u64) {
        (self.read)()
    }
}

/// The clock of one node.
pub struct HybridClock<S: TimeSource> {
    node_id: u16,
    last: HybridTimestamp,
    source: S,
}

impl HybridClock<SystemClock> {
    /// Creates a clock for `node_id` that reads the system clock.
    pub fn new(node_id: u16) -> (c: Self)
        ensures
            c.wf(),
            c.node() == node_id,
            c.last() == (HybridTimestamp { physical: 0, logical: 0, node_id: 0 }),
            c.source() == SystemClock,
    {
        Self { node_id, last: HybridTimestamp::zero(), source: SystemClock }
    }
}

impl<F: Fn() -> u64> HybridClock<FnSource<F>> {
    /// Creates a clock for `node_id` that reads the physical time in
    /// milliseconds from `time_fn`.
    pub fn with_time_source(node_id: u16, time_fn: F) -> (c: Self)
        requires
            call_requires(time_fn, ()),
        ensures
            c.wf(),
            c.node() == node_id,
            c.last() == (HybridTimestamp { physical: 0, logical: 0, node_id: 0 }),
            c.source().read == time_fn,
    {
        Self { node_id, last: HybridTimestamp::zero(), source: FnSource { read: time_fn } }
    }
}

impl<S: TimeSource> HybridClock<S> {
    /// The node of this clock.
    pub closed spec fn node(&self) -> u16 {
        self.node_id
    }

    /// The last timestamp that the clock gave.
    pub closed spec fn last(&self) -> HybridTimestamp {
        self.last
    }

    /// Where the clock reads the physical time from.
    pub closed spec fn source(&self) -> S {
        self.source
    }

    /// The time source can be read.
    pub closed spec fn wf(&self) -> bool {
        self.source.ready()
    }

    /// The timestamp of a local event, made from a reading of the time
    /// source. It comes strictly after every timestamp that this clock gave
    /// before.
    pub fn now(&mut self) -> (t: HybridTimestamp)
        requires
            old(self).wf(),
            old(self).last().logical < u16::MAX,
        ensures
            final(self).wf(),
            final(self).node() == old(self).node(),
            final(self).source() == old(self).source(),
            final(self).last() == t,
            precedes(old(self).last(), t),
            exists|wall: u64|
                old(self).source().gives(wall) && t == #[trigger] ticked(
                    old(self).last(),
                    wall,
                    old(self).node(),
                ),
    {
        let wall = self.source.now_ms();
        self.last = tick(self.last, wall, self.node_id);
        self.last
    }

    /// The timestamp after receiving `remote`, made from a reading of the
    /// time source. It comes strictly after every timestamp that this clock
    /// gave before, and after `remote`.
    pub fn receive(&mut self, remote: &HybridTimestamp) -> (t: HybridTimestamp)
        requires
            old(self).wf(),
            counters_fit(old(self).last(), *remote),
        ensures
            final(self).wf(),
            final(self).node() == old(self).node(),
            final(self).source() == old(self).source(),
            final(self).last() == t,
            precedes(old(self).last(), t),
            precedes(*remote, t),
            exists|wall: u64|
                old(self).source().gives(wall) && t == #[trigger] received(
                    old(self).last(),
                    *remote,
                    wall,
                    old(self).node(),
                ),
    {
        let wall = self.source.now_ms();
        self.last = absorb(self.last, remote, wall, self.node_id);
        self.last
    }

    /// The node of this clock.
    pub fn node_id(&self) -> (n: u16)
        ensures
            n == self.node(),
    {
        self.node_id
    }

    /// The last timestamp that the clock gave.
    pub fn last_timestamp(&self) -> (t: HybridTimestamp)
        ensures
            t == self.last(),
    {
        self.last
    }
}

} // verus!
