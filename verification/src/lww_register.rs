//! The last-writer-wins register: the write with the later timestamp wins,
//! and the name of the replica that made the write breaks ties.

use crate::crdt::Crdt;
use crate::element::{compare_text, text_rank, Replicate};
use crate::order::{lemma_lex_order, lex_less, Order};
use crate::time::system_time_micros;
use vstd::prelude::*;
use vstd::std_specs::cmp::PartialEqSpec;

verus! {

/// The state of a register, which is the write it holds: the value, when it
/// was written, and the replica that wrote it.
pub struct Written<V> {
    pub value: V,
    pub timestamp: u64,
    pub writer: Seq<char>,
}

/// `b` is later than `a`: by timestamp, and by writer where the timestamps
/// are equal.
pub open spec fn later<V>(b: Written<V>, a: Written<V>) -> bool {
    b.timestamp > a.timestamp || (b.timestamp == a.timestamp && lex_less(
        text_rank(a.writer),
        text_rank(b.writer),
    ))
}

/// The join of two writes: the later one, and `a` where neither is later.
pub open spec fn merged<V>(a: Written<V>, b: Written<V>) -> Written<V> {
    if later(b, a) {
        b
    } else {
        a
    }
}

/// A register that keeps the latest write.
#[derive(Debug, Clone)]
pub struct LWWRegister<T: Replicate> {
    actor: String,
    writer: String,
    value: T,
    timestamp: u64,
}

impl<T: Replicate + PartialEq> PartialEq for LWWRegister<T> {
    /// Registers are equal where value and timestamp are; the replicas are
    /// not compared.
    fn eq(&self, other: &Self) -> (r: bool) {
        self.value == other.value && self.timestamp == other.timestamp
    }
}

impl<T: Replicate + PartialEq> vstd::std_specs::cmp::PartialEqSpecImpl for LWWRegister<T> {
    open spec fn obeys_eq_spec() -> bool {
        T::obeys_eq_spec()
    }

    closed spec fn eq_spec(&self, other: &Self) -> bool {
        self.value.eq_spec(&other.value) && self.timestamp == other.timestamp
    }
}

impl<T: Replicate> View for LWWRegister<T> {
    type V = Written<T::V>;

    closed spec fn view(&self) -> Written<T::V> {
        Written { value: self.value@, timestamp: self.timestamp, writer: self.writer@ }
    }
}

impl<T: Replicate> LWWRegister<T> {
    /// The replica that holds this register, under whose name it writes.
    pub closed spec fn replica(&self) -> Seq<char> {
        self.actor@
    }

    /// Creates a register with a value, written at the current time of the
    /// system clock.
    pub fn new(actor: &str, value: T) -> (r: Self)
        ensures
            r.replica() == actor@,
            r@.value == value@,
            r@.writer == actor@,
    {
        Self::with_timestamp(actor, value, system_time_micros())
    }

    /// Creates a register with a value written at `timestamp`.
    pub fn with_timestamp(actor: &str, value: T, timestamp: u64) -> (r: Self)
        ensures
            r.replica() == actor@,
            r@ == (Written { value: value@, timestamp, writer: actor@ }),
    {
        Self { actor: actor.to_owned(), writer: actor.to_owned(), value, timestamp }
    }

    /// Puts a register together from its parts: the replica that holds it,
    /// and the write it holds with the replica that made it.
    pub fn from_parts(actor: &str, writer: &str, value: T, timestamp: u64) -> (r: Self)
        ensures
            r.replica() == actor@,
            r@ == (Written { value: value@, timestamp, writer: writer@ }),
    {
        Self { actor: actor.to_owned(), writer: writer.to_owned(), value, timestamp }
    }

    /// Writes a value, with the current time of the system clock as its
    /// timestamp.
    pub fn set(&mut self, value: T)
        ensures
            final(self).replica() == old(self).replica(),
            final(self)@.writer == old(self).replica(),
            final(self)@.value == value@,
    {
        self.value = value;
        self.timestamp = system_time_micros();
        self.writer = self.actor.replicate();
    }

    /// Writes a value at `timestamp`, unless the register holds a later
    /// write.
    pub fn set_with_timestamp(&mut self, value: T, timestamp: u64)
        ensures
            final(self).replica() == old(self).replica(),
            final(self)@ == if timestamp >= old(self)@.timestamp {
                Written { value: value@, timestamp, writer: old(self).replica() }
            } else {
                old(self)@
            },
    {
        if timestamp >= self.timestamp {
            self.value = value;
            self.timestamp = timestamp;
            self.writer = self.actor.replicate();
        }
    }

    /// The value.
    pub fn value(&self) -> (v: &T)
        ensures
            v@ == self@.value,
    {
        &self.value
    }

    /// When the value was written.
    pub fn timestamp(&self) -> (t: u64)
        ensures
            t == self@.timestamp,
    {
        self.timestamp
    }

    /// The replica that holds this register.
    pub fn actor(&self) -> (a: &str)
        ensures
            a@ == self.replica(),
    {
        self.actor.as_str()
    }

    /// The replica that wrote the value.
    pub fn writer(&self) -> (a: &str)
        ensures
            a@ == self@.writer,
    {
        self.writer.as_str()
    }
}

impl<T: Replicate> Crdt for LWWRegister<T> {
    open spec fn valid(&self) -> bool {
        true
    }

    /// Takes the write of `other` where it is later: the register then holds
    /// the later of the two writes, by timestamp and writer.
    fn merge(&mut self, other: &Self)
        ensures
            final(self).replica() == old(self).replica(),
            final(self)@ == merged(old(self)@, other@),
    {
        let newer = if other.timestamp > self.timestamp {
            true
        } else if other.timestamp == self.timestamp {
            proof {
                lemma_lex_order(text_rank(other.writer@), text_rank(self.writer@));
            }
            match compare_text(other.writer.as_str(), self.writer.as_str()) {
                Order::Greater => true,
                _ => false,
            }
        } else {
            false
        };
        if newer {
            self.value = other.value.replicate();
            self.timestamp = other.timestamp;
            self.writer = other.writer.replicate();
        }
    }
}

/// Neither write is later than the other: they have one timestamp and one
/// writer.
pub proof fn lemma_later_total<V>(a: Written<V>, b: Written<V>)
    ensures
        !later(a, a),
        later(a, b) ==> !later(b, a),
        !later(a, b) && !later(b, a) ==> a.timestamp == b.timestamp && a.writer == b.writer,
{
    let ra = text_rank(a.writer);
    let rb = text_rank(b.writer);
    lemma_lex_order(ra, rb);
    crate::order::lemma_lex_irreflexive(ra);
    if lex_less(ra, rb) {
        crate::order::lemma_lex_asymmetric(ra, rb);
    }
    if ra == rb {
        crate::element::lemma_text_rank_injective(a.writer, b.writer);
    }
}

/// Being later is transitive.
pub proof fn lemma_later_transitive<V>(a: Written<V>, b: Written<V>, c: Written<V>)
    requires
        later(b, a),
        later(c, b),
    ensures
        later(c, a),
{
    if a.timestamp == b.timestamp && b.timestamp == c.timestamp {
        crate::order::lemma_lex_transitive(
            text_rank(a.writer),
            text_rank(b.writer),
            text_rank(c.writer),
        );
    }
}

/// Merging is commutative, for two registers that hold the same value where
/// timestamp and writer are the same: no replica wrote two values at one
/// time.
pub proof fn lemma_merge_commutative<V>(a: Written<V>, b: Written<V>)
    requires
        a.timestamp == b.timestamp && a.writer == b.writer ==> a.value == b.value,
    ensures
        merged(a, b) == merged(b, a),
{
    lemma_later_total(a, b);
}

/// Merging is associative: the latest of three writes wins in either
/// grouping, and the earliest in the row among those that are latest alike.
pub proof fn lemma_merge_associative<V>(a: Written<V>, b: Written<V>, c: Written<V>)
    ensures
        merged(merged(a, b), c) == merged(a, merged(b, c)),
{
    lemma_later_total(a, b);
    lemma_later_total(b, c);
    lemma_later_total(a, c);
    if later(b, a) && later(c, b) {
        lemma_later_transitive(a, b, c);
    }
    if later(c, a) && !later(c, b) {
        // `b` is at least as late as `c`, which is later than `a`.
        if later(b, c) {
            lemma_later_transitive(a, c, b);
        }
    }
    if later(b, a) && !later(c, a) {
        // `a` is at least as late as `c`, and `b` is later than `a`.
        if later(a, c) {
            lemma_later_transitive(c, a, b);
        }
    }
}

/// Merging is idempotent: merging the same register a second time changes
/// nothing, and a register merged with itself stays as it is.
pub proof fn lemma_merge_idempotent<V>(a: Written<V>, b: Written<V>)
    ensures
        merged(merged(a, b), b) == merged(a, b),
        merged(a, a) == a,
{
    lemma_later_total(a, b);
    lemma_later_total(b, b);
}

} // verus!
