//! The traits that every replicated type implements.

use vstd::prelude::*;

verus! {

/// A state-based replicated data type.
///
/// `merge` joins the state of another replica into this one. Each type states
/// what its join is, and proves that it is commutative, associative and
/// idempotent.
pub trait Crdt {
    /// The state is well formed.
    spec fn valid(&self) -> bool;

    /// Joins the state of `other` into this replica. `other` is not changed.
    fn merge(&mut self, other: &Self)
        requires
            old(self).valid(),
            other.valid(),
        ensures
            final(self).valid(),
    ;
}

/// A replicated type that can name what one replica has and another lacks.
pub trait DeltaCrdt: Crdt {
    /// What is sent from one replica to bring another up to date.
    type Delta;

    /// The delta is well formed.
    spec fn valid_delta(delta: &Self::Delta) -> bool;

    /// What this replica has and `other` lacks.
    fn delta(&self, other: &Self) -> (d: Self::Delta)
        requires
            self.valid(),
            other.valid(),
        ensures
            Self::valid_delta(&d),
    ;

    /// Joins a delta into this replica.
    fn apply_delta(&mut self, delta: &Self::Delta)
        requires
            old(self).valid(),
            Self::valid_delta(delta),
        ensures
            final(self).valid(),
    ;
}

/// A replicated type whose changes can be written down as operations, to be
/// stored in an event log, sent to other replicas and applied again.
pub trait OpCrdt: Crdt {
    /// An operation of this type.
    type Op;

    /// The operation is well formed.
    spec fn valid_op(op: &Self::Op) -> bool;

    /// Applies an operation, of this replica or of another.
    fn apply_op(&mut self, op: &Self::Op)
        requires
            old(self).valid(),
            Self::valid_op(op),
        ensures
            final(self).valid(),
    ;
}

} // verus!
