//! The two-phase set: elements can be added and removed, and a removed
//! element never comes back.

use crate::crdt::Crdt;
use crate::element::Element;
use crate::gset::{
    elem_views, keys_from_vec, keys_to_vec, lemma_lists_set_len, lists_set, select_keys, unite,
};
use crate::sorted_map::SortedMap;
use vstd::prelude::*;

verus! {

/// The elements that were added and those that were removed.
pub type Phases<V> = (Set<V>, Set<V>);

/// The elements of a state: added and not removed.
pub open spec fn members<V>(s: Phases<V>) -> Set<V> {
    s.0.difference(s.1)
}

/// The join of two states: everything added in either, everything removed in
/// either.
pub open spec fn phases_join<V>(a: Phases<V>, b: Phases<V>) -> Phases<V> {
    (a.0.union(b.0), a.1.union(b.1))
}

/// A set with additions and removals that are final.
#[derive(Debug, Clone, PartialEq, Eq)]
pub struct TwoPSet<T: Element> {
    added: SortedMap<T, ()>,
    removed: SortedMap<T, ()>,
}

impl<T: Element> View for TwoPSet<T> {
    type V = Phases<T::V>;

    closed spec fn view(&self) -> Phases<T::V> {
        (self.added.key_set(), self.removed.key_set())
    }
}

impl<T: Element> TwoPSet<T> {
    /// Both parts stand in increasing order, each element once.
    pub closed spec fn wf(&self) -> bool {
        self.added.wf() && self.removed.wf()
    }

    /// A well-formed set is finite.
    pub proof fn lemma_finite(&self)
        requires
            self.wf(),
        ensures
            self@.0.finite(),
            self@.1.finite(),
            members(self@).finite(),
    {
        self.added.lemma_prefix(self.added.keys@.len() as int);
        self.removed.lemma_prefix(self.removed.keys@.len() as int);
    }

    /// Creates an empty set.
    pub fn new() -> (s: Self)
        ensures
            s.wf(),
            s@ == (Set::<T::V>::empty(), Set::<T::V>::empty()),
    {
        let s = Self { added: SortedMap::new(), removed: SortedMap::new() };
        assert(s@.0 =~= Set::<T::V>::empty());
        assert(s@.1 =~= Set::<T::V>::empty());
        s
    }

    /// The set with the given added and removed elements.
    pub fn from_parts(added: Vec<T>, removed: Vec<T>) -> (s: Self)
        ensures
            s.wf(),
            s@ == (elem_views(added@).to_set(), elem_views(removed@).to_set()),
    {
        Self { added: keys_from_vec(&added), removed: keys_from_vec(&removed) }
    }

    /// Copies of all elements that were added, removed ones included.
    pub fn added(&self) -> (items: Vec<T>)
        requires
            self.wf(),
        ensures
            elem_views(items@).to_set() == self@.0,
    {
        keys_to_vec(&self.added)
    }

    /// Copies of all elements that were removed.
    pub fn removed(&self) -> (items: Vec<T>)
        requires
            self.wf(),
        ensures
            elem_views(items@).to_set() == self@.1,
    {
        keys_to_vec(&self.removed)
    }

    /// Adds an element, unless it was removed before. Returns whether it was
    /// newly added.
    pub fn insert(&mut self, value: T) -> (added: bool)
        requires
            old(self).wf(),
        ensures
            final(self).wf(),
            added == (!old(self)@.0.contains(value@) && !old(self)@.1.contains(value@)),
            final(self)@ == if old(self)@.1.contains(value@) {
                old(self)@
            } else {
                (old(self)@.0.insert(value@), old(self)@.1)
            },
    {
        if self.removed.contains_key(&value) {
            return false;
        }
        let (pos, found) = self.added.search(&value);
        if found {
            assert(self@.0 =~= old(self)@.0.insert(value@));
            false
        } else {
            self.added.insert_at(pos, value, ());
            assert(self@.0 =~= old(self)@.0.insert(value@));
            true
        }
    }

    /// Removes an element of the set, for good. Returns whether it was in
    /// the set.
    pub fn remove(&mut self, value: &T) -> (removed: bool)
        requires
            old(self).wf(),
        ensures
            final(self).wf(),
            removed == members(old(self)@).contains(value@),
            final(self)@ == if removed {
                (old(self)@.0, old(self)@.1.insert(value@))
            } else {
                old(self)@
            },
    {
        if !self.added.contains_key(value) {
            return false;
        }
        let (pos, found) = self.removed.search(value);
        if found {
            false
        } else {
            self.removed.insert_at(pos, value.replicate(), ());
            assert(self@.1 =~= old(self)@.1.insert(value@));
            true
        }
    }

    /// Whether the set holds `value`: added and not removed.
    pub fn contains(&self, value: &T) -> (b: bool)
        requires
            self.wf(),
        ensures
            b == members(self@).contains(value@),
    {
        self.added.contains_key(value) && !self.removed.contains_key(value)
    }

    /// The number of elements that were added and not removed.
    pub fn len(&self) -> (n: usize)
        requires
            self.wf(),
        ensures
            n == members(self@).len(),
    {
        self.iter().len()
    }

    /// Whether the set holds nothing.
    pub fn is_empty(&self) -> (b: bool)
        requires
            self.wf(),
        ensures
            b == (members(self@).len() == 0),
    {
        self.len() == 0
    }

    /// The elements that were added and not removed, in increasing order.
    pub fn iter(&self) -> (items: Vec<&T>)
        requires
            self.wf(),
        ensures
            lists_set::<T>(items@, members(self@)),
            items@.len() == members(self@).len(),
    {
        let items = select_keys(&self.added, &self.removed, false);
        proof {
            lemma_lists_set_len::<T>(items@, members(self@));
        }
        items
    }
}

impl<T: Element> Default for TwoPSet<T> {
    fn default() -> (s: Self)
        ensures
            s.wf(),
            s@ == (Set::<T::V>::empty(), Set::<T::V>::empty()),
    {
        Self::new()
    }
}

impl<T: Element> Crdt for TwoPSet<T> {
    open spec fn valid(&self) -> bool {
        self.wf()
    }

    /// Takes over what `other` added and what it removed.
    fn merge(&mut self, other: &Self)
        ensures
            final(self)@ == phases_join(old(self)@, other@),
    {
        unite(&mut self.added, &other.added);
        unite(&mut self.removed, &other.removed);
    }
}

/// Merging is commutative.
pub proof fn lemma_merge_commutative<V>(a: Phases<V>, b: Phases<V>)
    ensures
        phases_join(a, b) == phases_join(b, a),
        members(phases_join(a, b)) == members(phases_join(b, a)),
{
    assert(a.0.union(b.0) =~= b.0.union(a.0));
    assert(a.1.union(b.1) =~= b.1.union(a.1));
}

/// Merging is associative.
pub proof fn lemma_merge_associative<V>(a: Phases<V>, b: Phases<V>, c: Phases<V>)
    ensures
        phases_join(phases_join(a, b), c) == phases_join(a, phases_join(b, c)),
        members(phases_join(phases_join(a, b), c)) == members(
            phases_join(a, phases_join(b, c)),
        ),
{
    assert(a.0.union(b.0).union(c.0) =~= a.0.union(b.0.union(c.0)));
    assert(a.1.union(b.1).union(c.1) =~= a.1.union(b.1.union(c.1)));
}

/// Merging is idempotent.
pub proof fn lemma_merge_idempotent<V>(a: Phases<V>, b: Phases<V>)
    ensures
        phases_join(phases_join(a, b), b) == phases_join(a, b),
        phases_join(a, a) == a,
        members(phases_join(phases_join(a, b), b)) == members(phases_join(a, b)),
{
    assert(a.0.union(b.0).union(b.0) =~= a.0.union(b.0));
    assert(a.1.union(b.1).union(b.1) =~= a.1.union(b.1));
    assert(a.0.union(a.0) =~= a.0);
    assert(a.1.union(a.1) =~= a.1);
}

/// Removal is permanent: an element that either replica has removed is not in
/// the merged set, whatever the other replica added.
pub proof fn lemma_removal_permanent<V>(a: Phases<V>, b: Phases<V>, x: V)
    requires
        a.1.contains(x) || b.1.contains(x),
    ensures
        !members(phases_join(a, b)).contains(x),
{
}

} // verus!
