//! The grow-only set: elements are added and never removed.

use crate::crdt::Crdt;
use crate::element::Element;
use crate::order::{lex_less, strictly_increasing};
use crate::sorted_map::SortedMap;
use vstd::prelude::*;

verus! {

/// The views of a list of shared elements.
pub open spec fn ref_views<T: Element>(items: Seq<&T>) -> Seq<T::V> {
    items.map_values(|t: &T| t@)
}

/// The ranks of a list of views.
pub open spec fn view_ranks<T: Element>(views: Seq<T::V>) -> Seq<Seq<int>> {
    views.map_values(|v: T::V| T::rank(v))
}

/// `items` lists the elements of `set`, each once, in increasing order.
pub open spec fn lists_set<T: Element>(items: Seq<&T>, set: Set<T::V>) -> bool {
    &&& strictly_increasing(view_ranks::<T>(ref_views(items)))
    &&& forall|v: T::V| set.contains(v) <==> ref_views(items).contains(v)
}

/// The views of a list of elements.
pub open spec fn elem_views<T: Element>(items: Seq<T>) -> Seq<T::V> {
    items.map_values(|t: T| t@)
}

/// Copies of the keys of a map, in increasing order.
pub fn keys_to_vec<T: Element>(map: &SortedMap<T, ()>) -> (out: Vec<T>)
    requires
        map.wf(),
    ensures
        elem_views(out@).to_set() == map.key_set(),
        elem_views(out@) == map.key_views(),
{
    let mut out: Vec<T> = Vec::new();
    let mut i: usize = 0;
    while i < map.len()
        invariant
            map.wf(),
            i <= map.keys@.len(),
            out@.len() == i,
            forall|k: int| 0 <= k < i ==> (#[trigger] out@[k])@ == map.keys@[k]@,
        decreases map.keys@.len() - i,
    {
        out.push(map.key_at(i).replicate());
        i += 1;
    }
    proof {
        let views = elem_views(out@);
        assert(views =~= map.key_views());
        assert forall|v: T::V| views.to_set().contains(v) <==> map.key_set().contains(v) by {
            if views.contains(v) {
                let k = choose|k: int| 0 <= k < views.len() && views[k] == v;
                assert(map.keys@[k]@ == v);
                assert(map.has(v));
            }
            if map.has(v) {
                let k = map.index_of(v);
                assert(views[k] == v);
            }
        }
        assert(views.to_set() =~= map.key_set());
    }
    out
}

/// The map whose keys are the elements of a list.
pub fn keys_from_vec<T: Element>(items: &Vec<T>) -> (map: SortedMap<T, ()>)
    ensures
        map.wf(),
        map.key_set() == elem_views(items@).to_set(),
{
    let mut map: SortedMap<T, ()> = SortedMap::new();
    let mut i: usize = 0;
    let ghost views = elem_views(items@);
    while i < items.len()
        invariant
            map.wf(),
            i <= items@.len(),
            views == elem_views(items@),
            forall|v: T::V| map.has(v) <==> views.take(i as int).contains(v),
        decreases items@.len() - i,
    {
        let ghost before = map;
        let item = &items[i];
        assert(item@ == views[i as int]);
        let (pos, found) = map.search(item);
        if !found {
            map.insert_at(pos, item.replicate(), ());
        }
        proof {
            let prev = views.take(i as int);
            let next = views.take(i + 1);
            assert(next =~= prev.push(views[i as int]));
            assert forall|v: T::V| map.has(v) <==> next.contains(v) by {
                assert(before.has(v) <==> prev.contains(v));
                if next.contains(v) {
                    let k = choose|k: int| 0 <= k < next.len() && next[k] == v;
                    if k < i {
                        assert(prev[k] == v);
                    }
                }
                if prev.contains(v) {
                    let k = choose|k: int| 0 <= k < prev.len() && prev[k] == v;
                    assert(next[k] == v);
                }
                if v == views[i as int] {
                    assert(next[i as int] == v);
                }
            }
        }
        i += 1;
    }
    proof {
        assert(views.take(i as int) =~= views);
        assert forall|v: T::V| map.key_set().contains(v) <==> views.to_set().contains(v) by {
            assert(map.has(v) <==> views.contains(v));
        }
        assert(map.key_set() =~= views.to_set());
    }
    map
}

/// Adds the keys of `from` to `into`.
pub fn unite<T: Element>(into: &mut SortedMap<T, ()>, from: &SortedMap<T, ()>)
    requires
        old(into).wf(),
        from.wf(),
    ensures
        final(into).wf(),
        final(into).key_set() == old(into).key_set().union(from.key_set()),
{
    let ghost start = into.key_set();
    let mut i: usize = 0;
    proof {
        from.lemma_prefix(0);
        assert(into.key_set() =~= start.union(from.prefix_set(0)));
    }
    while i < from.len()
        invariant
            into.wf(),
            from.wf(),
            i <= from.keys@.len(),
            into.key_set() == start.union(from.prefix_set(i as int)),
        decreases from.keys@.len() - i,
    {
        proof {
            from.lemma_prefix(i as int);
        }
        let key = from.key_at(i);
        let ghost before = into.key_set();
        let ghost k = key@;
        let (pos, found) = into.search(key);
        if !found {
            into.insert_at(pos, key.replicate(), ());
        }
        proof {
            assert(from.prefix_set(i + 1) == from.prefix_set(i as int).insert(k));
            assert forall|x: T::V| into.key_set().contains(x) <==> before.contains(x) || x == k by {
                assert(into.has(x) <==> into.key_set().contains(x));
            }
            let next = from.prefix_set(i + 1);
            let prev = from.prefix_set(i as int);
            assert(before == start.union(prev));
            assert forall|x: T::V| into.key_set().contains(x) <==> start.union(next).contains(
                x,
            ) by {
                assert(next.contains(x) <==> prev.contains(x) || x == k);
                assert(before.contains(x) <==> start.contains(x) || prev.contains(x));
            }
            assert(into.key_set() =~= start.union(next));
        }
        i += 1;
    }
    proof {
        from.lemma_prefix(i as int);
    }
}

/// The keys of `map` that `keep` holds (or, with `keep_present` false, does
/// not hold), in order.
pub fn select_keys<'a, T: Element>(
    map: &'a SortedMap<T, ()>,
    other: &SortedMap<T, ()>,
    keep_present: bool,
) -> (out: Vec<&'a T>)
    requires
        map.wf(),
        other.wf(),
    ensures
        lists_set::<T>(
            out@,
            if keep_present {
                map.key_set().intersect(other.key_set())
            } else {
                map.key_set().difference(other.key_set())
            },
        ),
        out@.len() <= map.keys@.len(),
{
    let mut out: Vec<&'a T> = Vec::new();
    let ghost mut from: Seq<int> = Seq::empty();
    let mut i: usize = 0;
    while i < map.len()
        invariant
            map.wf(),
            other.wf(),
            i <= map.keys@.len(),
            from.len() == out@.len(),
            out@.len() <= i,
            forall|k: int|
                0 <= k < from.len() ==> 0 <= #[trigger] from[k] < i && *out@[k] == map.keys@[from[k]]
                    && other.has(map.keys@[from[k]]@) == keep_present,
            forall|k: int, l: int| 0 <= k < l < from.len() ==> from[k] < from[l],
            forall|j: int|
                0 <= j < i && other.has((#[trigger] map.keys@[j])@) == keep_present ==> exists|k: int|
                    0 <= k < from.len() && #[trigger] from[k] == j,
        decreases map.keys@.len() - i,
    {
        let key = map.key_at(i);
        if other.contains_key(key) == keep_present {
            out.push(key);
            proof {
                let ghost before = from;
                from = from.push(i as int);
                assert forall|j: int|
                    0 <= j < i + 1 && other.has((#[trigger] map.keys@[j])@)
                        == keep_present implies exists|k: int|
                    0 <= k < from.len() && #[trigger] from[k] == j by {
                    if j < i {
                        let k = choose|k: int| 0 <= k < before.len() && #[trigger] before[k] == j;
                        assert(from[k] == j);
                    } else {
                        assert(from[before.len() as int] == j);
                    }
                }
            }
        }
        i += 1;
    }
    proof {
        let views = ref_views::<T>(out@);
        let ranks = view_ranks::<T>(views);
        let target = if keep_present {
            map.key_set().intersect(other.key_set())
        } else {
            map.key_set().difference(other.key_set())
        };
        assert forall|a: int, b: int| 0 <= a < b < ranks.len() implies lex_less(
            #[trigger] ranks[a],
            #[trigger] ranks[b],
        ) by {
            assert(views[a] == map.keys@[from[a]]@);
            assert(views[b] == map.keys@[from[b]]@);
            assert(lex_less(map.ranks()[from[a]], map.ranks()[from[b]]));
        }
        assert forall|v: T::V| target.contains(v) <==> views.contains(v) by {
            if target.contains(v) {
                let j = map.index_of(v);
                assert(map.keys@[j]@ == v);
                let k = choose|k: int| 0 <= k < from.len() && #[trigger] from[k] == j;
                assert(views[k] == v);
            }
            if views.contains(v) {
                let k = choose|k: int| 0 <= k < views.len() && views[k] == v;
                assert(map.keys@[from[k]]@ == v);
            }
        }
    }
    out
}

/// The number of elements of a finite set that a strictly increasing list
/// covers is the length of the list.
pub proof fn lemma_lists_set_len<T: Element>(items: Seq<&T>, set: Set<T::V>)
    requires
        lists_set::<T>(items, set),
    ensures
        set.finite(),
        set.len() == items.len(),
{
    let views = ref_views::<T>(items);
    let ranks = view_ranks::<T>(views);
    assert(views.no_duplicates()) by {
        assert forall|i: int, j: int| 0 <= i < views.len() && 0 <= j < views.len() && i
            != j implies views[i] != views[j] by {
            if views[i] == views[j] {
                assert(ranks[i] == ranks[j]);
                crate::order::lemma_increasing_distinct(ranks, i, j);
            }
        }
    }
    views.unique_seq_to_set();
    assert(views.to_set() =~= set);
}

/// A set that only grows.
#[derive(Debug, Clone, PartialEq, Eq)]
pub struct GSet<T: Element> {
    elements: SortedMap<T, ()>,
}

impl<T: Element> View for GSet<T> {
    type V = Set<T::V>;

    closed spec fn view(&self) -> Set<T::V> {
        self.elements.key_set()
    }
}

impl<T: Element> GSet<T> {
    /// The elements stand in increasing order, each once.
    pub closed spec fn wf(&self) -> bool {
        self.elements.wf()
    }

    /// A well-formed set is finite.
    pub proof fn lemma_finite(&self)
        requires
            self.wf(),
        ensures
            self@.finite(),
    {
        self.elements.lemma_prefix(self.elements.keys@.len() as int);
    }

    /// Creates an empty set.
    pub fn new() -> (s: Self)
        ensures
            s.wf(),
            s@ == Set::<T::V>::empty(),
    {
        let s = Self { elements: SortedMap::new() };
        assert(s@ =~= Set::<T::V>::empty());
        s
    }

    /// Creates a set of the given elements.
    pub fn from_vec(items: Vec<T>) -> (s: Self)
        ensures
            s.wf(),
            s@ == elem_views(items@).to_set(),
    {
        Self { elements: keys_from_vec(&items) }
    }

    /// Copies of the elements in increasing order.
    pub fn to_vec(&self) -> (items: Vec<T>)
        requires
            self.wf(),
        ensures
            elem_views(items@).to_set() == self@,
    {
        keys_to_vec(&self.elements)
    }

    /// Adds an element. Returns whether it was new.
    pub fn insert(&mut self, value: T) -> (added: bool)
        requires
            old(self).wf(),
        ensures
            final(self).wf(),
            final(self)@ == old(self)@.insert(value@),
            added == !old(self)@.contains(value@),
    {
        let (pos, found) = self.elements.search(&value);
        if found {
            assert(self@ =~= old(self)@.insert(value@));
            false
        } else {
            self.elements.insert_at(pos, value, ());
            assert(self@ =~= old(self)@.insert(value@));
            true
        }
    }

    /// Whether the set holds `value`.
    pub fn contains(&self, value: &T) -> (b: bool)
        requires
            self.wf(),
        ensures
            b == self@.contains(value@),
    {
        self.elements.contains_key(value)
    }

    /// The number of elements.
    pub fn len(&self) -> (n: usize)
        requires
            self.wf(),
        ensures
            n == self@.len(),
    {
        proof {
            self.elements.lemma_prefix(self.elements.keys@.len() as int);
        }
        self.elements.len()
    }

    /// Whether the set holds nothing.
    pub fn is_empty(&self) -> (b: bool)
        requires
            self.wf(),
        ensures
            b == (self@.len() == 0),
    {
        self.len() == 0
    }

    /// The elements in increasing order.
    pub fn iter(&self) -> (items: Vec<&T>)
        requires
            self.wf(),
        ensures
            lists_set::<T>(items@, self@),
            items@.len() == self@.len(),
    {
        let items = select_keys(&self.elements, &self.elements, true);
        proof {
            assert(self.elements.key_set().intersect(self.elements.key_set()) =~= self@);
            lemma_lists_set_len::<T>(items@, self@);
        }
        items
    }
}

impl<T: Element> Default for GSet<T> {
    fn default() -> (s: Self)
        ensures
            s.wf(),
            s@ == Set::<T::V>::empty(),
    {
        Self::new()
    }
}

impl<T: Element> Crdt for GSet<T> {
    open spec fn valid(&self) -> bool {
        self.wf()
    }

    /// Adds the elements of `other`.
    fn merge(&mut self, other: &Self)
        ensures
            final(self)@ == old(self)@.union(other@),
    {
        unite(&mut self.elements, &other.elements);
    }
}

/// Merging is commutative.
pub proof fn lemma_merge_commutative<V>(a: Set<V>, b: Set<V>)
    ensures
        a.union(b) == b.union(a),
{
    assert(a.union(b) =~= b.union(a));
}

/// Merging is associative.
pub proof fn lemma_merge_associative<V>(a: Set<V>, b: Set<V>, c: Set<V>)
    ensures
        a.union(b).union(c) == a.union(b.union(c)),
{
    assert(a.union(b).union(c) =~= a.union(b.union(c)));
}

/// Merging is idempotent.
pub proof fn lemma_merge_idempotent<V>(a: Set<V>, b: Set<V>)
    ensures
        a.union(b).union(b) == a.union(b),
        a.union(a) == a,
{
    assert(a.union(b).union(b) =~= a.union(b));
    assert(a.union(a) =~= a);
}

} // verus!
