//! A map kept as a vector of entries in strictly increasing order of key.
//!
//! The order makes the representation canonical: two well-formed maps that
//! hold the same entries are equal entry by entry.
//!
//! The replicated types keep their entries in this map rather than in an
//! ordered map of the standard library: of the latter the verifier knows
//! nothing for keys such as strings and tags, while here every operation
//! states what it does to the entries.

use crate::element::Element;
use crate::order::{
    lemma_increasing_distinct, lemma_increasing_unique, lemma_lex_order, lemma_lex_transitive,
    lex_less, strictly_increasing, Order,
};
use vstd::prelude::*;

verus! {

/// A map from keys to values, stored in increasing order of key.
#[derive(Clone, Debug, PartialEq, Eq)]
pub struct SortedMap<K: Element, V> {
    pub keys: Vec<K>,
    pub vals: Vec<V>,
}

impl<K: Element, V> SortedMap<K, V> {
    /// The views of the keys, in storage order.
    pub open spec fn key_views(&self) -> Seq<K::V> {
        self.keys@.map_values(|k: K| k@)
    }

    /// The ranks of the keys, in storage order.
    pub open spec fn ranks(&self) -> Seq<Seq<int>> {
        self.keys@.map_values(|k: K| K::rank(k@))
    }

    /// Keys and values pair up, and the keys are strictly increasing.
    pub open spec fn wf(&self) -> bool {
        &&& self.keys@.len() == self.vals@.len()
        &&& strictly_increasing(self.ranks())
    }

    /// Number of entries.
    pub open spec fn spec_len(&self) -> nat {
        self.keys@.len()
    }

    /// Whether some entry has the key `k`.
    pub open spec fn has(&self, k: K::V) -> bool {
        exists|i: int| 0 <= i < self.keys@.len() && #[trigger] self.keys@[i]@ == k
    }

    /// The position of the entry with key `k`.
    pub open spec fn index_of(&self, k: K::V) -> int {
        choose|i: int| 0 <= i < self.keys@.len() && #[trigger] self.keys@[i]@ == k
    }

    /// The value stored under `k`.
    pub open spec fn value_of(&self, k: K::V) -> V {
        self.vals@[self.index_of(k)]
    }

    /// The entries as a mathematical map.
    pub open spec fn as_map(&self) -> Map<K::V, V> {
        Map::new(|k: K::V| self.has(k), |k: K::V| self.value_of(k))
    }

    /// The keys as a mathematical set.
    pub open spec fn key_set(&self) -> Set<K::V> {
        Set::new(|k: K::V| self.has(k))
    }

    /// The first `n` entries as a mathematical map.
    pub open spec fn prefix_map(&self, n: int) -> Map<K::V, V> {
        Map::new(
            |k: K::V| exists|j: int| 0 <= j < n && j < self.keys@.len() && #[trigger] self.keys@[j]@ == k,
            |k: K::V| self.value_of(k),
        )
    }

    /// The first `n` keys as a mathematical set.
    pub open spec fn prefix_set(&self, n: int) -> Set<K::V> {
        Set::new(
            |k: K::V| exists|j: int| 0 <= j < n && j < self.keys@.len() && #[trigger] self.keys@[j]@ == k,
        )
    }

    /// How the prefixes of a well-formed map grow: from nothing, one entry at
    /// a time, to the whole map.
    pub proof fn lemma_prefix(&self, n: int)
        requires
            self.wf(),
            0 <= n <= self.keys@.len(),
        ensures
            self.prefix_map(0) == Map::<K::V, V>::empty(),
            self.prefix_set(0) == Set::<K::V>::empty(),
            self.prefix_map(self.keys@.len() as int) == self.as_map(),
            self.prefix_set(self.keys@.len() as int) == self.key_set(),
            self.prefix_map(n).dom() == self.prefix_set(n),
            self.prefix_set(n).finite(),
            self.prefix_set(n).len() == n,
            n < self.keys@.len() ==> {
                &&& !self.prefix_set(n).contains(self.keys@[n]@)
                &&& self.prefix_map(n + 1) == self.prefix_map(n).insert(
                    self.keys@[n]@,
                    self.vals@[n],
                )
                &&& self.prefix_set(n + 1) == self.prefix_set(n).insert(self.keys@[n]@)
                &&& self.prefix_map(n) == self.prefix_map(n + 1).remove(self.keys@[n]@)
            },
        decreases n,
    {
        assert(self.prefix_map(0) =~= Map::<K::V, V>::empty());
        assert(self.prefix_set(0) =~= Set::<K::V>::empty());
        assert(self.prefix_map(self.keys@.len() as int) =~= self.as_map());
        assert(self.prefix_set(self.keys@.len() as int) =~= self.key_set());
        assert(self.prefix_map(n).dom() =~= self.prefix_set(n));
        if n > 0 {
            self.lemma_prefix(n - 1);
        }
        if n < self.keys@.len() {
            let k = self.keys@[n]@;
            self.lemma_position(n);
            assert(!self.prefix_set(n).contains(k)) by {
                if self.prefix_set(n).contains(k) {
                    let j = choose|j: int| 0 <= j < n && j < self.keys@.len() && #[trigger] self.keys@[j]@ == k;
                    self.lemma_position(j);
                }
            }
            assert(self.prefix_set(n + 1) =~= self.prefix_set(n).insert(k)) by {
                assert forall|x: K::V| self.prefix_set(n + 1).contains(x) <==> self.prefix_set(
                    n,
                ).insert(k).contains(x) by {
                    if self.prefix_set(n + 1).contains(x) {
                        let j = choose|j: int| 0 <= j < n + 1 && j < self.keys@.len() && #[trigger] self.keys@[j]@ == x;
                        if j < n {
                            assert(self.prefix_set(n).contains(x));
                        }
                    }
                    if self.prefix_set(n).contains(x) {
                        let j = choose|j: int| 0 <= j < n && j < self.keys@.len() && #[trigger] self.keys@[j]@ == x;
                        assert(self.keys@[j]@ == x);
                    }
                    if x == k {
                        assert(self.keys@[n]@ == x);
                    }
                }
            }
            assert(self.prefix_map(n + 1).dom() =~= self.prefix_set(n + 1));
            assert(self.prefix_map(n + 1) =~= self.prefix_map(n).insert(k, self.vals@[n]));
            assert(self.prefix_map(n) =~= self.prefix_map(n + 1).remove(k));
        }
        if n > 0 {
            assert(self.prefix_set(n) == self.prefix_set(n - 1).insert(self.keys@[n - 1]@));
        }
    }

    /// `pos` is where `k` stands or would be inserted.
    pub open spec fn is_slot(&self, k: K::V, pos: int) -> bool {
        &&& 0 <= pos <= self.keys@.len()
        &&& forall|i: int| 0 <= i < pos ==> lex_less(#[trigger] self.ranks()[i], K::rank(k))
        &&& forall|i: int|
            pos <= i < self.keys@.len() && self.keys@[i]@ != k ==> lex_less(
                K::rank(k),
                #[trigger] self.ranks()[i],
            )
    }

    /// In a well-formed map a key stands at exactly one position.
    pub proof fn lemma_position(&self, i: int)
        requires
            self.wf(),
            0 <= i < self.keys@.len(),
        ensures
            self.has(self.keys@[i]@),
            self.index_of(self.keys@[i]@) == i,
            self.value_of(self.keys@[i]@) == self.vals@[i],
    {
        let k = self.keys@[i]@;
        let j = self.index_of(k);
        assert(self.ranks()[i] == K::rank(k));
        assert(self.ranks()[j] == K::rank(self.keys@[j]@));
        lemma_increasing_distinct(self.ranks(), i, j);
    }

    /// Well-formed maps with the same keys store them in the same order.
    pub proof fn lemma_same_keys(&self, other: &Self)
        requires
            self.wf(),
            other.wf(),
            forall|k: K::V| self.has(k) <==> other.has(k),
        ensures
            self.key_views() == other.key_views(),
    {
        let a = self.ranks();
        let b = other.ranks();
        assert forall|x: Seq<int>| a.contains(x) <==> b.contains(x) by {
            if a.contains(x) {
                let i = choose|i: int| 0 <= i < a.len() && a[i] == x;
                let k = self.keys@[i]@;
                assert(other.has(k));
                let j = other.index_of(k);
                assert(b[j] == x);
            }
            if b.contains(x) {
                let i = choose|i: int| 0 <= i < b.len() && b[i] == x;
                let k = other.keys@[i]@;
                assert(self.has(k));
                let j = self.index_of(k);
                assert(a[j] == x);
            }
        }
        lemma_increasing_unique(a, b);
        assert(self.keys@.len() == a.len());
        assert(other.keys@.len() == b.len());
        assert forall|i: int| 0 <= i < self.keys@.len() implies self.key_views()[i]
            == other.key_views()[i] by {
            assert(a[i] == K::rank(self.keys@[i]@));
            assert(b[i] == K::rank(other.keys@[i]@));
            K::lemma_rank_injective(self.keys@[i]@, other.keys@[i]@);
        }
        assert(self.key_views() =~= other.key_views());
    }

    /// Well-formed maps that are equal as mathematical maps are equal entry by
    /// entry.
    pub proof fn lemma_canonical(&self, other: &Self)
        requires
            self.wf(),
            other.wf(),
            self.as_map() == other.as_map(),
        ensures
            self.key_views() == other.key_views(),
            self.vals@ == other.vals@,
    {
        assert forall|k: K::V| self.has(k) <==> other.has(k) by {
            assert(self.as_map().dom().contains(k) == self.has(k));
            assert(other.as_map().dom().contains(k) == other.has(k));
        }
        self.lemma_same_keys(other);
        assert(self.keys@.len() == self.key_views().len());
        assert(other.keys@.len() == other.key_views().len());
        assert forall|i: int| 0 <= i < self.vals@.len() implies self.vals@[i] == other.vals@[i] by {
            self.lemma_position(i);
            assert(self.key_views()[i] == other.key_views()[i]);
            other.lemma_position(i);
            let k = self.keys@[i]@;
            assert(self.as_map()[k] == self.vals@[i]);
            assert(other.as_map()[k] == other.vals@[i]);
        }
        assert(self.vals@ =~= other.vals@);
    }

    /// Creates an empty map.
    pub fn new() -> (m: Self)
        ensures
            m.wf(),
            m.keys@.len() == 0,
            m.as_map() == Map::<K::V, V>::empty(),
    {
        let m = SortedMap { keys: Vec::new(), vals: Vec::new() };
        assert(m.as_map() =~= Map::<K::V, V>::empty());
        m
    }

    /// Number of entries.
    pub fn len(&self) -> (n: usize)
        requires
            self.wf(),
        ensures
            n == self.spec_len(),
    {
        self.keys.len()
    }

    /// Finds the slot of `key`: its position, and whether it is stored there.
    pub fn search(&self, key: &K) -> (r: (usize, bool))
        requires
            self.wf(),
        ensures
            self.is_slot(key@, r.0 as int),
            r.1 == self.has(key@),
            r.1 ==> r.0 < self.keys@.len() && self.keys@[r.0 as int]@ == key@,
    {
        let ghost rk = K::rank(key@);
        let mut lo: usize = 0;
        let mut hi: usize = self.keys.len();
        while lo < hi
            invariant
                self.wf(),
                rk == K::rank(key@),
                0 <= lo <= hi <= self.keys@.len(),
                forall|i: int| 0 <= i < lo ==> lex_less(#[trigger] self.ranks()[i], rk),
                forall|i: int| hi <= i < self.keys@.len() ==> lex_less(rk, #[trigger] self.ranks()[i]),
            decreases hi - lo,
        {
            let mid: usize = lo + (hi - lo) / 2;
            let o = self.keys[mid].order(key);
            proof {
                let rm = self.ranks()[mid as int];
                assert(rm == K::rank(self.keys@[mid as int]@));
                lemma_lex_order(rm, rk);
            }
            match o {
                Order::Equal => {
                    proof {
                        K::lemma_rank_injective(self.keys@[mid as int]@, key@);
                        assert forall|i: int| 0 <= i < mid implies lex_less(
                            #[trigger] self.ranks()[i],
                            rk,
                        ) by {
                            assert(lex_less(self.ranks()[i], self.ranks()[mid as int]));
                        }
                        assert forall|i: int|
                            mid <= i < self.keys@.len() && self.keys@[i]@ != key@ implies lex_less(
                            rk,
                            #[trigger] self.ranks()[i],
                        ) by {
                            assert(lex_less(self.ranks()[mid as int], self.ranks()[i]));
                        }
                    }
                    return (mid, true);
                },
                Order::Less => {
                    proof {
                        assert forall|i: int| 0 <= i < mid + 1 implies lex_less(
                            #[trigger] self.ranks()[i],
                            rk,
                        ) by {
                            if i < mid {
                                assert(lex_less(self.ranks()[i], self.ranks()[mid as int]));
                                lemma_lex_transitive(self.ranks()[i], self.ranks()[mid as int], rk);
                            }
                        }
                    }
                    lo = mid + 1;
                },
                Order::Greater => {
                    proof {
                        assert forall|i: int| mid <= i < self.keys@.len() implies lex_less(
                            rk,
                            #[trigger] self.ranks()[i],
                        ) by {
                            if mid < i {
                                assert(lex_less(self.ranks()[mid as int], self.ranks()[i]));
                                lemma_lex_transitive(rk, self.ranks()[mid as int], self.ranks()[i]);
                            }
                        }
                    }
                    hi = mid;
                },
            }
        }
        proof {
            if self.has(key@) {
                let j = self.index_of(key@);
                assert(self.ranks()[j] == rk);
                crate::order::lemma_lex_irreflexive(rk);
            }
        }
        (lo, false)
    }

    /// Whether `key` is stored.
    pub fn contains_key(&self, key: &K) -> (b: bool)
        requires
            self.wf(),
        ensures
            b == self.has(key@),
    {
        let (_, found) = self.search(key);
        found
    }

    /// The value stored under `key`, if any.
    pub fn get(&self, key: &K) -> (r: Option<&V>)
        requires
            self.wf(),
        ensures
            r is Some <==> self.has(key@),
            r is Some ==> *r.unwrap() == self.value_of(key@),
    {
        let (pos, found) = self.search(key);
        if found {
            proof {
                self.lemma_position(pos as int);
            }
            Some(&self.vals[pos])
        } else {
            None
        }
    }

    /// The key at position `i`.
    pub fn key_at(&self, i: usize) -> (k: &K)
        requires
            i < self.keys@.len(),
        ensures
            *k == self.keys@[i as int],
    {
        &self.keys[i]
    }

    /// The value at position `i`.
    pub fn value_at(&self, i: usize) -> (v: &V)
        requires
            i < self.vals@.len(),
        ensures
            *v == self.vals@[i as int],
    {
        &self.vals[i]
    }

    /// The value at position `i`, for changing it in place.
    pub fn value_at_mut(&mut self, i: usize) -> (v: &mut V)
        requires
            i < old(self).vals@.len(),
        ensures
            *v == old(self).vals@[i as int],
            final(self).keys == old(self).keys,
            final(self).vals@ == old(self).vals@.update(i as int, *final(v)),
    {
        &mut self.vals[i]
    }

    /// What changing one value in place does to the map.
    pub proof fn lemma_update_value(&self, other: &Self, i: int, value: V)
        requires
            self.wf(),
            0 <= i < self.keys@.len(),
            other.keys == self.keys,
            other.vals@ == self.vals@.update(i, value),
        ensures
            other.wf(),
            other.as_map() == self.as_map().insert(self.keys@[i]@, value),
            forall|k: K::V| other.has(k) <==> self.has(k),
            forall|k: K::V|
                self.has(k) && k != self.keys@[i]@ ==> other.value_of(k) == self.value_of(k),
            other.value_of(self.keys@[i]@) == value,
    {
        let k = self.keys@[i]@;
        self.lemma_position(i);
        other.lemma_position(i);
        assert forall|x: K::V| other.has(x) <==> self.has(x) by {}
        assert forall|x: K::V| self.has(x) && x != k implies other.value_of(x) == self.value_of(
            x,
        ) by {
            assert(other.index_of(x) == self.index_of(x));
            let j = self.index_of(x);
            self.lemma_position(j);
        }
        assert(other.as_map() =~= self.as_map().insert(k, value));
    }

    /// Replaces the value at position `i`.
    pub fn set_value_at(&mut self, i: usize, value: V)
        requires
            old(self).wf(),
            i < old(self).keys@.len(),
        ensures
            final(self).wf(),
            final(self).keys == old(self).keys,
            final(self).vals@ == old(self).vals@.update(i as int, value),
            final(self).as_map() == old(self).as_map().insert(old(self).keys@[i as int]@, value),
    {
        self.vals.set(i, value);
        proof {
            let k = self.keys@[i as int]@;
            old(self).lemma_position(i as int);
            self.lemma_position(i as int);
            assert forall|x: K::V| self.has(x) <==> old(self).has(x) by {}
            assert forall|x: K::V| self.has(x) && x != k implies self.value_of(x) == old(
                self,
            ).value_of(x) by {
                let j = self.index_of(x);
                self.lemma_position(j);
                old(self).lemma_position(j);
            }
            assert(self.as_map() =~= old(self).as_map().insert(k, value));
        }
    }

    /// Inserts a new entry at its slot.
    pub fn insert_at(&mut self, pos: usize, key: K, value: V)
        requires
            old(self).wf(),
            !old(self).has(key@),
            old(self).is_slot(key@, pos as int),
        ensures
            final(self).wf(),
            final(self).keys@ == old(self).keys@.insert(pos as int, key),
            final(self).vals@ == old(self).vals@.insert(pos as int, value),
            final(self).as_map() == old(self).as_map().insert(key@, value),
            forall|k: K::V| final(self).has(k) <==> old(self).has(k) || k == key@,
    {
        self.keys.insert(pos, key);
        self.vals.insert(pos, value);
        proof {
            let p = pos as int;
            let old_r = old(self).ranks();
            let new_r = self.ranks();
            assert forall|i: int, j: int| 0 <= i < j < new_r.len() implies lex_less(
                #[trigger] new_r[i],
                #[trigger] new_r[j],
            ) by {
                let oi = if i < p { i } else { i - 1 };
                let oj = if j < p { j } else { j - 1 };
                if i != p {
                    assert(new_r[i] == old_r[oi]);
                }
                if j != p {
                    assert(new_r[j] == old_r[oj]);
                    assert(old(self).keys@[oj]@ != key@);
                }
                if i != p && j != p {
                    assert(lex_less(old_r[oi], old_r[oj]));
                }
            }
            assert forall|k: K::V| self.has(k) <==> old(self).has(k) || k == key@ by {
                if old(self).has(k) {
                    let i = old(self).index_of(k);
                    let ni = if i < p { i } else { i + 1 };
                    assert(self.keys@[ni]@ == k);
                }
                if k == key@ {
                    assert(self.keys@[p]@ == k);
                }
                if self.has(k) {
                    let i = self.index_of(k);
                    if i != p {
                        let oi = if i < p { i } else { i - 1 };
                        assert(old(self).keys@[oi]@ == k);
                    }
                }
            }
            assert forall|k: K::V| self.has(k) implies self.value_of(k) == (if k == key@ {
                value
            } else {
                old(self).value_of(k)
            }) by {
                let i = self.index_of(k);
                self.lemma_position(i);
                if i == p {
                } else {
                    let oi = if i < p { i } else { i - 1 };
                    assert(old(self).keys@[oi]@ == k);
                    old(self).lemma_position(oi);
                }
            }
            assert(self.as_map() =~= old(self).as_map().insert(key@, value));
        }
    }

    /// Stores `value` under `key`, replacing what was there.
    pub fn insert(&mut self, key: K, value: V)
        requires
            old(self).wf(),
        ensures
            final(self).wf(),
            final(self).as_map() == old(self).as_map().insert(key@, value),
            forall|k: K::V| final(self).has(k) <==> old(self).has(k) || k == key@,
            final(self).value_of(key@) == value,
    {
        let (pos, found) = self.search(&key);
        if found {
            self.set_value_at(pos, value);
            proof {
                self.lemma_position(pos as int);
                assert forall|k: K::V| self.has(k) <==> old(self).has(k) || k == key@ by {}
            }
        } else {
            self.insert_at(pos, key, value);
            proof {
                assert(self.as_map()[key@] == value);
            }
        }
    }

    /// Removes the entry at position `i`.
    pub fn remove_at(&mut self, i: usize) -> (r: (K, V))
        requires
            old(self).wf(),
            i < old(self).keys@.len(),
        ensures
            final(self).wf(),
            r.0 == old(self).keys@[i as int],
            r.1 == old(self).vals@[i as int],
            final(self).keys@ == old(self).keys@.remove(i as int),
            final(self).vals@ == old(self).vals@.remove(i as int),
            final(self).as_map() == old(self).as_map().remove(r.0@),
            forall|k: K::V| final(self).has(k) <==> old(self).has(k) && k != r.0@,
    {
        let key = self.keys.remove(i);
        let value = self.vals.remove(i);
        proof {
            let p = i as int;
            let old_r = old(self).ranks();
            let new_r = self.ranks();
            assert forall|a: int, b: int| 0 <= a < b < new_r.len() implies lex_less(
                #[trigger] new_r[a],
                #[trigger] new_r[b],
            ) by {
                let oa = if a < p { a } else { a + 1 };
                let ob = if b < p { b } else { b + 1 };
                assert(new_r[a] == old_r[oa]);
                assert(new_r[b] == old_r[ob]);
                assert(lex_less(old_r[oa], old_r[ob]));
            }
            old(self).lemma_position(p);
            assert forall|k: K::V| self.has(k) <==> old(self).has(k) && k != key@ by {
                if self.has(k) {
                    let a = self.index_of(k);
                    let oa = if a < p { a } else { a + 1 };
                    assert(old(self).keys@[oa]@ == k);
                    old(self).lemma_position(oa);
                }
                if old(self).has(k) && k != key@ {
                    let oa = old(self).index_of(k);
                    let a = if oa < p { oa } else { oa - 1 };
                    assert(self.keys@[a]@ == k);
                }
            }
            assert forall|k: K::V| self.has(k) implies self.value_of(k) == old(self).value_of(
                k,
            ) by {
                let a = self.index_of(k);
                self.lemma_position(a);
                let oa = if a < p { a } else { a + 1 };
                assert(old(self).keys@[oa]@ == k);
                old(self).lemma_position(oa);
            }
            assert(self.as_map() =~= old(self).as_map().remove(key@));
        }
        (key, value)
    }

    /// Removes the entry stored under `key`, if any, and returns its value.
    pub fn remove(&mut self, key: &K) -> (r: Option<V>)
        requires
            old(self).wf(),
        ensures
            final(self).wf(),
            r is Some <==> old(self).has(key@),
            r is Some ==> r.unwrap() == old(self).value_of(key@),
            final(self).as_map() == old(self).as_map().remove(key@),
            forall|k: K::V| final(self).has(k) <==> old(self).has(k) && k != key@,
    {
        let (pos, found) = self.search(key);
        if found {
            proof {
                self.lemma_position(pos as int);
            }
            let (_, value) = self.remove_at(pos);
            Some(value)
        } else {
            proof {
                assert(self.as_map() =~= self.as_map().remove(key@));
            }
            None
        }
    }
}

} // verus!
