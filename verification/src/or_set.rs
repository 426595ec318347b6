//! The observed-remove set: every addition gets a fresh tag, and a removal
//! removes the tags it has seen. An addition that a removal has not seen
//! survives the merge.

use crate::crdt::{Crdt, DeltaCrdt};
use crate::element::Element;
use crate::gset::{lemma_lists_set_len, lists_set, ref_views, unite, view_ranks};
use crate::order::lex_less;
use crate::sorted_map::SortedMap;
use crate::tag::{
    add_filtered, kept, pair_views, tags_from_pairs, tags_to_pairs, Pair as PlainTag, Tag, TagSet,
    TagView,
};
use vstd::prelude::*;

verus! {

/// An element with one of its tags.
pub type Pair<V> = (V, TagView);

/// The state of an observed-remove set.
#[verifier::reject_recursive_types(V)]
pub struct OrState<V> {
    /// The live tags, each with its element.
    pub live: Set<Pair<V>>,
    /// The tags that were removed.
    pub tombstones: Set<TagView>,
    /// The counter that tags new additions.
    pub counter: u64,
}

/// What one replica has and another lacks: live tags and tombstones.
#[verifier::reject_recursive_types(V)]
pub struct OrPatch<V> {
    pub additions: Set<Pair<V>>,
    pub tombstones: Set<TagView>,
}

/// The elements of a state: those with a live tag.
pub open spec fn present<V>(live: Set<Pair<V>>) -> Set<V> {
    Set::new(|x: V| exists|t: TagView| live.contains((x, t)))
}

/// The live tags after joining: those of the receiver and those of the
/// sender that the receiver has not removed, less those the sender removed.
pub open spec fn joined_live<V>(
    live: Set<Pair<V>>,
    tombstones: Set<TagView>,
    incoming: Set<Pair<V>>,
    removed: Set<TagView>,
) -> Set<Pair<V>> {
    Set::new(
        |p: Pair<V>|
            (live.contains(p) || (incoming.contains(p) && !tombstones.contains(p.1)))
                && !removed.contains(p.1),
    )
}

/// The state of `a` after merging `b`.
pub open spec fn or_join<V>(a: OrState<V>, b: OrState<V>) -> OrState<V> {
    OrState {
        live: joined_live(a.live, a.tombstones, b.live, b.tombstones),
        tombstones: a.tombstones.union(b.tombstones),
        counter: if a.counter >= b.counter {
            a.counter
        } else {
            b.counter
        },
    }
}

/// `m` is `counter` raised so far that no tag of `live` or `tombstones` is
/// numbered above it: the larger of `counter` and the highest number among
/// the tags.
pub open spec fn covers<V>(m: u64, counter: u64, live: Set<Pair<V>>, tombstones: Set<TagView>)
    -> bool {
    &&& m >= counter
    &&& forall|p: Pair<V>| live.contains(p) ==> p.1.1 <= m
    &&& forall|t: TagView| tombstones.contains(t) ==> t.1 <= m
    &&& (m == counter || (exists|p: Pair<V>| live.contains(p) && p.1.1 == m) || (exists|t: TagView|
        tombstones.contains(t) && t.1 == m))
}

/// The counter raised so far that it covers the tags: see [`covers`].
pub open spec fn raised<V>(counter: u64, live: Set<Pair<V>>, tombstones: Set<TagView>) -> u64 {
    choose|m: u64| covers(m, counter, live, tombstones)
}

/// Only one number covers the tags.
pub proof fn lemma_raised<V>(m: u64, counter: u64, live: Set<Pair<V>>, tombstones: Set<TagView>)
    requires
        covers(m, counter, live, tombstones),
    ensures
        raised(counter, live, tombstones) == m,
{
    let r = raised(counter, live, tombstones);
    assert(covers(r, counter, live, tombstones));
    assert(r <= m) by {
        if r != counter {
            if exists|p: Pair<V>| live.contains(p) && p.1.1 == r {
                let p = choose|p: Pair<V>| live.contains(p) && p.1.1 == r;
                assert(p.1.1 <= m);
            } else {
                let t = choose|t: TagView| tombstones.contains(t) && t.1 == r;
                assert(t.1 <= m);
            }
        }
    }
    assert(m <= r) by {
        if m != counter {
            if exists|p: Pair<V>| live.contains(p) && p.1.1 == m {
                let p = choose|p: Pair<V>| live.contains(p) && p.1.1 == m;
                assert(p.1.1 <= r);
            } else {
                let t = choose|t: TagView| tombstones.contains(t) && t.1 == m;
                assert(t.1 <= r);
            }
        }
    }
}

/// The state of `a` after applying a patch. A tag that the patch both adds
/// and removes ends up removed, and the counter is raised to cover the tags
/// of the patch.
pub open spec fn or_apply<V>(a: OrState<V>, d: OrPatch<V>) -> OrState<V> {
    OrState {
        live: joined_live(a.live, a.tombstones, d.additions, d.tombstones),
        tombstones: a.tombstones.union(d.tombstones),
        counter: raised(a.counter, d.additions, d.tombstones),
    }
}

/// What `a` has and `b` lacks: the live tags that `b` neither holds nor has
/// removed, and the tombstones that `b` lacks.
pub open spec fn or_patch<V>(a: OrState<V>, b: OrState<V>) -> OrPatch<V> {
    OrPatch {
        additions: Set::new(
            |p: Pair<V>| a.live.contains(p) && !b.live.contains(p) && !b.tombstones.contains(p.1),
        ),
        tombstones: a.tombstones.difference(b.tombstones),
    }
}

/// No live tag of the state is among its tombstones.
pub open spec fn consistent<V>(s: OrState<V>) -> bool {
    forall|p: Pair<V>| s.live.contains(p) ==> !s.tombstones.contains(p.1)
}

/// No tag of the state, live or removed, is numbered above its counter: the
/// next tag of the replica is fresh.
pub open spec fn capped<V>(s: OrState<V>) -> bool {
    &&& forall|p: Pair<V>| s.live.contains(p) ==> p.1.1 <= s.counter
    &&& forall|t: TagView| s.tombstones.contains(t) ==> t.1 <= s.counter
}

/// Every tag stands under one element.
pub open spec fn single<V>(live: Set<Pair<V>>) -> bool {
    forall|p: Pair<V>, q: Pair<V>| live.contains(p) && live.contains(q) && p.1 == q.1 ==> p.0 == q.0
}

/// The tags of `x` in `live`.
pub open spec fn tags_of<V>(live: Set<Pair<V>>, x: V) -> Set<TagView> {
    Set::new(|t: TagView| live.contains((x, t)))
}

/// Elements with their tags.
pub type Tagged<T> = SortedMap<T, TagSet>;

/// The pairs of element and tag that `m` holds.
pub open spec fn live_of<T: Element>(m: &Tagged<T>) -> Set<Pair<T::V>> {
    Set::new(|p: Pair<T::V>| m.has(p.0) && m.value_of(p.0).has(p.1))
}

/// Every element has a well-formed, non-empty set of tags.
pub open spec fn tagged_wf<T: Element>(m: &Tagged<T>) -> bool {
    &&& m.wf()
    &&& forall|x: T::V| #[trigger]
        m.has(x) ==> m.value_of(x).wf() && m.value_of(x).keys@.len() > 0
}

/// The elements of well-formed tagged elements are its keys.
pub proof fn lemma_present_keys<T: Element>(m: &Tagged<T>)
    requires
        tagged_wf(m),
    ensures
        present(live_of(m)) == m.key_set(),
{
    assert forall|x: T::V| present(live_of(m)).contains(x) <==> m.key_set().contains(x) by {
        if m.has(x) {
            let tags = m.value_of(x);
            let t = tags.keys@[0]@;
            assert(tags.has(t));
            assert(live_of(m).contains((x, t)));
        }
        if present(live_of(m)).contains(x) {
            let t = choose|t: TagView| live_of(m).contains((x, t));
            assert(m.has(x));
        }
    }
    assert(present(live_of(m)) =~= m.key_set());
}

/// What storing a new element with its tags does to the pairs.
pub proof fn lemma_live_grow<T: Element>(before: &Tagged<T>, after: &Tagged<T>, x: T::V, tags: TagSet)
    requires
        tagged_wf(before),
        after.wf(),
        !before.has(x),
        tags.wf(),
        tags.keys@.len() > 0,
        after.as_map() == before.as_map().insert(x, tags),
        forall|k: T::V| after.has(k) <==> before.has(k) || k == x,
    ensures
        tagged_wf(after),
        forall|p: Pair<T::V>|
            live_of(after).contains(p) <==> live_of(before).contains(p) || (p.0 == x && tags.has(
                p.1,
            )),
{
    assert forall|k: T::V| after.has(k) implies after.value_of(k) == (if k == x {
        tags
    } else {
        before.value_of(k)
    }) by {
        assert(after.as_map()[k] == after.value_of(k));
        if k != x {
            assert(before.as_map()[k] == before.value_of(k));
        }
    }
    assert forall|k: T::V| #[trigger] after.has(k) implies after.value_of(k).wf() && after.value_of(
        k,
    ).keys@.len() > 0 by {
        if k != x {
            assert(before.has(k));
        }
    }
}

/// An element with its tags as plain data.
pub type PlainTagged<T> = (T, Vec<PlainTag>);

/// The pairs of element and tag that plain data gives.
pub open spec fn plain_live<T: Element>(items: Seq<PlainTagged<T>>) -> Set<Pair<T::V>> {
    Set::new(
        |p: Pair<T::V>|
            exists|i: int|
                0 <= i < items.len() && (#[trigger] items[i]).0@ == p.0 && pair_views(
                    items[i].1@,
                ).contains(p.1),
    )
}

/// The elements with their tags as plain data, in increasing order.
pub fn tagged_to_plain<T: Element>(m: &Tagged<T>) -> (out: Vec<PlainTagged<T>>)
    requires
        tagged_wf(m),
    ensures
        plain_live(out@) == live_of(m),
{
    let mut out: Vec<PlainTagged<T>> = Vec::new();
    let mut i: usize = 0;
    while i < m.len()
        invariant
            tagged_wf(m),
            i <= m.keys@.len(),
            out@.len() == i,
            forall|k: int|
                0 <= k < i ==> (#[trigger] out@[k]).0@ == m.keys@[k]@ && pair_views(
                    out@[k].1@,
                ).to_set() == m.vals@[k].key_set(),
        decreases m.keys@.len() - i,
    {
        proof {
            m.lemma_position(i as int);
            assert(m.has(m.keys@[i as int]@));
        }
        let tags = tags_to_pairs(m.value_at(i));
        out.push((m.key_at(i).replicate(), tags));
        i += 1;
    }
    proof {
        assert forall|p: Pair<T::V>| plain_live(out@).contains(p) <==> live_of(m).contains(p) by {
            if plain_live(out@).contains(p) {
                let k = choose|k: int|
                    0 <= k < out@.len() && (#[trigger] out@[k]).0@ == p.0 && pair_views(
                        out@[k].1@,
                    ).contains(p.1);
                m.lemma_position(k);
                assert(pair_views(out@[k].1@).to_set().contains(p.1));
                assert(m.vals@[k].key_set().contains(p.1));
            }
            if live_of(m).contains(p) {
                let k = m.index_of(p.0);
                m.lemma_position(k);
                assert(m.vals@[k].key_set().contains(p.1));
                assert(pair_views(out@[k].1@).to_set().contains(p.1));
                assert(out@[k].0@ == p.0);
            }
        }
        assert(plain_live(out@) =~= live_of(m));
    }
    out
}

/// The elements with the tags that plain data gives. Elements without tags
/// are left out.
pub fn tagged_from_plain<T: Element>(items: &Vec<PlainTagged<T>>) -> (m: Tagged<T>)
    ensures
        tagged_wf(&m),
        live_of(&m) == plain_live(items@),
{
    let mut m: Tagged<T> = SortedMap::new();
    let mut i: usize = 0;
    assert(live_of(&m) =~= plain_live(items@.take(0)));
    while i < items.len()
        invariant
            tagged_wf(&m),
            i <= items@.len(),
            live_of(&m) == plain_live(items@.take(i as int)),
        decreases items@.len() - i,
    {
        let item = &items[i];
        let ghost x = item.0@;
        let tags = tags_from_pairs(&item.1);
        let ghost added = tags.key_set();
        let ghost before = m;
        let (pos, found) = m.search(&item.0);
        if found {
            proof {
                before.lemma_position(pos as int);
                assert(before.has(x));
            }
            let slot = m.value_at_mut(pos);
            let ghost old_tags = *slot;
            crate::gset::unite(slot, &tags);
            proof {
                let new_tags = m.vals@[pos as int];
                before.lemma_update_value(&m, pos as int, new_tags);
                assert(new_tags.keys@.len() > 0) by {
                    let t = old_tags.keys@[0]@;
                    assert(old_tags.has(t));
                    assert(old_tags.key_set().contains(t));
                    assert(new_tags.key_set().contains(t));
                    assert(new_tags.has(t));
                }
                assert forall|k: T::V| #[trigger] m.has(k) implies m.value_of(k).wf() && m.value_of(
                    k,
                ).keys@.len() > 0 by {
                    assert(before.has(k));
                }
                assert forall|p: Pair<T::V>|
                    live_of(&m).contains(p) <==> live_of(&before).contains(p) || (p.0 == x
                        && added.contains(p.1)) by {
                    if p.0 == x {
                        assert(new_tags.key_set().contains(p.1) <==> old_tags.key_set().contains(
                            p.1,
                        ) || added.contains(p.1));
                        assert(new_tags.has(p.1) <==> new_tags.key_set().contains(p.1));
                        assert(old_tags.has(p.1) <==> old_tags.key_set().contains(p.1));
                    } else if before.has(p.0) {
                        assert(m.value_of(p.0) == before.value_of(p.0));
                    }
                }
            }
        } else if tags.len() > 0 {
            m.insert_at(pos, item.0.replicate(), tags);
            proof {
                lemma_live_grow(&before, &m, x, tags);
                assert forall|p: Pair<T::V>|
                    live_of(&m).contains(p) <==> live_of(&before).contains(p) || (p.0 == x
                        && added.contains(p.1)) by {
                    assert(tags.has(p.1) <==> added.contains(p.1));
                }
            }
        } else {
            assert forall|t: TagView| !added.contains(t) by {
                if tags.has(t) {
                    assert(false);
                }
            }
        }
        proof {
            let prev = items@.take(i as int);
            let next = items@.take(i + 1);
            assert(added == pair_views(items@[i as int].1@).to_set());
            assert forall|p: Pair<T::V>|
                plain_live(next).contains(p) <==> plain_live(prev).contains(p) || (p.0 == x
                    && added.contains(p.1)) by {
                if plain_live(next).contains(p) {
                    let k = choose|k: int|
                        0 <= k < next.len() && (#[trigger] next[k]).0@ == p.0 && pair_views(
                            next[k].1@,
                        ).contains(p.1);
                    if k < i {
                        assert(prev[k] == next[k]);
                    } else {
                        assert(next[k] == items@[i as int]);
                        assert(pair_views(items@[i as int].1@).to_set().contains(p.1));
                    }
                }
                if plain_live(prev).contains(p) {
                    let k = choose|k: int|
                        0 <= k < prev.len() && (#[trigger] prev[k]).0@ == p.0 && pair_views(
                            prev[k].1@,
                        ).contains(p.1);
                    assert(next[k] == prev[k]);
                }
                if p.0 == x && added.contains(p.1) {
                    assert(next[i as int] == items@[i as int]);
                    assert(pair_views(next[i as int].1@).contains(p.1));
                }
            }
            assert(live_of(&m) =~= plain_live(next));
        }
        i += 1;
    }
    assert(items@.take(i as int) =~= items@);
    m
}

/// The tags of element `x` after joining.
pub open spec fn joined_tags<V>(
    live: Set<Pair<V>>,
    tombstones: Set<TagView>,
    incoming: Set<Pair<V>>,
    removed: Set<TagView>,
    x: V,
) -> Set<TagView> {
    Set::new(|t: TagView| joined_live(live, tombstones, incoming, removed).contains((x, t)))
}

/// The tags that element `x` gets in the join.
fn joined_entry<T: Element>(
    mine: Option<&TagSet>,
    my_tomb: &TagSet,
    theirs: Option<&TagSet>,
    their_tomb: &TagSet,
) -> (entry: TagSet)
    requires
        mine matches Some(m) ==> m.wf(),
        theirs matches Some(t) ==> t.wf(),
        my_tomb.wf(),
        their_tomb.wf(),
    ensures
        entry.wf(),
        forall|t: TagView|
            entry.has(t) <==> (((mine is Some && mine->Some_0.has(t)) || (theirs is Some
                && theirs->Some_0.has(t) && !my_tomb.has(t))) && !their_tomb.has(t)),
{
    let mut entry: TagSet = SortedMap::new();
    let ghost e0 = entry.key_set();
    assert(e0 =~= Set::<TagView>::empty());
    match mine {
        Some(m) => {
            add_filtered(&mut entry, m, their_tomb, their_tomb);
        },
        None => {},
    }
    let ghost e1 = entry.key_set();
    match theirs {
        Some(t) => {
            add_filtered(&mut entry, t, my_tomb, their_tomb);
        },
        None => {},
    }
    proof {
        let e2 = entry.key_set();
        assert forall|t: TagView|
            entry.has(t) <==> (((mine is Some && mine->Some_0.has(t)) || (theirs is Some
                && theirs->Some_0.has(t) && !my_tomb.has(t))) && !their_tomb.has(t)) by {
            assert(entry.has(t) <==> e2.contains(t));
            assert(their_tomb.has(t) <==> their_tomb.key_set().contains(t));
            assert(my_tomb.has(t) <==> my_tomb.key_set().contains(t));
            if mine is Some {
                let m = mine->Some_0;
                assert(m.has(t) <==> m.key_set().contains(t));
                assert(e1.contains(t) <==> kept(
                    m.key_set(),
                    their_tomb.key_set(),
                    their_tomb.key_set(),
                ).contains(t));
            } else {
                assert(!e1.contains(t));
            }
            if theirs is Some {
                let th = theirs->Some_0;
                assert(th.has(t) <==> th.key_set().contains(t));
                assert(e2.contains(t) <==> e1.contains(t) || kept(
                    th.key_set(),
                    my_tomb.key_set(),
                    their_tomb.key_set(),
                ).contains(t));
            }
        }
    }
    entry
}

/// Joins tagged elements: see [`joined_live`].
fn join_tagged<T: Element>(
    mine: &Tagged<T>,
    my_tomb: &TagSet,
    theirs: &Tagged<T>,
    their_tomb: &TagSet,
) -> (out: Tagged<T>)
    requires
        tagged_wf(mine),
        tagged_wf(theirs),
        my_tomb.wf(),
        their_tomb.wf(),
    ensures
        tagged_wf(&out),
        live_of(&out) == joined_live(
            live_of(mine),
            my_tomb.key_set(),
            live_of(theirs),
            their_tomb.key_set(),
        ),
{
    let ghost goal = joined_live(
        live_of(mine),
        my_tomb.key_set(),
        live_of(theirs),
        their_tomb.key_set(),
    );
    let mut out: Tagged<T> = SortedMap::new();
    let mut i: usize = 0;
    proof {
        mine.lemma_prefix(0);
    }
    while i < mine.len()
        invariant
            tagged_wf(mine),
            tagged_wf(theirs),
            my_tomb.wf(),
            their_tomb.wf(),
            tagged_wf(&out),
            i <= mine.keys@.len(),
            goal == joined_live(
                live_of(mine),
                my_tomb.key_set(),
                live_of(theirs),
                their_tomb.key_set(),
            ),
            forall|x: T::V| out.has(x) ==> mine.prefix_set(i as int).contains(x),
            forall|p: Pair<T::V>|
                live_of(&out).contains(p) <==> mine.prefix_set(i as int).contains(p.0)
                    && goal.contains(p),
        decreases mine.keys@.len() - i,
    {
        proof {
            mine.lemma_prefix(i as int);
            mine.lemma_position(i as int);
        }
        let key = mine.key_at(i);
        let ghost x = key@;
        let my_tags = mine.value_at(i);
        assert(mine.has(x) && mine.value_of(x) == *my_tags);
        let their_tags = theirs.get(key);
        let entry = joined_entry::<T>(Some(my_tags), my_tomb, their_tags, their_tomb);
        let ghost before = out;
        proof {
            assert forall|t: TagView| entry.has(t) <==> goal.contains((x, t)) by {
                assert(my_tomb.has(t) <==> my_tomb.key_set().contains(t));
                assert(their_tomb.has(t) <==> their_tomb.key_set().contains(t));
            }
        }
        if entry.len() > 0 {
            out.insert(key.replicate(), entry);
            proof {
                lemma_live_grow(&before, &out, x, entry);
            }
        } else {
            assert forall|t: TagView| !goal.contains((x, t)) by {
                if entry.has(t) {
                    assert(false);
                }
            }
        }
        proof {
            let prev = mine.prefix_set(i as int);
            let next = mine.prefix_set(i + 1);
            assert(next == prev.insert(x));
            assert forall|p: Pair<T::V>|
                live_of(&out).contains(p) <==> next.contains(p.0) && goal.contains(p) by {
                assert(live_of(&before).contains(p) <==> prev.contains(p.0) && goal.contains(p));
                assert(next.contains(p.0) <==> prev.contains(p.0) || p.0 == x);
            }
            assert forall|k: T::V| out.has(k) implies next.contains(k) by {
                if before.has(k) {
                    assert(prev.contains(k));
                }
            }
        }
        i += 1;
    }
    proof {
        mine.lemma_prefix(i as int);
        theirs.lemma_prefix(0);
        assert forall|k: T::V| mine.prefix_set(i as int).contains(k) <==> mine.has(k) by {
            assert(mine.key_set().contains(k) <==> mine.has(k));
        }
    }
    let mut j: usize = 0;
    while j < theirs.len()
        invariant
            tagged_wf(mine),
            tagged_wf(theirs),
            my_tomb.wf(),
            their_tomb.wf(),
            tagged_wf(&out),
            j <= theirs.keys@.len(),
            goal == joined_live(
                live_of(mine),
                my_tomb.key_set(),
                live_of(theirs),
                their_tomb.key_set(),
            ),
            forall|x: T::V| out.has(x) ==> mine.has(x) || theirs.prefix_set(j as int).contains(x),
            forall|p: Pair<T::V>|
                live_of(&out).contains(p) <==> (mine.has(p.0) || theirs.prefix_set(
                    j as int,
                ).contains(p.0)) && goal.contains(p),
        decreases theirs.keys@.len() - j,
    {
        proof {
            theirs.lemma_prefix(j as int);
            theirs.lemma_position(j as int);
        }
        let key = theirs.key_at(j);
        let ghost x = key@;
        let ghost before = out;
        let ghost prev = theirs.prefix_set(j as int);
        let ghost next = theirs.prefix_set(j + 1);
        assert(next == prev.insert(x));
        if !mine.contains_key(key) {
            let their_tags = theirs.value_at(j);
            assert(theirs.has(x) && theirs.value_of(x) == *their_tags);
            let entry = joined_entry::<T>(None, my_tomb, Some(their_tags), their_tomb);
            proof {
                assert forall|t: TagView| entry.has(t) <==> goal.contains((x, t)) by {
                    assert(my_tomb.has(t) <==> my_tomb.key_set().contains(t));
                    assert(their_tomb.has(t) <==> their_tomb.key_set().contains(t));
                }
            }
            if entry.len() > 0 {
                out.insert(key.replicate(), entry);
                proof {
                    lemma_live_grow(&before, &out, x, entry);
                }
            } else {
                assert forall|t: TagView| !goal.contains((x, t)) by {
                    if entry.has(t) {
                        assert(false);
                    }
                }
            }
        }
        proof {
            assert forall|p: Pair<T::V>|
                live_of(&out).contains(p) <==> (mine.has(p.0) || next.contains(p.0))
                    && goal.contains(p) by {
                assert(live_of(&before).contains(p) <==> (mine.has(p.0) || prev.contains(p.0))
                    && goal.contains(p));
                assert(next.contains(p.0) <==> prev.contains(p.0) || p.0 == x);
            }
            assert forall|k: T::V| out.has(k) implies mine.has(k) || next.contains(k) by {
                if before.has(k) {
                    assert(mine.has(k) || prev.contains(k));
                }
            }
        }
        j += 1;
    }
    proof {
        theirs.lemma_prefix(j as int);
        assert forall|p: Pair<T::V>| live_of(&out).contains(p) <==> goal.contains(p) by {
            assert(theirs.key_set().contains(p.0) <==> theirs.has(p.0));
        }
        assert(live_of(&out) =~= goal);
    }
    out
}

/// In a set of tags in increasing order the last tag has the highest
/// number.
pub proof fn lemma_last_tag(tags: &TagSet, t: TagView)
    requires
        tags.wf(),
        tags.has(t),
    ensures
        t.1 <= tags.keys@[tags.keys@.len() - 1]@.1,
{
    let last = tags.keys@.len() - 1;
    let i = tags.index_of(t);
    if i < last {
        assert(lex_less(tags.ranks()[i], tags.ranks()[last]));
        crate::tag::lemma_tag_order(tags.keys@[i]@, tags.keys@[last]@);
    }
}

/// Raises `counter` so far that it covers the tags of the elements and the
/// tombstones.
fn highest<T: Element>(counter: u64, elements: &Tagged<T>, tombstones: &TagSet) -> (m: u64)
    requires
        tagged_wf(elements),
        tombstones.wf(),
    ensures
        m == raised(counter, live_of(elements), tombstones.key_set()),
        covers(m, counter, live_of(elements), tombstones.key_set()),
{
    let mut m = counter;
    let ghost mut from: TagView = arbitrary();
    let ghost mut under: T::V = arbitrary();
    if tombstones.len() > 0 {
        let last = tombstones.key_at(tombstones.len() - 1);
        if last.counter > m {
            m = last.counter;
            proof {
                from = last@;
            }
        }
        proof {
            assert(tombstones.has(last@));
            assert forall|t: TagView| tombstones.key_set().contains(t) implies t.1 <= m by {
                lemma_last_tag(tombstones, t);
            }
        }
    }
    let mut i: usize = 0;
    while i < elements.len()
        invariant
            tagged_wf(elements),
            i <= elements.keys@.len(),
            m >= counter,
            forall|t: TagView| tombstones.key_set().contains(t) ==> t.1 <= m,
            forall|j: int, t: TagView|
                0 <= j < i && #[trigger] elements.vals@[j].has(t) ==> t.1 <= m,
            m == counter || (tombstones.key_set().contains(from) && from.1 == m) || (live_of(
                elements,
            ).contains((under, from)) && from.1 == m),
        decreases elements.keys@.len() - i,
    {
        proof {
            elements.lemma_position(i as int);
        }
        let tags = elements.value_at(i);
        assert(tags == elements.value_of(elements.keys@[i as int]@));
        let last = tags.key_at(tags.len() - 1);
        proof {
            assert(tags.has(last@));
            assert forall|t: TagView| tags.has(t) implies t.1 <= last@.1 by {
                lemma_last_tag(tags, t);
            }
        }
        if last.counter > m {
            m = last.counter;
            proof {
                from = last@;
                under = elements.keys@[i as int]@;
                assert(live_of(elements).contains((under, from)));
            }
        }
        i += 1;
    }
    proof {
        assert forall|p: Pair<T::V>| live_of(elements).contains(p) implies p.1.1 <= m by {
            let j = elements.index_of(p.0);
            elements.lemma_position(j);
            assert(elements.vals@[j].has(p.1));
        }
        assert(covers(m, counter, live_of(elements), tombstones.key_set()));
        lemma_raised(m, counter, live_of(elements), tombstones.key_set());
    }
    m
}

/// An observed-remove set.
#[derive(Debug, Clone, PartialEq, Eq)]
pub struct ORSet<T: Element> {
    actor: String,
    counter: u64,
    elements: Tagged<T>,
    tombstones: TagSet,
}

impl<T: Element> View for ORSet<T> {
    type V = OrState<T::V>;

    closed spec fn view(&self) -> OrState<T::V> {
        OrState {
            live: live_of(&self.elements),
            tombstones: self.tombstones.key_set(),
            counter: self.counter,
        }
    }
}

/// What one set has and another lacks.
#[derive(Debug, Clone, PartialEq, Eq)]
pub struct ORSetDelta<T: Element> {
    additions: Tagged<T>,
    tombstones: TagSet,
}

impl<T: Element> View for ORSetDelta<T> {
    type V = OrPatch<T::V>;

    closed spec fn view(&self) -> OrPatch<T::V> {
        OrPatch { additions: live_of(&self.additions), tombstones: self.tombstones.key_set() }
    }
}

impl<T: Element> ORSetDelta<T> {
    /// Additions and tombstones are well formed.
    pub closed spec fn wf(&self) -> bool {
        tagged_wf(&self.additions) && self.tombstones.wf()
    }

    /// The additions as plain data.
    pub fn additions(&self) -> (out: Vec<PlainTagged<T>>)
        requires
            self.wf(),
        ensures
            plain_live(out@) == self@.additions,
    {
        tagged_to_plain(&self.additions)
    }

    /// The tombstones as plain pairs.
    pub fn tombstones(&self) -> (out: Vec<PlainTag>)
        requires
            self.wf(),
        ensures
            pair_views(out@).to_set() == self@.tombstones,
    {
        tags_to_pairs(&self.tombstones)
    }

    /// The delta that plain data gives.
    pub fn from_parts(additions: &Vec<PlainTagged<T>>, tombstones: &Vec<PlainTag>) -> (d: Self)
        ensures
            d.wf(),
            d@.additions == plain_live(additions@),
            d@.tombstones == pair_views(tombstones@).to_set(),
    {
        ORSetDelta {
            additions: tagged_from_plain(additions),
            tombstones: tags_from_pairs(tombstones),
        }
    }

    /// Whether the delta adds nothing.
    pub fn additions_is_empty(&self) -> (b: bool)
        requires
            self.wf(),
        ensures
            b == (self@.additions == Set::<Pair<T::V>>::empty()),
    {
        proof {
            if self.additions.keys@.len() > 0 {
                self.additions.lemma_position(0);
                let x = self.additions.keys@[0]@;
                let tags = self.additions.value_of(x);
                assert(self.additions.has(x));
                let t = tags.keys@[0]@;
                assert(tags.has(t));
                assert(self@.additions.contains((x, t)));
            } else {
                assert(self@.additions =~= Set::<Pair<T::V>>::empty());
            }
        }
        self.additions.len() == 0
    }

    /// Whether the delta removes nothing.
    pub fn tombstones_is_empty(&self) -> (b: bool)
        requires
            self.wf(),
        ensures
            b == (self@.tombstones == Set::<TagView>::empty()),
    {
        proof {
            if self.tombstones.keys@.len() > 0 {
                let t = self.tombstones.keys@[0]@;
                assert(self.tombstones.has(t));
                assert(self@.tombstones.contains(t));
            } else {
                assert(self@.tombstones =~= Set::<TagView>::empty());
            }
        }
        self.tombstones.len() == 0
    }
}

impl<T: Element> ORSet<T> {
    /// Elements and tombstones are well formed, every element has a tag, no
    /// live tag is among the tombstones, and no tag is numbered above the
    /// counter.
    pub closed spec fn wf(&self) -> bool {
        &&& tagged_wf(&self.elements)
        &&& self.tombstones.wf()
        &&& consistent(self@)
        &&& capped(self@)
    }

    /// In a well-formed set no live tag is among the tombstones and no tag
    /// is numbered above the counter.
    pub proof fn lemma_wf_sound(&self)
        requires
            self.wf(),
        ensures
            consistent(self@),
            capped(self@),
    {
    }

    /// Well-formed sets merge to the same state in either order and in
    /// either grouping.
    pub proof fn lemma_wf_merges(&self, second: &Self, third: &Self)
        requires
            self.wf(),
            second.wf(),
            third.wf(),
        ensures
            or_join(self@, second@) == or_join(second@, self@),
            or_join(or_join(self@, second@), third@) == or_join(self@, or_join(second@, third@)),
    {
        lemma_merge_commutative(self@, second@);
        lemma_merge_associative(self@, second@, third@);
    }

    /// The replica that holds this set.
    pub closed spec fn spec_actor(&self) -> Seq<char> {
        self.actor@
    }

    /// The elements of a well-formed set are finitely many.
    pub proof fn lemma_finite(&self)
        requires
            self.wf(),
        ensures
            present(self@.live).finite(),
    {
        lemma_present_keys(&self.elements);
        self.elements.lemma_prefix(self.elements.keys@.len() as int);
    }

    /// Creates an empty set for the replica `actor`.
    pub fn new(actor: &str) -> (s: Self)
        ensures
            s.wf(),
            s.spec_actor() == actor@,
            s@.live == Set::<Pair<T::V>>::empty(),
            s@.tombstones == Set::<TagView>::empty(),
            s@.counter == 0,
            consistent(s@),
    {
        let s = Self {
            actor: actor.to_owned(),
            counter: 0,
            elements: SortedMap::new(),
            tombstones: SortedMap::new(),
        };
        assert(s@.live =~= Set::<Pair<T::V>>::empty());
        assert(s@.tombstones =~= Set::<TagView>::empty());
        s
    }

    /// The counter that tags new additions.
    pub fn counter(&self) -> (c: u64)
        ensures
            c == self@.counter,
    {
        self.counter
    }

    /// The elements with their live tags as plain data.
    pub fn elements(&self) -> (out: Vec<PlainTagged<T>>)
        requires
            self.wf(),
        ensures
            plain_live(out@) == self@.live,
    {
        tagged_to_plain(&self.elements)
    }

    /// The tombstones as plain pairs.
    pub fn tombstones(&self) -> (out: Vec<PlainTag>)
        requires
            self.wf(),
        ensures
            pair_views(out@).to_set() == self@.tombstones,
    {
        tags_to_pairs(&self.tombstones)
    }

    /// The set of the replica `actor` that plain data gives: the tombstones,
    /// the live tags that are not among them, and the counter, raised where
    /// a tag is numbered above it.
    pub fn from_parts(
        actor: &str,
        counter: u64,
        elements: &Vec<PlainTagged<T>>,
        tombstones: &Vec<PlainTag>,
    ) -> (s: Self)
        ensures
            s.wf(),
            s.spec_actor() == actor@,
            s@.tombstones == pair_views(tombstones@).to_set(),
            s@.live == plain_live(elements@).filter(
                |p: Pair<T::V>| !pair_views(tombstones@).to_set().contains(p.1),
            ),
            s@.counter == raised(counter, s@.live, s@.tombstones),
    {
        let given = tagged_from_plain(elements);
        let dead = tags_from_pairs(tombstones);
        let none: Tagged<T> = SortedMap::new();
        let unseen: TagSet = SortedMap::new();
        let kept = join_tagged(&none, &unseen, &given, &dead);
        let top = highest(counter, &kept, &dead);
        let s = Self { actor: actor.to_owned(), counter: top, elements: kept, tombstones: dead };
        proof {
            assert(s@.live =~= plain_live(elements@).filter(
                |p: Pair<T::V>| !pair_views(tombstones@).to_set().contains(p.1),
            ));
        }
        s
    }

    /// Adds an element under a fresh tag: this replica with its counter
    /// raised by one.
    pub fn insert(&mut self, value: T)
        requires
            old(self).wf(),
            old(self)@.counter < u64::MAX,
        ensures
            final(self).wf(),
            final(self).spec_actor() == old(self).spec_actor(),
            final(self)@.counter == old(self)@.counter + 1,
            final(self)@.tombstones == old(self)@.tombstones,
            final(self)@.live == old(self)@.live.insert(
                (value@, (old(self).spec_actor(), (old(self)@.counter + 1) as u64)),
            ),
            present(final(self)@.live).contains(value@),
    {
        self.counter = self.counter + 1;
        let tag = Tag::new(self.actor.as_str(), self.counter);
        let ghost x = value@;
        let ghost t = tag@;
        let ghost before = self.elements;
        let (pos, found) = self.elements.search(&value);
        if found {
            proof {
                before.lemma_position(pos as int);
                assert(before.has(x));
            }
            let slot = self.elements.value_at_mut(pos);
            let ghost old_tags = *slot;
            let (tpos, tfound) = slot.search(&tag);
            if !tfound {
                slot.insert_at(tpos, tag, ());
            }
            proof {
                let new_tags = self.elements.vals@[pos as int];
                before.lemma_update_value(&self.elements, pos as int, new_tags);
                assert forall|k: T::V| #[trigger] self.elements.has(k) implies self.elements.value_of(
                    k,
                ).wf() && self.elements.value_of(k).keys@.len() > 0 by {
                    assert(before.has(k));
                }
                assert forall|p: Pair<T::V>|
                    live_of(&self.elements).contains(p) <==> live_of(&before).contains(p) || p == (
                        x,
                        t,
                    ) by {
                    if p.0 == x {
                        assert(new_tags.has(p.1) <==> old_tags.has(p.1) || p.1 == t);
                    } else if before.has(p.0) {
                        assert(self.elements.value_of(p.0) == before.value_of(p.0));
                    }
                }
            }
        } else {
            let mut tags: TagSet = SortedMap::new();
            tags.insert(tag, ());
            assert(tags.has(t));
            assert(tags.keys@.len() > 0);
            self.elements.insert_at(pos, value, tags);
            proof {
                lemma_live_grow(&before, &self.elements, x, tags);
                assert forall|p: Pair<T::V>|
                    live_of(&self.elements).contains(p) <==> live_of(&before).contains(p) || p == (
                        x,
                        t,
                    ) by {
                    assert(tags.has(p.1) <==> p.1 == t);
                }
            }
        }
        assert(self@.live =~= old(self)@.live.insert((x, t)));
        assert(self@.live.contains((x, t)));
        assert(self@.tombstones == old(self)@.tombstones);
        assert(consistent(self@)) by {
            assert forall|p: Pair<T::V>| self@.live.contains(p) implies !self@.tombstones.contains(
                p.1,
            ) by {
                if p != (x, t) {
                    assert(old(self)@.live.contains(p));
                }
            }
        }
        assert(capped(self@)) by {
            assert forall|p: Pair<T::V>| self@.live.contains(p) implies p.1.1 <= self@.counter by {
                if p != (x, t) {
                    assert(old(self)@.live.contains(p));
                }
            }
        }
    }

    /// Removes an element: its tags become tombstones and are live no more,
    /// under whatever element they stand. Returns whether the element was in
    /// the set.
    pub fn remove(&mut self, value: &T) -> (removed: bool)
        requires
            old(self).wf(),
        ensures
            final(self).wf(),
            final(self).spec_actor() == old(self).spec_actor(),
            final(self)@.counter == old(self)@.counter,
            removed == present(old(self)@.live).contains(value@),
            final(self)@.live == old(self)@.live.filter(
                |p: Pair<T::V>| !tags_of(old(self)@.live, value@).contains(p.1),
            ),
            final(self)@.tombstones == old(self)@.tombstones.union(
                tags_of(old(self)@.live, value@),
            ),
            !present(final(self)@.live).contains(value@),
            single(old(self)@.live) ==> final(self)@.live == old(self)@.live.filter(
                |p: Pair<T::V>| p.0 != value@,
            ),
    {
        let ghost x = value@;
        let ghost before = self.elements;
        let ghost gone = tags_of(old(self)@.live, x);
        proof {
            lemma_present_keys(&before);
            assert(before.key_set().contains(x) <==> before.has(x));
        }
        let (pos, found) = self.elements.search(value);
        if found {
            proof {
                before.lemma_position(pos as int);
            }
            let (_, tags) = self.elements.remove_at(pos);
            assert(tags == before.value_of(x));
            proof {
                assert forall|k: T::V| self.elements.has(k) implies self.elements.value_of(k)
                    == before.value_of(k) by {
                    assert(self.elements.as_map()[k] == before.as_map()[k]);
                }
                assert forall|k: T::V| #[trigger] self.elements.has(k) implies self.elements.value_of(
                    k,
                ).wf() && self.elements.value_of(k).keys@.len() > 0 by {
                    assert(before.has(k));
                }
                assert(tags.key_set() =~= gone) by {
                    assert forall|t: TagView| tags.key_set().contains(t) <==> gone.contains(t) by {
                        assert(tags.key_set().contains(t) <==> tags.has(t));
                    }
                }
            }
            let ghost rest = live_of(&self.elements);
            assert(rest =~= old(self)@.live.filter(|p: Pair<T::V>| p.0 != x));
            let none: Tagged<T> = SortedMap::new();
            let left = join_tagged(&self.elements, &self.tombstones, &none, &tags);
            self.elements = left;
            unite(&mut self.tombstones, &tags);
            proof {
                assert(live_of(&none) =~= Set::<Pair<T::V>>::empty());
                assert(self@.live =~= old(self)@.live.filter(
                    |p: Pair<T::V>| !gone.contains(p.1),
                ));
                assert(self@.tombstones =~= old(self)@.tombstones.union(gone));
            }
        } else {
            proof {
                assert(gone =~= Set::<TagView>::empty());
                assert(self@.live =~= old(self)@.live.filter(
                    |p: Pair<T::V>| !gone.contains(p.1),
                ));
                assert(self@.tombstones =~= old(self)@.tombstones.union(gone));
            }
        }
        proof {
            if present(self@.live).contains(x) {
                let t = choose|t: TagView| self@.live.contains((x, t));
                assert(gone.contains(t));
            }
            if single(old(self)@.live) {
                assert(self@.live =~= old(self)@.live.filter(|p: Pair<T::V>| p.0 != x)) by {
                    assert forall|p: Pair<T::V>| old(self)@.live.contains(p) implies (gone.contains(
                        p.1,
                    ) <==> p.0 == x) by {
                        if gone.contains(p.1) {
                            assert(old(self)@.live.contains((x, p.1)));
                        }
                    }
                }
            }
        }
        found
    }

    /// Whether the set holds `value`: some tag of it is live.
    pub fn contains(&self, value: &T) -> (b: bool)
        requires
            self.wf(),
        ensures
            b == present(self@.live).contains(value@),
    {
        proof {
            lemma_present_keys(&self.elements);
            assert(self.elements.key_set().contains(value@) <==> self.elements.has(value@));
        }
        self.elements.contains_key(value)
    }

    /// The number of elements.
    pub fn len(&self) -> (n: usize)
        requires
            self.wf(),
        ensures
            n == present(self@.live).len(),
    {
        proof {
            lemma_present_keys(&self.elements);
            self.elements.lemma_prefix(self.elements.keys@.len() as int);
        }
        self.elements.len()
    }

    /// Whether the set holds nothing.
    pub fn is_empty(&self) -> (b: bool)
        requires
            self.wf(),
        ensures
            b == (present(self@.live).len() == 0),
    {
        self.len() == 0
    }

    /// The elements in increasing order.
    pub fn iter(&self) -> (items: Vec<&T>)
        requires
            self.wf(),
        ensures
            lists_set::<T>(items@, present(self@.live)),
            items@.len() == present(self@.live).len(),
    {
        let mut items: Vec<&T> = Vec::new();
        let mut i: usize = 0;
        while i < self.elements.len()
            invariant
                self.elements.wf(),
                i <= self.elements.keys@.len(),
                items@.len() == i,
                forall|k: int| 0 <= k < i ==> *(#[trigger] items@[k]) == self.elements.keys@[k],
            decreases self.elements.keys@.len() - i,
        {
            items.push(self.elements.key_at(i));
            i += 1;
        }
        proof {
            lemma_present_keys(&self.elements);
            let views = ref_views::<T>(items@);
            let ranks = view_ranks::<T>(views);
            assert forall|a: int, b: int| 0 <= a < b < ranks.len() implies lex_less(
                #[trigger] ranks[a],
                #[trigger] ranks[b],
            ) by {
                assert(views[a] == self.elements.keys@[a]@);
                assert(views[b] == self.elements.keys@[b]@);
                assert(lex_less(self.elements.ranks()[a], self.elements.ranks()[b]));
            }
            assert forall|v: T::V| present(self@.live).contains(v) <==> views.contains(v) by {
                assert(self.elements.key_set().contains(v) <==> self.elements.has(v));
                if self.elements.has(v) {
                    let j = self.elements.index_of(v);
                    assert(views[j] == v);
                }
                if views.contains(v) {
                    let j = choose|j: int| 0 <= j < views.len() && views[j] == v;
                    assert(self.elements.keys@[j]@ == v);
                }
            }
            lemma_lists_set_len::<T>(items@, present(self@.live));
        }
        items
    }

    /// The replica that holds this set.
    pub fn actor(&self) -> (a: &str)
        ensures
            a@ == self.spec_actor(),
    {
        self.actor.as_str()
    }
}

impl<T: Element> Crdt for ORSet<T> {
    open spec fn valid(&self) -> bool {
        self.wf()
    }

    /// Adds the live tags of `other` that this replica has not removed,
    /// removes the tags that `other` has removed, joins the tombstones, and
    /// takes the larger counter.
    fn merge(&mut self, other: &Self)
        ensures
            final(self)@ == or_join(old(self)@, other@),
            final(self).spec_actor() == old(self).spec_actor(),
    {
        let joined = join_tagged(
            &self.elements,
            &self.tombstones,
            &other.elements,
            &other.tombstones,
        );
        self.elements = joined;
        unite(&mut self.tombstones, &other.tombstones);
        if other.counter > self.counter {
            self.counter = other.counter;
        }
        proof {
            assert(self@ =~= or_join(old(self)@, other@));
            assert(consistent(self@)) by {
                assert forall|p: Pair<T::V>| self@.live.contains(p) implies !self@.tombstones.contains(
                    p.1,
                ) by {
                    if old(self)@.live.contains(p) {
                        assert(!old(self)@.tombstones.contains(p.1));
                    }
                }
            }
            assert(capped(self@)) by {
                assert forall|p: Pair<T::V>| self@.live.contains(p) implies p.1.1
                    <= self@.counter by {
                    if old(self)@.live.contains(p) {
                        assert(p.1.1 <= old(self)@.counter);
                    } else {
                        assert(other@.live.contains(p));
                    }
                }
                assert forall|t: TagView| self@.tombstones.contains(t) implies t.1
                    <= self@.counter by {
                    if old(self)@.tombstones.contains(t) {
                    } else {
                        assert(other@.tombstones.contains(t));
                    }
                }
            }
        }
    }
}

impl<T: Element> DeltaCrdt for ORSet<T> {
    type Delta = ORSetDelta<T>;

    open spec fn valid_delta(delta: &ORSetDelta<T>) -> bool {
        delta.wf()
    }

    /// The live tags that `other` neither holds nor has removed, and the
    /// tombstones that `other` lacks.
    fn delta(&self, other: &Self) -> (d: ORSetDelta<T>)
        ensures
            d@ == or_patch(self@, other@),
    {
        let empty: TagSet = SortedMap::new();
        let mut additions: Tagged<T> = SortedMap::new();
        let ghost goal = or_patch(self@, other@).additions;
        let mut i: usize = 0;
        proof {
            self.elements.lemma_prefix(0);
        }
        while i < self.elements.len()
            invariant
                self.wf(),
                other.wf(),
                empty.wf(),
                empty.keys@.len() == 0,
                tagged_wf(&additions),
                i <= self.elements.keys@.len(),
                goal == or_patch(self@, other@).additions,
                forall|x: T::V| additions.has(x) ==> self.elements.prefix_set(i as int).contains(x),
                forall|p: Pair<T::V>|
                    live_of(&additions).contains(p) <==> self.elements.prefix_set(
                        i as int,
                    ).contains(p.0) && goal.contains(p),
            decreases self.elements.keys@.len() - i,
        {
            proof {
                self.elements.lemma_prefix(i as int);
                self.elements.lemma_position(i as int);
            }
            let key = self.elements.key_at(i);
            let ghost x = key@;
            let my_tags = self.elements.value_at(i);
            assert(self.elements.has(x) && self.elements.value_of(x) == *my_tags);
            let mut fresh: TagSet = SortedMap::new();
            assert(fresh.key_set() =~= Set::<TagView>::empty());
            match other.elements.get(key) {
                Some(their_tags) => {
                    assert(other.elements.has(x));
                    add_filtered(&mut fresh, my_tags, their_tags, &other.tombstones);
                    proof {
                        assert forall|t: TagView| fresh.has(t) <==> goal.contains((x, t)) by {
                            assert(fresh.has(t) <==> fresh.key_set().contains(t));
                            assert(my_tags.has(t) <==> my_tags.key_set().contains(t));
                            assert(their_tags.has(t) <==> their_tags.key_set().contains(t));
                            assert(other.tombstones.has(t) <==> other.tombstones.key_set().contains(
                                t,
                            ));
                        }
                    }
                },
                None => {
                    add_filtered(&mut fresh, my_tags, &empty, &other.tombstones);
                    proof {
                        assert forall|t: TagView| fresh.has(t) <==> goal.contains((x, t)) by {
                            assert(fresh.has(t) <==> fresh.key_set().contains(t));
                            assert(my_tags.has(t) <==> my_tags.key_set().contains(t));
                            assert(!empty.key_set().contains(t));
                            assert(other.tombstones.has(t) <==> other.tombstones.key_set().contains(
                                t,
                            ));
                        }
                    }
                },
            }
            let ghost before = additions;
            if fresh.len() > 0 {
                additions.insert(key.replicate(), fresh);
                proof {
                    lemma_live_grow(&before, &additions, x, fresh);
                }
            } else {
                assert forall|t: TagView| !goal.contains((x, t)) by {
                    if fresh.has(t) {
                        assert(false);
                    }
                }
            }
            proof {
                let prev = self.elements.prefix_set(i as int);
                let next = self.elements.prefix_set(i + 1);
                assert(next == prev.insert(x));
                assert forall|p: Pair<T::V>|
                    live_of(&additions).contains(p) <==> next.contains(p.0) && goal.contains(p) by {
                    assert(live_of(&before).contains(p) <==> prev.contains(p.0) && goal.contains(
                        p,
                    ));
                    assert(next.contains(p.0) <==> prev.contains(p.0) || p.0 == x);
                }
                assert forall|k: T::V| additions.has(k) implies next.contains(k) by {
                    if before.has(k) {
                        assert(prev.contains(k));
                    }
                }
            }
            i += 1;
        }
        let mut tombstones: TagSet = SortedMap::new();
        assert(tombstones.key_set() =~= Set::<TagView>::empty());
        add_filtered(&mut tombstones, &self.tombstones, &other.tombstones, &other.tombstones);
        let d = ORSetDelta { additions, tombstones };
        proof {
            self.elements.lemma_prefix(i as int);
            assert forall|p: Pair<T::V>| d@.additions.contains(p) <==> goal.contains(p) by {
                assert(self.elements.key_set().contains(p.0) <==> self.elements.has(p.0));
            }
            assert(d@.additions =~= goal);
            assert(d@.tombstones =~= self@.tombstones.difference(other@.tombstones));
        }
        d
    }

    /// Adds the live tags of the delta that this replica has not removed,
    /// then removes the tags that the delta removes, joins the tombstones,
    /// and raises the counter to cover the tags of the delta.
    fn apply_delta(&mut self, delta: &ORSetDelta<T>)
        ensures
            final(self)@ == or_apply(old(self)@, delta@),
            final(self).spec_actor() == old(self).spec_actor(),
    {
        let joined = join_tagged(
            &self.elements,
            &self.tombstones,
            &delta.additions,
            &delta.tombstones,
        );
        self.elements = joined;
        unite(&mut self.tombstones, &delta.tombstones);
        self.counter = highest(self.counter, &delta.additions, &delta.tombstones);
        proof {
            assert(self@ =~= or_apply(old(self)@, delta@));
            assert(consistent(self@)) by {
                assert forall|p: Pair<T::V>| self@.live.contains(p) implies !self@.tombstones.contains(
                    p.1,
                ) by {
                    if old(self)@.live.contains(p) {
                        assert(!old(self)@.tombstones.contains(p.1));
                    }
                }
            }
            assert(capped(self@)) by {
                assert forall|p: Pair<T::V>| self@.live.contains(p) implies p.1.1
                    <= self@.counter by {
                    if old(self)@.live.contains(p) {
                        assert(p.1.1 <= old(self)@.counter);
                    } else {
                        assert(delta@.additions.contains(p));
                    }
                }
                assert forall|t: TagView| self@.tombstones.contains(t) implies t.1
                    <= self@.counter by {
                    if old(self)@.tombstones.contains(t) {
                    } else {
                        assert(delta@.tombstones.contains(t));
                    }
                }
            }
        }
    }
}

/// Merging is commutative, for consistent states, which the states of
/// well-formed sets are: either order gives the same live tags, tombstones
/// and counter, and so the same elements.
pub proof fn lemma_merge_commutative<V>(a: OrState<V>, b: OrState<V>)
    requires
        consistent(a),
        consistent(b),
    ensures
        or_join(a, b) == or_join(b, a),
        present(or_join(a, b).live) == present(or_join(b, a).live),
        consistent(or_join(a, b)),
{
    assert(or_join(a, b).live =~= or_join(b, a).live);
    assert(or_join(a, b).tombstones =~= or_join(b, a).tombstones);
}

/// Merging is associative, for consistent states, which the states of
/// well-formed sets are.
pub proof fn lemma_merge_associative<V>(a: OrState<V>, b: OrState<V>, c: OrState<V>)
    requires
        consistent(a),
        consistent(b),
        consistent(c),
    ensures
        or_join(or_join(a, b), c) == or_join(a, or_join(b, c)),
        present(or_join(or_join(a, b), c).live) == present(or_join(a, or_join(b, c)).live),
{
    assert(or_join(or_join(a, b), c).live =~= or_join(a, or_join(b, c)).live);
    assert(or_join(or_join(a, b), c).tombstones =~= or_join(a, or_join(b, c)).tombstones);
}

/// Merging is idempotent: merging the same replica a second time changes
/// nothing.
pub proof fn lemma_merge_idempotent<V>(a: OrState<V>, b: OrState<V>)
    ensures
        or_join(or_join(a, b), b) == or_join(a, b),
        present(or_join(or_join(a, b), b).live) == present(or_join(a, b).live),
{
    assert(or_join(or_join(a, b), b).live =~= or_join(a, b).live);
    assert(or_join(or_join(a, b), b).tombstones =~= or_join(a, b).tombstones);
}

/// Applying to `b` the delta of `a` against `b` gives the live tags and
/// tombstones, and so the elements, of merging `a` into `b`, for a consistent
/// `b`.
pub proof fn lemma_delta_equivalent<V>(a: OrState<V>, b: OrState<V>)
    requires
        consistent(b),
    ensures
        or_apply(b, or_patch(a, b)).live == or_join(b, a).live,
        or_apply(b, or_patch(a, b)).tombstones == or_join(b, a).tombstones,
        present(or_apply(b, or_patch(a, b)).live) == present(or_join(b, a).live),
{
    assert(or_apply(b, or_patch(a, b)).live =~= or_join(b, a).live);
    assert(or_apply(b, or_patch(a, b)).tombstones =~= or_join(b, a).tombstones);
}

/// An addition that a removal has not seen survives: a live tag of `b` that
/// `a` has not removed is live after `a` merges `b`, whatever `a` removed.
pub proof fn lemma_add_wins<V>(a: OrState<V>, b: OrState<V>, x: V, t: TagView)
    requires
        consistent(b),
        b.live.contains((x, t)),
        !a.tombstones.contains(t),
    ensures
        or_join(a, b).live.contains((x, t)),
        present(or_join(a, b).live).contains(x),
{
    assert(or_join(a, b).live.contains((x, t)));
}

} // verus!
