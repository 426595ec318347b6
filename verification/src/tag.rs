//! Tags: a replica and a counter, unique for each operation of the replica.

use crate::element::{
    compare_text, lemma_tagged_rank, lemma_text_rank_injective, tagged_rank, text_rank, Element,
    Replicate,
};
use crate::order::{lemma_lex_order, Order};
use crate::sorted_map::SortedMap;
use vstd::prelude::*;

verus! {

/// A replica and the value of its counter at one operation.
#[derive(Debug, Clone, PartialEq, Eq)]
pub struct Tag {
    pub actor: String,
    pub counter: u64,
}

/// A tag as a replica name and a counter.
pub type TagView = (Seq<char>, u64);

/// A set of tags in increasing order.
pub type TagSet = SortedMap<Tag, ()>;

impl View for Tag {
    type V = TagView;

    open spec fn view(&self) -> TagView {
        (self.actor@, self.counter)
    }
}

impl Tag {
    /// Makes the tag of `actor` at `counter`.
    pub fn new(actor: &str, counter: u64) -> (t: Self)
        ensures
            t@ == (actor@, counter),
    {
        Tag { actor: actor.to_owned(), counter }
    }
}

/// `a` comes before `b`: by counter, and by replica where the counters are
/// equal.
pub open spec fn tag_less(a: TagView, b: TagView) -> bool {
    a.1 < b.1 || (a.1 == b.1 && crate::order::lex_less(text_rank(a.0), text_rank(b.0)))
}

impl Replicate for Tag {
    fn replicate(&self) -> (r: Self) {
        Tag { actor: self.actor.clone(), counter: self.counter }
    }
}

impl Element for Tag {
    open spec fn rank(v: TagView) -> Seq<int> {
        tagged_rank(v.1 as int, text_rank(v.0))
    }

    proof fn lemma_rank_injective(a: TagView, b: TagView) {
        lemma_tagged_rank(a.1 as int, text_rank(a.0), b.1 as int, text_rank(b.0));
        lemma_text_rank_injective(a.0, b.0);
    }

    fn order(&self, other: &Self) -> (o: Order) {
        proof {
            lemma_tagged_rank(
                self.counter as int,
                text_rank(self.actor@),
                other.counter as int,
                text_rank(other.actor@),
            );
            lemma_lex_order(text_rank(self.actor@), text_rank(other.actor@));
            lemma_lex_order(Self::rank(self@), Self::rank(other@));
        }
        if self.counter < other.counter {
            Order::Less
        } else if self.counter > other.counter {
            Order::Greater
        } else {
            compare_text(self.actor.as_str(), other.actor.as_str())
        }
    }
}

/// Tags are ordered by counter first and by replica second.
pub proof fn lemma_tag_order(a: TagView, b: TagView)
    ensures
        crate::order::lex_less(Tag::rank(a), Tag::rank(b)) == tag_less(a, b),
{
    lemma_tagged_rank(a.1 as int, text_rank(a.0), b.1 as int, text_rank(b.0));
}

/// The tags of `from` that are in neither `first` nor `second`.
pub open spec fn kept(from: Set<TagView>, first: Set<TagView>, second: Set<TagView>) -> Set<
    TagView,
> {
    Set::new(|t: TagView| from.contains(t) && !first.contains(t) && !second.contains(t))
}

/// Adds to `out` the tags of `from` that are in neither `first` nor `second`.
pub fn add_filtered(out: &mut TagSet, from: &TagSet, first: &TagSet, second: &TagSet)
    requires
        old(out).wf(),
        from.wf(),
        first.wf(),
        second.wf(),
    ensures
        final(out).wf(),
        final(out).key_set() == old(out).key_set().union(
            kept(from.key_set(), first.key_set(), second.key_set()),
        ),
{
    let ghost start = out.key_set();
    let ghost a = first.key_set();
    let ghost b = second.key_set();
    let mut i: usize = 0;
    proof {
        from.lemma_prefix(0);
        assert(out.key_set() =~= start.union(kept(from.prefix_set(0), a, b)));
    }
    while i < from.len()
        invariant
            out.wf(),
            from.wf(),
            first.wf(),
            second.wf(),
            a == first.key_set(),
            b == second.key_set(),
            i <= from.keys@.len(),
            out.key_set() == start.union(kept(from.prefix_set(i as int), a, b)),
        decreases from.keys@.len() - i,
    {
        proof {
            from.lemma_prefix(i as int);
        }
        let tag = from.key_at(i);
        let ghost before = out.key_set();
        let ghost k = tag@;
        let wanted = !first.contains_key(tag) && !second.contains_key(tag);
        if wanted {
            let (pos, found) = out.search(tag);
            if !found {
                out.insert_at(pos, tag.replicate(), ());
            }
        }
        proof {
            let prev = from.prefix_set(i as int);
            let next = from.prefix_set(i + 1);
            assert(next == prev.insert(k));
            assert(wanted == (!a.contains(k) && !b.contains(k)));
            assert forall|t: TagView| out.key_set().contains(t) <==> start.union(
                kept(next, a, b),
            ).contains(t) by {
                assert(out.key_set().contains(t) <==> out.has(t));
                assert(before.contains(t) <==> start.contains(t) || kept(prev, a, b).contains(t));
                assert(next.contains(t) <==> prev.contains(t) || t == k);
                if wanted {
                    assert(out.has(t) <==> before.contains(t) || t == k);
                } else {
                    assert(out.has(t) <==> before.contains(t));
                }
            }
            assert(out.key_set() =~= start.union(kept(next, a, b)));
        }
        i += 1;
    }
    proof {
        from.lemma_prefix(i as int);
    }
}

/// A replica with a number, as plain data.
pub type Pair = (String, u64);

/// The views of plain pairs.
pub open spec fn pair_views(pairs: Seq<Pair>) -> Seq<TagView> {
    pairs.map_values(|p: Pair| (p.0@, p.1))
}

/// The tags of a set as plain pairs, in increasing order.
pub fn tags_to_pairs(set: &TagSet) -> (out: Vec<Pair>)
    requires
        set.wf(),
    ensures
        pair_views(out@).to_set() == set.key_set(),
        out@.len() == set.keys@.len(),
{
    let mut out: Vec<Pair> = Vec::new();
    let mut i: usize = 0;
    while i < set.len()
        invariant
            set.wf(),
            i <= set.keys@.len(),
            out@.len() == i,
            forall|k: int|
                0 <= k < i ==> ((#[trigger] out@[k]).0@, out@[k].1) == set.keys@[k]@,
        decreases set.keys@.len() - i,
    {
        let tag = set.key_at(i);
        out.push((tag.actor.clone(), tag.counter));
        i += 1;
    }
    assert forall|k: int| 0 <= k < out@.len() implies #[trigger] pair_views(out@)[k]
        == set.keys@[k]@ by {
        assert(((out@[k]).0@, out@[k].1) == set.keys@[k]@);
    }
    proof {
        let views = pair_views(out@);
        assert forall|t: TagView| views.to_set().contains(t) <==> set.key_set().contains(t) by {
            if views.contains(t) {
                let k = choose|k: int| 0 <= k < views.len() && views[k] == t;
                assert(set.keys@[k]@ == t);
                assert(set.has(t));
            }
            if set.has(t) {
                let k = set.index_of(t);
                assert(views[k] == t);
            }
        }
        assert(views.to_set() =~= set.key_set());
    }
    out
}

/// The set of the tags that plain pairs name.
pub fn tags_from_pairs(pairs: &Vec<Pair>) -> (set: TagSet)
    ensures
        set.wf(),
        set.key_set() == pair_views(pairs@).to_set(),
{
    let mut set: TagSet = SortedMap::new();
    let mut i: usize = 0;
    let ghost views = pair_views(pairs@);
    while i < pairs.len()
        invariant
            set.wf(),
            i <= pairs@.len(),
            views == pair_views(pairs@),
            forall|t: TagView| set.has(t) <==> views.take(i as int).contains(t),
        decreases pairs@.len() - i,
    {
        let ghost before = set;
        let tag = Tag { actor: pairs[i].0.clone(), counter: pairs[i].1 };
        assert(tag@ == views[i as int]);
        let (pos, found) = set.search(&tag);
        if !found {
            set.insert_at(pos, tag, ());
        }
        proof {
            let next = views.take(i + 1);
            assert(next =~= views.take(i as int).push(views[i as int]));
            assert forall|t: TagView| set.has(t) <==> next.contains(t) by {
                assert(before.has(t) <==> views.take(i as int).contains(t));
                if next.contains(t) {
                    let k = choose|k: int| 0 <= k < next.len() && next[k] == t;
                    if k < i {
                        assert(views.take(i as int)[k] == t);
                    }
                }
                if views.take(i as int).contains(t) {
                    let k = choose|k: int|
                        0 <= k < views.take(i as int).len() && views.take(i as int)[k] == t;
                    assert(next[k] == t);
                }
                if t == views[i as int] {
                    assert(next[i as int] == t);
                }
            }
        }
        i += 1;
    }
    proof {
        assert(views.take(i as int) =~= views);
        assert forall|t: TagView| set.key_set().contains(t) <==> views.to_set().contains(t) by {
            assert(set.has(t) <==> views.contains(t));
        }
        assert(set.key_set() =~= views.to_set());
    }
    set
}

} // verus!
