//! The replicated growable array: a sequence in which every element knows
//! the element it was inserted after.
//!
//! The elements form a forest by their parents. Siblings are ordered by
//! identifier, larger first, and the sequence is the pre-order traversal of
//! the forest. Removed elements stay in the forest as tombstones.

use crate::crdt::Crdt;
use crate::element::{Element, Replicate};
use crate::gset::unite;
use crate::order::strictly_increasing;
use crate::sorted_map::SortedMap;
use crate::tag::{
    lemma_tag_order, pair_views, tag_less, tags_from_pairs, tags_to_pairs, Pair, Tag, TagSet,
    TagView,
};
use vstd::prelude::*;

verus! {

/// An element of the array: its value and the identifier of the element it
/// was inserted after, none for the head.
pub struct NodeView<V> {
    pub value: V,
    pub parent: Option<TagView>,
}

/// The state of an array.
#[verifier::reject_recursive_types(V)]
pub struct RgaState<V> {
    /// The identifiers of all elements in increasing order.
    pub ids: Seq<TagView>,
    /// The elements by identifier.
    pub nodes: Map<TagView, NodeView<V>>,
    /// The identifiers of the removed elements.
    pub tombstones: Set<TagView>,
    /// The counter that numbers new elements.
    pub counter: u64,
}

/// The ranks of a list of identifiers.
pub open spec fn id_ranks(ids: Seq<TagView>) -> Seq<Seq<int>> {
    ids.map_values(|t: TagView| Tag::rank(t))
}

/// The identifiers are those of the elements, in strictly increasing order.
pub open spec fn canonical<V>(s: RgaState<V>) -> bool {
    &&& strictly_increasing(id_ranks(s.ids))
    &&& forall|t: TagView| s.nodes.dom().contains(t) <==> s.ids.contains(t)
}

/// No identifier is numbered above the counter, and every tombstone is the
/// identifier of an element.
pub open spec fn numbered<V>(s: RgaState<V>) -> bool {
    &&& forall|i: int| 0 <= i < s.ids.len() ==> (#[trigger] s.ids[i]).1 <= s.counter
    &&& forall|t: TagView| s.tombstones.contains(t) ==> s.ids.contains(t)
}

/// Every element stands under the head or under an element with an earlier
/// identifier: an element is inserted after one that is already there.
pub open spec fn rooted<V>(nodes: Map<TagView, NodeView<V>>) -> bool {
    forall|t: TagView|
        nodes.dom().contains(t) ==> match (#[trigger] nodes[t]).parent {
            None => true,
            Some(p) => nodes.dom().contains(p) && tag_less(p, t),
        }
}

/// The position of the parent of the element at position `j`: -1 for the
/// head, -2 where the parent is not an element of the array.
pub open spec fn parent_index<V>(s: RgaState<V>, j: int) -> int {
    match s.nodes[s.ids[j]].parent {
        None => -1,
        Some(p) => if s.ids.contains(p) {
            s.ids.index_of(p)
        } else {
            -2
        },
    }
}

/// The pre-order traversal of the children of `p` at positions up to `j`,
/// larger positions first, each child followed by its own descendants.
pub open spec fn walk<V>(s: RgaState<V>, p: int, j: int) -> Seq<int>
    decreases (if p < s.ids.len() { s.ids.len() - p } else { 0 }), (if j >= 0 { j + 1 } else { 0 }),
{
    if p < -1 || j <= p || j >= s.ids.len() {
        Seq::empty()
    } else if parent_index(s, j) == p {
        seq![j] + walk(s, j, s.ids.len() - 1) + walk(s, p, j - 1)
    } else {
        walk(s, p, j - 1)
    }
}

/// The largest position up to `j` of a child of `p`, -1 where `p` has no
/// child at a position up to `j`.
pub open spec fn last_child<V>(s: RgaState<V>, p: int, j: int) -> int
    decreases (if j >= 0 { j + 1 } else { 0 }),
{
    if p < -1 || j <= p || j < 0 || j >= s.ids.len() {
        -1
    } else if parent_index(s, j) == p {
        j
    } else {
        last_child(s, p, j - 1)
    }
}

/// The traversal of the children up to `j` starts at the last child up to
/// `j`: the child, its descendants, and the children before it.
pub proof fn lemma_walk_from_child<V>(s: RgaState<V>, p: int, j: int)
    requires
        j < s.ids.len(),
    ensures
        walk(s, p, j) == walk(s, p, last_child(s, p, j)),
        last_child(s, p, j) >= 0 ==> {
            let c = last_child(s, p, j);
            &&& -1 <= p < c <= j
            &&& parent_index(s, c) == p
            &&& last_child(s, p, c) == c
            &&& walk(s, p, c) == seq![c] + walk(s, c, s.ids.len() - 1) + walk(s, p, c - 1)
        },
        last_child(s, p, j) < 0 ==> walk(s, p, j) == Seq::<int>::empty(),
    decreases (if j >= 0 { j + 1 } else { 0 }),
{
    if p < -1 || j <= p || j < 0 {
    } else if parent_index(s, j) == p {
    } else {
        lemma_walk_from_child(s, p, j - 1);
    }
}

/// The positions of the elements in the order of the sequence, tombstones
/// included.
pub open spec fn linear<V>(s: RgaState<V>) -> Seq<int> {
    walk(s, -1, s.ids.len() - 1)
}

/// The positions of `order` whose elements are not removed.
pub open spec fn visible_of<V>(s: RgaState<V>, order: Seq<int>) -> Seq<int>
    decreases order.len(),
{
    if order.len() == 0 {
        Seq::empty()
    } else if s.tombstones.contains(s.ids[order.last()]) {
        visible_of(s, order.drop_last())
    } else {
        visible_of(s, order.drop_last()).push(order.last())
    }
}

/// The positions of the visible elements in the order of the sequence.
pub open spec fn visible<V>(s: RgaState<V>) -> Seq<int> {
    visible_of(s, linear(s))
}

/// The values of the visible elements in the order of the sequence.
pub open spec fn visible_values<V>(s: RgaState<V>) -> Seq<V> {
    visible(s).map_values(|j: int| s.nodes[s.ids[j]].value)
}

/// Every integer of `order` is a position below `n`.
pub open spec fn positions(order: Seq<int>, n: int) -> bool {
    forall|k: int| 0 <= k < order.len() ==> 0 <= #[trigger] order[k] < n
}

/// Every position of a traversal is a position of an element.
pub proof fn lemma_walk_bounds<V>(s: RgaState<V>, p: int, j: int)
    ensures
        positions(walk(s, p, j), s.ids.len() as int),
    decreases (if p < s.ids.len() { s.ids.len() - p } else { 0 }), (if j >= 0 { j + 1 } else { 0 }),
{
    let n = s.ids.len() as int;
    if p < -1 || j <= p || j >= s.ids.len() {
    } else if parent_index(s, j) == p {
        lemma_walk_bounds(s, j, s.ids.len() - 1);
        lemma_walk_bounds(s, p, j - 1);
        let a = seq![j];
        let b = walk(s, j, s.ids.len() - 1);
        let c = walk(s, p, j - 1);
        let w = a + b + c;
        assert forall|k: int| 0 <= k < w.len() implies 0 <= #[trigger] w[k] < n by {
            if k < 1 {
                assert(w[k] == j);
            } else if k < 1 + b.len() {
                assert(w[k] == b[k - 1]);
            } else {
                assert(w[k] == c[k - 1 - b.len()]);
            }
        }
    } else {
        lemma_walk_bounds(s, p, j - 1);
    }
}

/// The visible positions are positions of the order.
pub proof fn lemma_visible_bounds<V>(s: RgaState<V>, order: Seq<int>)
    requires
        positions(order, s.ids.len() as int),
    ensures
        visible_of(s, order).len() <= order.len(),
        positions(visible_of(s, order), s.ids.len() as int),
        forall|k: int|
            0 <= k < visible_of(s, order).len() ==> !s.tombstones.contains(
                s.ids[#[trigger] visible_of(s, order)[k]],
            ),
    decreases order.len(),
{
    if order.len() > 0 {
        let front = order.drop_last();
        assert forall|k: int| 0 <= k < front.len() implies 0 <= #[trigger] front[k]
            < s.ids.len() by {
            assert(front[k] == order[k]);
        }
        lemma_visible_bounds(s, front);
        assert(0 <= order[order.len() - 1] < s.ids.len());
    }
}

/// States with the same elements and the same tombstones have the same
/// sequence: the order depends on nothing else.
pub proof fn lemma_convergence<V>(a: RgaState<V>, b: RgaState<V>)
    requires
        canonical(a),
        canonical(b),
        a.nodes == b.nodes,
        a.tombstones == b.tombstones,
    ensures
        a.ids == b.ids,
        linear(a) == linear(b),
        visible(a) == visible(b),
        visible_values(a) == visible_values(b),
{
    let ra = id_ranks(a.ids);
    let rb = id_ranks(b.ids);
    assert forall|x: Seq<int>| ra.contains(x) <==> rb.contains(x) by {
        if ra.contains(x) {
            let i = choose|i: int| 0 <= i < ra.len() && ra[i] == x;
            assert(a.ids.contains(a.ids[i]));
            let t = a.ids[i];
            assert(b.ids.contains(t));
            let k = choose|k: int| 0 <= k < b.ids.len() && b.ids[k] == t;
            assert(rb[k] == x);
        }
        if rb.contains(x) {
            let i = choose|i: int| 0 <= i < rb.len() && rb[i] == x;
            assert(b.ids.contains(b.ids[i]));
            let t = b.ids[i];
            assert(a.ids.contains(t));
            let k = choose|k: int| 0 <= k < a.ids.len() && a.ids[k] == t;
            assert(ra[k] == x);
        }
    }
    crate::order::lemma_increasing_unique(ra, rb);
    assert(a.ids.len() == ra.len());
    assert(b.ids.len() == rb.len());
    assert forall|i: int| 0 <= i < a.ids.len() implies a.ids[i] == b.ids[i] by {
        assert(ra[i] == Tag::rank(a.ids[i]));
        assert(rb[i] == Tag::rank(b.ids[i]));
        Tag::lemma_rank_injective(a.ids[i], b.ids[i]);
    }
    assert(a.ids =~= b.ids);
    lemma_walk_same(a, b, -1, a.ids.len() - 1);
    lemma_visible_same(a, b, linear(a));
    assert(visible_values(a) =~= visible_values(b));
}

/// The traversal depends on the identifiers and the elements alone.
pub proof fn lemma_walk_same<V>(a: RgaState<V>, b: RgaState<V>, p: int, j: int)
    requires
        a.ids == b.ids,
        a.nodes == b.nodes,
    ensures
        walk(a, p, j) == walk(b, p, j),
    decreases (if p < a.ids.len() { a.ids.len() - p } else { 0 }), (if j >= 0 { j + 1 } else { 0 }),
{
    if p < -1 || j <= p || j >= a.ids.len() {
    } else {
        assert(parent_index(a, j) == parent_index(b, j));
        lemma_walk_same(a, b, p, j - 1);
        if parent_index(a, j) == p {
            lemma_walk_same(a, b, j, a.ids.len() - 1);
        }
    }
}

/// What is visible of an order depends on the identifiers and the tombstones
/// alone.
pub proof fn lemma_visible_same<V>(a: RgaState<V>, b: RgaState<V>, order: Seq<int>)
    requires
        a.ids == b.ids,
        a.tombstones == b.tombstones,
    ensures
        visible_of(a, order) == visible_of(b, order),
    decreases order.len(),
{
    if order.len() > 0 {
        lemma_visible_same(a, b, order.drop_last());
    }
}

/// In a strictly increasing list an identifier stands at one position.
pub proof fn lemma_index_unique(ids: Seq<TagView>, pos: int)
    requires
        strictly_increasing(id_ranks(ids)),
        0 <= pos < ids.len(),
    ensures
        ids.contains(ids[pos]),
        ids.index_of(ids[pos]) == pos,
{
    let k = ids.index_of(ids[pos]);
    assert(ids[k] == ids[pos]);
    assert(id_ranks(ids)[k] == id_ranks(ids)[pos]);
    crate::order::lemma_increasing_distinct(id_ranks(ids), k, pos);
}

/// In a state whose identifiers stand in order, every element stands under
/// the head or an earlier element exactly if every parent stands at an
/// earlier position.
pub proof fn lemma_rooted_positions<V>(s: RgaState<V>)
    requires
        canonical(s),
    ensures
        rooted(s.nodes) <==> forall|j: int|
            0 <= j < s.ids.len() ==> -1 <= #[trigger] parent_index(s, j) < j,
{
    let ranks = id_ranks(s.ids);
    if rooted(s.nodes) {
        assert forall|j: int| 0 <= j < s.ids.len() implies -1 <= #[trigger] parent_index(s, j)
            < j by {
            let t = s.ids[j];
            assert(s.ids.contains(t));
            if s.nodes[t].parent is Some {
                let p = s.nodes[t].parent->Some_0;
                assert(s.ids.contains(p));
                let i = s.ids.index_of(p);
                assert(s.ids[i] == p);
                lemma_tag_order(p, t);
                assert(ranks[i] == Tag::rank(p));
                assert(ranks[j] == Tag::rank(t));
                if i == j {
                    crate::order::lemma_lex_irreflexive(ranks[i]);
                } else if i > j {
                    crate::order::lemma_lex_asymmetric(ranks[j], ranks[i]);
                }
            }
        }
    }
    if forall|j: int| 0 <= j < s.ids.len() ==> -1 <= #[trigger] parent_index(s, j) < j {
        assert forall|t: TagView| s.nodes.dom().contains(t) implies match (#[trigger] s.nodes[
            t
        ]).parent {
            None => true,
            Some(p) => s.nodes.dom().contains(p) && tag_less(p, t),
        } by {
            assert(s.ids.contains(t));
            let j = choose|j: int| 0 <= j < s.ids.len() && s.ids[j] == t;
            assert(-1 <= parent_index(s, j) < j);
            if s.nodes[t].parent is Some {
                let p = s.nodes[t].parent->Some_0;
                let i = s.ids.index_of(p);
                assert(s.ids.contains(p));
                assert(s.ids[i] == p);
                assert(ranks[i] == Tag::rank(p));
                assert(ranks[j] == Tag::rank(t));
                lemma_tag_order(p, t);
            }
        }
    }
}

/// An element as it is stored: its value and the identifier of its parent.
#[derive(Debug, Clone, PartialEq, Eq)]
pub struct RgaNode<T: Element> {
    value: T,
    parent: Option<Tag>,
}

impl<T: Element> View for RgaNode<T> {
    type V = NodeView<T::V>;

    closed spec fn view(&self) -> NodeView<T::V> {
        NodeView {
            value: self.value@,
            parent: match self.parent {
                Some(t) => Some(t@),
                None => None,
            },
        }
    }
}

impl<T: Element> RgaNode<T> {
    /// Returns a copy of the element.
    fn replicate(&self) -> (r: Self)
        ensures
            r@ == self@,
    {
        RgaNode {
            value: self.value.replicate(),
            parent: match &self.parent {
                Some(t) => Some(t.replicate()),
                None => None,
            },
        }
    }
}

/// An element as plain data: its identifier, its value and the identifier
/// of its parent.
pub type PlainNode<T> = (Pair, T, Option<Pair>);

/// The identifier of a plain element.
pub open spec fn plain_id<T: Element>(n: PlainNode<T>) -> TagView {
    (n.0.0@, n.0.1)
}

/// The element that plain data gives.
pub open spec fn plain_node<T: Element>(n: PlainNode<T>) -> NodeView<T::V> {
    NodeView {
        value: n.1@,
        parent: match n.2 {
            Some(p) => Some((p.0@, p.1)),
            None => None,
        },
    }
}

/// The elements that a list of plain data gives: for each identifier the
/// last element of the list with it.
pub open spec fn plain_nodes<T: Element>(items: Seq<PlainNode<T>>) -> Map<TagView, NodeView<T::V>>
    decreases items.len(),
{
    if items.len() == 0 {
        Map::empty()
    } else {
        plain_nodes(items.drop_last()).insert(plain_id(items.last()), plain_node(items.last()))
    }
}

/// Plain data gives an array: no element is numbered above the counter,
/// every element stands under the head or under an element with an earlier
/// identifier, and every tombstone is the identifier of an element.
pub open spec fn plain_numbered<T: Element>(
    counter: u64,
    nodes: Seq<PlainNode<T>>,
    tombstones: Seq<Pair>,
) -> bool {
    &&& forall|i: int| 0 <= i < nodes.len() ==> (#[trigger] nodes[i]).0.1 <= counter
    &&& rooted(plain_nodes(nodes))
    &&& forall|j: int|
        0 <= j < tombstones.len() ==> plain_nodes(nodes).dom().contains(
            #[trigger] pair_views(tombstones)[j],
        )
}

/// The stored elements as a map of their views.
pub open spec fn node_views<T: Element>(m: Map<TagView, RgaNode<T>>) -> Map<TagView, NodeView<T::V>> {
    Map::new(|t: TagView| m.dom().contains(t), |t: TagView| m[t]@)
}

/// Positions as integers.
pub open spec fn as_ints(v: Seq<usize>) -> Seq<int> {
    v.map_values(|x: usize| x as int)
}

/// What the frames of a traversal still have to give, the last frame first.
/// A frame holds the position of a parent plus one and the position below
/// which its children are still to be visited.
pub open spec fn pending<V>(s: RgaState<V>, stack: Seq<(usize, usize)>) -> Seq<int>
    decreases stack.len(),
{
    if stack.len() == 0 {
        Seq::empty()
    } else {
        walk(s, stack.last().0 - 1, stack.last().1 - 1) + pending(s, stack.drop_last())
    }
}

/// What one more frame adds to what is pending.
pub proof fn lemma_pending_push<V>(s: RgaState<V>, stack: Seq<(usize, usize)>, f: (usize, usize))
    ensures
        pending(s, stack.push(f)) == walk(s, f.0 - 1, f.1 - 1) + pending(s, stack),
{
    assert(stack.push(f).drop_last() =~= stack);
    assert(stack.push(f).last() == f);
}

/// A replicated growable array.
#[derive(Debug, Clone, PartialEq, Eq)]
pub struct Rga<T: Element> {
    actor: String,
    counter: u64,
    nodes: SortedMap<Tag, RgaNode<T>>,
    tombstones: TagSet,
    sequence: Vec<usize>,
}

impl<T: Element> View for Rga<T> {
    type V = RgaState<T::V>;

    closed spec fn view(&self) -> RgaState<T::V> {
        RgaState {
            ids: self.nodes.key_views(),
            nodes: Map::new(|t: TagView| self.nodes.has(t), |t: TagView| self.nodes.value_of(t)@),
            tombstones: self.tombstones.key_set(),
            counter: self.counter,
        }
    }
}

impl<T: Element> Rga<T> {
    /// Elements and tombstones stand in increasing order of identifier.
    pub closed spec fn parts_wf(&self) -> bool {
        self.nodes.wf() && self.tombstones.wf()
    }

    /// The parts are well formed, every element stands under the head or an
    /// earlier element, and the cached order is the traversal of the
    /// elements.
    pub closed spec fn wf(&self) -> bool {
        &&& self.parts_wf()
        &&& numbered(self@)
        &&& rooted(self@.nodes)
        &&& as_ints(self.sequence@) == linear(self@)
    }

    /// The replica that holds this array.
    pub closed spec fn spec_actor(&self) -> Seq<char> {
        self.actor@
    }

    /// The identifiers of a well-formed array are those of its elements, in
    /// strictly increasing order.
    pub proof fn lemma_wf_canonical(&self)
        requires
            self.wf(),
        ensures
            canonical(self@),
    {
        self.lemma_canonical();
    }

    /// In a well-formed array no identifier is numbered above the counter,
    /// every tombstone is the identifier of an element, and every element
    /// stands under the head or under an earlier element.
    pub proof fn lemma_wf_numbered(&self)
        requires
            self.wf(),
        ensures
            numbered(self@),
            rooted(self@.nodes),
            forall|j: int|
                0 <= j < self@.ids.len() ==> -1 <= #[trigger] parent_index(self@, j) < j,
    {
        self.lemma_canonical();
        lemma_rooted_positions(self@);
    }

    /// The order of a well-formed array holds every element exactly once.
    pub proof fn lemma_wf_complete(&self)
        requires
            self.wf(),
        ensures
            linear(self@).no_duplicates(),
            linear(self@).len() == self@.ids.len(),
            forall|j: int| 0 <= j < self@.ids.len() ==> linear(self@).contains(j),
    {
        self.lemma_wf_numbered();
        crate::rga_order::lemma_linear_complete(self@);
    }

    /// The identifiers are those of the elements, in strictly increasing
    /// order, once the parts are well formed.
    proof fn lemma_canonical(&self)
        requires
            self.parts_wf(),
        ensures
            canonical(self@),
    {
        assert(id_ranks(self@.ids) =~= self.nodes.ranks());
        assert forall|t: TagView| self@.nodes.dom().contains(t) <==> self@.ids.contains(t) by {
            if self.nodes.has(t) {
                let i = self.nodes.index_of(t);
                assert(self@.ids[i] == t);
            }
            if self@.ids.contains(t) {
                let i = choose|i: int| 0 <= i < self@.ids.len() && self@.ids[i] == t;
                assert(self.nodes.keys@[i]@ == t);
            }
        }
    }

    /// What the stored element at a position is in the state.
    proof fn lemma_node_at(&self, j: int)
        requires
            self.parts_wf(),
            0 <= j < self.nodes.keys@.len(),
        ensures
            self@.ids[j] == self.nodes.keys@[j]@,
            self@.nodes.dom().contains(self@.ids[j]),
            self@.nodes[self@.ids[j]] == self.nodes.vals@[j]@,
    {
        self.nodes.lemma_position(j);
    }

    /// For each element the position of its parent plus one: zero for the
    /// head, nothing where the parent is not an element.
    fn parent_codes(&self) -> (codes: Vec<Option<usize>>)
        requires
            self.parts_wf(),
        ensures
            codes@.len() == self.nodes.keys@.len(),
            forall|j: int|
                0 <= j < codes@.len() ==> match #[trigger] codes@[j] {
                    Some(c) => c as int == parent_index(self@, j) + 1,
                    None => parent_index(self@, j) == -2,
                },
    {
        let mut codes: Vec<Option<usize>> = Vec::new();
        let mut j: usize = 0;
        proof {
            self.lemma_canonical();
        }
        while j < self.nodes.len()
            invariant
                self.parts_wf(),
                canonical(self@),
                j <= self.nodes.keys@.len(),
                codes@.len() == j,
                forall|k: int|
                    0 <= k < j ==> match #[trigger] codes@[k] {
                        Some(c) => c as int == parent_index(self@, k) + 1,
                        None => parent_index(self@, k) == -2,
                    },
            decreases self.nodes.keys@.len() - j,
        {
            proof {
                self.lemma_node_at(j as int);
            }
            let node = self.nodes.value_at(j);
            let code = match &node.parent {
                None => Some(0),
                Some(t) => {
                    let (pos, found) = self.nodes.search(t);
                    if found {
                        proof {
                            lemma_index_unique(self@.ids, pos as int);
                        }
                        Some(pos + 1)
                    } else {
                        proof {
                            if self@.ids.contains(t@) {
                                let i = choose|i: int|
                                    0 <= i < self@.ids.len() && self@.ids[i] == t@;
                                assert(self.nodes.keys@[i]@ == t@);
                            }
                        }
                        None
                    }
                },
            };
            codes.push(code);
            j += 1;
        }
        codes
    }

    /// For each parent the last of its children, and for each child the
    /// child of the same parent before it, as positions plus one; zero where
    /// there is none.
    fn child_lists(&self) -> (lists: (Vec<usize>, Vec<usize>))
        requires
            self.parts_wf(),
        ensures
            lists.0@.len() == self.nodes.keys@.len() + 1,
            lists.1@.len() == self.nodes.keys@.len(),
            forall|pc: int|
                0 <= pc < lists.0@.len() ==> (#[trigger] lists.0@[pc]) as int == last_child(
                    self@,
                    pc - 1,
                    self.nodes.keys@.len() - 1,
                ) + 1,
            forall|k: int|
                0 <= k < lists.1@.len() && -1 <= parent_index(self@, k) < k ==> (
                #[trigger] lists.1@[k]) as int == last_child(self@, parent_index(self@, k), k - 1)
                    + 1,
    {
        let codes = self.parent_codes();
        let n = self.nodes.len();
        let ghost s = self@;
        let mut first: Vec<usize> = Vec::new();
        let mut fill: usize = 0;
        while fill < n
            invariant
                fill <= n,
                first@.len() == fill,
                forall|pc: int| 0 <= pc < fill ==> #[trigger] first@[pc] == 0,
            decreases n - fill,
        {
            first.push(0);
            fill += 1;
        }
        first.push(0);
        let mut next: Vec<usize> = Vec::new();
        let mut j: usize = 0;
        while j < n
            invariant
                s.ids.len() == n,
                codes@.len() == n,
                forall|k: int|
                    0 <= k < codes@.len() ==> match #[trigger] codes@[k] {
                        Some(c) => c as int == parent_index(s, k) + 1,
                        None => parent_index(s, k) == -2,
                    },
                j <= n,
                first@.len() == n + 1,
                next@.len() == j,
                forall|pc: int|
                    0 <= pc <= n ==> (#[trigger] first@[pc]) as int == last_child(s, pc - 1, j - 1)
                        + 1,
                forall|k: int|
                    0 <= k < j && -1 <= parent_index(s, k) < k ==> (#[trigger] next@[k]) as int
                        == last_child(s, parent_index(s, k), k - 1) + 1,
            decreases n - j,
        {
            let ghost before = first@;
            let proper = match codes[j] {
                Some(pc) => if pc <= j {
                    Some(pc)
                } else {
                    None
                },
                None => None,
            };
            assert(proper is Some == (-1 <= parent_index(s, j as int) < j));
            match proper {
                Some(pc) => {
                    next.push(first[pc]);
                    first.set(pc, j + 1);
                },
                None => {
                    next.push(0);
                },
            }
            proof {
                assert forall|pc: int| 0 <= pc <= n implies (#[trigger] first@[pc]) as int
                    == last_child(s, pc - 1, j as int) + 1 by {
                    assert(before[pc] as int == last_child(s, pc - 1, j - 1) + 1);
                    if proper == Some(pc as usize) {
                    } else {
                        assert(first@[pc] == before[pc]);
                        assert(parent_index(s, j as int) != pc - 1 || j <= pc - 1);
                    }
                }
            }
            j += 1;
        }
        (first, next)
    }

    /// Computes the order of the sequence from the elements: the children of
    /// the head, larger identifiers first, each followed by its descendants
    /// in the same manner.
    fn rebuild_sequence(&mut self)
        requires
            old(self).parts_wf(),
            numbered(old(self)@),
            rooted(old(self)@.nodes),
        ensures
            final(self).wf(),
            final(self)@ == old(self)@,
            final(self).spec_actor() == old(self).spec_actor(),
    {
        let (first, next) = self.child_lists();
        let n = self.nodes.len();
        let ghost s = self@;
        let mut out: Vec<usize> = Vec::new();
        let mut stack: Vec<(usize, usize)> = Vec::new();
        stack.push((0, first[0]));
        proof {
            lemma_pending_push(s, Seq::empty(), (0usize, first@[0]));
            assert(Seq::<(usize, usize)>::empty().push((0usize, first@[0])) =~= stack@);
            lemma_walk_from_child(s, -1, n - 1);
            assert(as_ints(out@) + pending(s, stack@) =~= linear(s));
        }
        while stack.len() > 0
            invariant
                s.ids.len() == n,
                first@.len() == n + 1,
                next@.len() == n,
                forall|pc: int|
                    0 <= pc <= n ==> (#[trigger] first@[pc]) as int == last_child(s, pc - 1, n - 1)
                        + 1,
                forall|k: int|
                    0 <= k < n && -1 <= parent_index(s, k) < k ==> (#[trigger] next@[k]) as int
                        == last_child(s, parent_index(s, k), k - 1) + 1,
                forall|k: int|
                    0 <= k < stack@.len() ==> (#[trigger] stack@[k]).0 <= n && stack@[k].1 <= n
                        && last_child(s, stack@[k].0 - 1, stack@[k].1 - 1) == stack@[k].1 - 1,
                as_ints(out@) + pending(s, stack@) == linear(s),
            decreases 2 * pending(s, stack@).len() + stack@.len(),
        {
            let ghost before = stack@;
            let ghost done = as_ints(out@);
            let (pc, up) = stack.pop().unwrap();
            let ghost rest = stack@;
            proof {
                assert(rest =~= before.drop_last());
                assert(before.last() == (pc, up));
                assert(before[before.len() - 1].0 <= n);
                lemma_walk_from_child(s, pc - 1, up - 1);
            }
            if up > 0 {
                let c = up - 1;
                proof {
                    lemma_walk_from_child(s, c as int, n - 1);
                    lemma_walk_from_child(s, pc - 1, c - 1);
                    if first@[c + 1] > 0 {
                        lemma_walk_from_child(s, c as int, first@[c + 1] - 1);
                    }
                    if next@[c as int] > 0 {
                        lemma_walk_from_child(s, pc - 1, next@[c as int] - 1);
                    }
                }
                out.push(c);
                stack.push((pc, next[c]));
                proof {
                    lemma_pending_push(s, rest, (pc, next@[c as int]));
                }
                let ghost middle = stack@;
                stack.push((c + 1, first[c + 1]));
                proof {
                    lemma_pending_push(s, middle, ((c + 1) as usize, first@[c + 1]));
                    assert(as_ints(out@) =~= done + seq![c as int]);
                    assert(as_ints(out@) + pending(s, stack@) =~= done + pending(s, before));
                    assert(pending(s, before).len() == 1 + pending(s, stack@).len());
                }
            } else {
                assert(pending(s, before) =~= pending(s, rest));
            }
        }
        proof {
            assert(pending(s, stack@) =~= Seq::<int>::empty());
            assert(as_ints(out@) =~= linear(s));
        }
        self.sequence = out;
    }

    /// Creates an empty array for the replica `actor`.
    pub fn new(actor: &str) -> (r: Self)
        ensures
            r.wf(),
            r.spec_actor() == actor@,
            r@.ids.len() == 0,
            r@.nodes == Map::<TagView, NodeView<T::V>>::empty(),
            r@.tombstones == Set::<TagView>::empty(),
            r@.counter == 0,
            visible_values(r@).len() == 0,
    {
        let r = Self {
            actor: actor.to_owned(),
            counter: 0,
            nodes: SortedMap::new(),
            tombstones: SortedMap::new(),
            sequence: Vec::new(),
        };
        proof {
            assert(r@.nodes =~= Map::<TagView, NodeView<T::V>>::empty());
            assert(r@.tombstones =~= Set::<TagView>::empty());
            assert(numbered(r@));
            assert(as_ints(r.sequence@) =~= linear(r@));
        }
        r
    }

    /// The counter that numbers new elements.
    pub fn counter(&self) -> (c: u64)
        ensures
            c == self@.counter,
    {
        self.counter
    }

    /// The elements as plain data, tombstones included, in increasing order
    /// of identifier.
    pub fn nodes(&self) -> (out: Vec<PlainNode<T>>)
        requires
            self.wf(),
        ensures
            plain_nodes(out@) == self@.nodes,
    {
        let mut out: Vec<PlainNode<T>> = Vec::new();
        let mut i: usize = 0;
        proof {
            self.nodes.lemma_prefix(0);
            assert(plain_nodes(out@) =~= node_views(self.nodes.prefix_map(0)));
        }
        while i < self.nodes.len()
            invariant
                self.parts_wf(),
                i <= self.nodes.keys@.len(),
                plain_nodes(out@) == node_views(self.nodes.prefix_map(i as int)),
            decreases self.nodes.keys@.len() - i,
        {
            proof {
                self.nodes.lemma_prefix(i as int);
            }
            let id = self.nodes.key_at(i);
            let node = self.nodes.value_at(i);
            let parent = match &node.parent {
                Some(p) => Some((p.actor.clone(), p.counter)),
                None => None,
            };
            let ghost before = out@;
            out.push(((id.actor.clone(), id.counter), node.value.replicate(), parent));
            proof {
                assert(out@.drop_last() =~= before);
                assert(plain_id(out@.last()) == id@);
                assert(plain_node(out@.last()) == node@);
                assert(plain_nodes(out@) =~= node_views(self.nodes.prefix_map(i + 1)));
            }
            i += 1;
        }
        proof {
            self.nodes.lemma_prefix(i as int);
            assert(node_views(self.nodes.as_map()) =~= self@.nodes);
        }
        out
    }

    /// The tombstones as plain pairs.
    pub fn tombstones(&self) -> (out: Vec<Pair>)
        requires
            self.wf(),
        ensures
            pair_views(out@).to_set() == self@.tombstones,
    {
        tags_to_pairs(&self.tombstones)
    }

    /// The array of the replica `actor` with the counter, the elements and
    /// the tombstones that plain data gives; nothing where an element is
    /// numbered above the counter, stands under an element that is missing
    /// or has no earlier identifier, or a tombstone names no element.
    pub fn from_parts(actor: &str, counter: u64, nodes: &Vec<PlainNode<T>>, tombstones: &Vec<Pair>)
        -> (r: Option<Self>)
        ensures
            r is Some <==> plain_numbered(counter, nodes@, tombstones@),
            r matches Some(a) ==> a.wf() && a.spec_actor() == actor@ && a@.counter == counter
                && a@.nodes == plain_nodes(nodes@) && a@.tombstones == pair_views(
                tombstones@,
            ).to_set(),
    {
        let mut map: SortedMap<Tag, RgaNode<T>> = SortedMap::new();
        let mut i: usize = 0;
        assert(node_views(map.as_map()) =~= plain_nodes(nodes@.take(0)));
        while i < nodes.len()
            invariant
                map.wf(),
                i <= nodes@.len(),
                node_views(map.as_map()) == plain_nodes(nodes@.take(i as int)),
                forall|k: int| 0 <= k < i ==> (#[trigger] nodes@[k]).0.1 <= counter,
                forall|t: TagView| map.has(t) ==> t.1 <= counter,
            decreases nodes@.len() - i,
        {
            let item = &nodes[i];
            if item.0.1 > counter {
                return None;
            }
            let id = Tag { actor: item.0.0.clone(), counter: item.0.1 };
            let parent = match &item.2 {
                Some(p) => Some(Tag { actor: p.0.clone(), counter: p.1 }),
                None => None,
            };
            let node = RgaNode { value: item.1.replicate(), parent };
            let ghost before = map;
            proof {
                let next = nodes@.take(i + 1);
                assert(next.drop_last() =~= nodes@.take(i as int));
                assert(next.last() == nodes@[i as int]);
                assert(plain_id(nodes@[i as int]) == id@);
                assert(plain_node(nodes@[i as int]) == node@);
            }
            map.insert(id, node);
            proof {
                assert(node_views(map.as_map()) =~= node_views(before.as_map()).insert(
                    plain_id(nodes@[i as int]),
                    plain_node(nodes@[i as int]),
                ));
            }
            i += 1;
        }
        assert(nodes@.take(i as int) =~= nodes@);
        let dead = tags_from_pairs(tombstones);
        let mut j: usize = 0;
        while j < tombstones.len()
            invariant
                map.wf(),
                j <= tombstones@.len(),
                node_views(map.as_map()) == plain_nodes(nodes@),
                forall|k: int|
                    0 <= k < j ==> plain_nodes(nodes@).dom().contains(
                        #[trigger] pair_views(tombstones@)[k],
                    ),
            decreases tombstones@.len() - j,
        {
            let t = Tag { actor: tombstones[j].0.clone(), counter: tombstones[j].1 };
            assert(t@ == pair_views(tombstones@)[j as int]);
            let known = map.contains_key(&t);
            assert(known == node_views(map.as_map()).dom().contains(t@));
            if !known {
                return None;
            }
            j += 1;
        }
        let mut r = Self {
            actor: actor.to_owned(),
            counter,
            nodes: map,
            tombstones: dead,
            sequence: Vec::new(),
        };
        proof {
            assert(r@.nodes =~= plain_nodes(nodes@)) by {
                assert(node_views(map.as_map()) =~= r@.nodes);
            }
            assert(numbered(r@)) by {
                assert forall|k: int| 0 <= k < r@.ids.len() implies (#[trigger] r@.ids[k]).1
                    <= r@.counter by {
                    assert(map.keys@[k]@ == r@.ids[k]);
                    assert(map.has(r@.ids[k]));
                }
                assert forall|t: TagView| r@.tombstones.contains(t) implies r@.ids.contains(t) by {
                    assert(pair_views(tombstones@).contains(t));
                    let k = choose|k: int|
                        0 <= k < pair_views(tombstones@).len() && pair_views(tombstones@)[k] == t;
                    assert(plain_nodes(nodes@).dom().contains(pair_views(tombstones@)[k]));
                    assert(map.has(t));
                    let m = map.index_of(t);
                    assert(r@.ids[m] == t);
                }
            }
        }
        let codes = r.parent_codes();
        proof {
            r.lemma_canonical();
            lemma_rooted_positions(r@);
        }
        let mut k: usize = 0;
        while k < codes.len()
            invariant
                k <= codes@.len(),
                codes@.len() == r@.ids.len(),
                forall|j: int|
                    0 <= j < codes@.len() ==> match #[trigger] codes@[j] {
                        Some(c) => c as int == parent_index(r@, j) + 1,
                        None => parent_index(r@, j) == -2,
                    },
                forall|j: int| 0 <= j < k ==> -1 <= #[trigger] parent_index(r@, j) < j,
                r@.nodes == plain_nodes(nodes@),
                rooted(r@.nodes) ==> forall|j: int|
                    0 <= j < r@.ids.len() ==> -1 <= #[trigger] parent_index(r@, j) < j,
                (forall|j: int| 0 <= j < r@.ids.len() ==> -1 <= #[trigger] parent_index(r@, j) < j)
                    ==> rooted(r@.nodes),
            decreases codes@.len() - k,
        {
            let under = match codes[k] {
                Some(c) => c <= k,
                None => false,
            };
            if !under {
                assert(!(-1 <= parent_index(r@, k as int) < k));
                return None;
            }
            k += 1;
        }
        r.rebuild_sequence();
        Some(r)
    }

    /// Creates a copy of this array that another replica holds.
    pub fn fork(&self, new_actor: &str) -> (r: Self)
        requires
            self.wf(),
        ensures
            r.wf(),
            r.spec_actor() == new_actor@,
            merged_of(Rga::<T>::empty_state(), self@, r@),
            visible_values(r@) == visible_values(self@),
    {
        let mut r = Self::new(new_actor);
        r.merge(self);
        proof {
            r.lemma_wf_canonical();
            self.lemma_wf_canonical();
            assert(r@.nodes =~= self@.nodes);
            assert(r@.tombstones =~= self@.tombstones);
            lemma_convergence(r@, self@);
        }
        r
    }

    /// The state of an array without elements.
    pub open spec fn empty_state() -> RgaState<T::V> {
        RgaState {
            ids: Seq::empty(),
            nodes: Map::empty(),
            tombstones: Set::empty(),
            counter: 0,
        }
    }

    /// The positions of the visible elements in the order of the sequence.
    fn visible_sequence(&self) -> (out: Vec<usize>)
        requires
            self.wf(),
        ensures
            as_ints(out@) == visible(self@),
            positions(visible(self@), self.nodes.keys@.len() as int),
    {
        let ghost s = self@;
        let ghost order = linear(s);
        let mut out: Vec<usize> = Vec::new();
        let mut i: usize = 0;
        proof {
            lemma_walk_bounds(s, -1, s.ids.len() - 1);
            assert(order.take(0) =~= Seq::<int>::empty());
            assert(as_ints(out@) =~= visible_of(s, order.take(0)));
        }
        while i < self.sequence.len()
            invariant
                self.wf(),
                s == self@,
                order == linear(s),
                order == as_ints(self.sequence@),
                positions(order, s.ids.len() as int),
                i <= self.sequence@.len(),
                as_ints(out@) == visible_of(s, order.take(i as int)),
            decreases self.sequence@.len() - i,
        {
            let idx = self.sequence[i];
            proof {
                assert(order[i as int] == idx as int);
                let next = order.take(i + 1);
                assert(next.drop_last() =~= order.take(i as int));
                assert(next.last() == idx as int);
            }
            let id = self.nodes.key_at(idx);
            let gone = self.tombstones.contains_key(id);
            proof {
                assert(s.ids[idx as int] == id@);
                assert(gone == s.tombstones.contains(id@)) by {
                    assert(self.tombstones.key_set().contains(id@) <==> self.tombstones.has(id@));
                }
            }
            if !gone {
                let ghost before = out@;
                out.push(idx);
                assert(as_ints(out@) =~= as_ints(before).push(idx as int));
            }
            i += 1;
        }
        proof {
            assert(order.take(i as int) =~= order);
            lemma_visible_bounds(s, order);
        }
        out
    }

    /// The element at position `index` of the sequence, if there is one.
    pub fn get(&self, index: usize) -> (r: Option<&T>)
        requires
            self.wf(),
        ensures
            r is Some <==> index < visible_values(self@).len(),
            r matches Some(v) ==> v@ == visible_values(self@)[index as int],
    {
        let shown = self.visible_sequence();
        if index < shown.len() {
            let idx = shown[index];
            proof {
                assert(visible(self@)[index as int] == idx as int);
                self.lemma_node_at(idx as int);
            }
            Some(&self.nodes.value_at(idx).value)
        } else {
            None
        }
    }

    /// The number of elements of the sequence.
    pub fn len(&self) -> (n: usize)
        requires
            self.wf(),
        ensures
            n == visible_values(self@).len(),
    {
        self.visible_sequence().len()
    }

    /// Whether the sequence is empty.
    pub fn is_empty(&self) -> (b: bool)
        requires
            self.wf(),
        ensures
            b == (visible_values(self@).len() == 0),
    {
        self.len() == 0
    }

    /// The elements of the sequence in order.
    pub fn iter(&self) -> (items: Vec<&T>)
        requires
            self.wf(),
        ensures
            crate::gset::ref_views::<T>(items@) == visible_values(self@),
    {
        let shown = self.visible_sequence();
        let mut items: Vec<&T> = Vec::new();
        let mut i: usize = 0;
        while i < shown.len()
            invariant
                self.wf(),
                as_ints(shown@) == visible(self@),
                positions(visible(self@), self.nodes.keys@.len() as int),
                i <= shown@.len(),
                items@.len() == i,
                forall|k: int| 0 <= k < i ==> (#[trigger] items@[k])@ == visible_values(self@)[k],
            decreases shown@.len() - i,
        {
            let idx = shown[i];
            proof {
                assert(visible(self@)[i as int] == idx as int);
                self.lemma_node_at(idx as int);
            }
            items.push(&self.nodes.value_at(idx).value);
            i += 1;
        }
        assert(crate::gset::ref_views::<T>(items@) =~= visible_values(self@));
        items
    }

    /// The replica that holds this array.
    pub fn actor(&self) -> (a: &str)
        ensures
            a@ == self.spec_actor(),
    {
        self.actor.as_str()
    }

    /// Copies of the elements of the sequence in order.
    pub fn to_vec(&self) -> (items: Vec<T>)
        requires
            self.wf(),
        ensures
            items@.map_values(|t: T| t@) == visible_values(self@),
    {
        let shown = self.visible_sequence();
        let mut items: Vec<T> = Vec::new();
        let mut i: usize = 0;
        while i < shown.len()
            invariant
                self.wf(),
                as_ints(shown@) == visible(self@),
                positions(visible(self@), self.nodes.keys@.len() as int),
                i <= shown@.len(),
                items@.len() == i,
                forall|k: int| 0 <= k < i ==> (#[trigger] items@[k])@ == visible_values(self@)[k],
            decreases shown@.len() - i,
        {
            let idx = shown[i];
            proof {
                assert(visible(self@)[i as int] == idx as int);
                self.lemma_node_at(idx as int);
            }
            items.push(self.nodes.value_at(idx).value.replicate());
            i += 1;
        }
        assert(items@.map_values(|t: T| t@) =~= visible_values(self@));
        items
    }

    /// Inserts `value` at position `index` of the sequence: as a new element
    /// after the element at `index - 1`, or after the head for index zero,
    /// under the identifier of this replica with its counter raised by one.
    pub fn insert_at(&mut self, index: usize, value: T)
        requires
            old(self).wf(),
            index <= visible_values(old(self)@).len(),
            old(self)@.counter < u64::MAX,
        ensures
            final(self).wf(),
            final(self).spec_actor() == old(self).spec_actor(),
            final(self)@.counter == old(self)@.counter + 1,
            final(self)@.tombstones == old(self)@.tombstones,
            final(self)@.nodes == old(self)@.nodes.insert(
                (old(self).spec_actor(), (old(self)@.counter + 1) as u64),
                NodeView {
                    value: value@,
                    parent: if index == 0 {
                        None
                    } else {
                        Some(old(self)@.ids[visible(old(self)@)[index - 1]])
                    },
                },
            ),
            final(self)@.ids == old(self)@.ids.push(
                (old(self).spec_actor(), (old(self)@.counter + 1) as u64),
            ),
            visible(final(self)@) == visible(old(self)@).insert(
                index as int,
                old(self)@.ids.len() as int,
            ),
            visible_values(final(self)@) == visible_values(old(self)@).insert(index as int, value@),
    {
        let shown = self.visible_sequence();
        let ghost s = self@;
        let ghost n = s.ids.len() as int;
        let ghost q: int = if index == 0 {
            -1
        } else {
            visible(s)[index - 1]
        };
        let parent = if index == 0 {
            None
        } else {
            let idx = shown[index - 1];
            assert(visible(self@)[index - 1] == idx as int);
            Some(self.nodes.key_at(idx).replicate())
        };
        self.counter = self.counter + 1;
        let id = Tag::new(self.actor.as_str(), self.counter);
        let node = RgaNode { value, parent };
        let ghost before = self.nodes;
        let ghost id_view = id@;
        let ghost node_view = node@;
        let (pos, found) = self.nodes.search(&id);
        proof {
            self.lemma_canonical();
            assert forall|i: int| 0 <= i < n implies crate::order::lex_less(
                #[trigger] before.ranks()[i],
                Tag::rank(id_view),
            ) by {
                assert(s.ids[i].1 <= s.counter);
                assert(before.ranks()[i] == Tag::rank(s.ids[i]));
                crate::tag::lemma_tag_order(s.ids[i], id_view);
            }
            if found {
                assert(before.ranks()[pos as int] == Tag::rank(id_view));
                crate::order::lemma_lex_irreflexive(Tag::rank(id_view));
            }
            if pos < n {
                assert(before.keys@[pos as int]@ != id_view);
                crate::order::lemma_lex_asymmetric(before.ranks()[pos as int], Tag::rank(id_view));
            }
            assert(!s.tombstones.contains(id_view)) by {
                if s.tombstones.contains(id_view) {
                    assert(s.ids.contains(id_view));
                    let i = choose|i: int| 0 <= i < s.ids.len() && s.ids[i] == id_view;
                    assert(before.keys@[i]@ == id_view);
                }
            }
        }
        self.nodes.insert_at(pos, id, node);
        proof {
            assert forall|t: TagView| self.nodes.has(t) && t != id_view implies self.nodes.value_of(
                t,
            ) == before.value_of(t) by {
                assert(self.nodes.as_map()[t] == before.as_map()[t]);
            }
            assert(self.nodes.as_map()[id_view] == self.nodes.value_of(id_view));
            assert(self@.nodes =~= s.nodes.insert(id_view, node_view));
            assert(self@.ids =~= s.ids.push(id_view));
            assert(numbered(self@)) by {
                assert forall|i: int| 0 <= i < self@.ids.len() implies (#[trigger] self@.ids[i]).1
                    <= self@.counter by {
                    if i < n {
                        assert(self@.ids[i] == s.ids[i]);
                    }
                }
                assert forall|t: TagView| self@.tombstones.contains(t) implies self@.ids.contains(
                    t,
                ) by {
                    assert(s.ids.contains(t));
                    let i = choose|i: int| 0 <= i < s.ids.len() && s.ids[i] == t;
                    assert(self@.ids[i] == t);
                }
            }
            self.lemma_canonical();
            if index > 0 {
                assert(positions(visible(s), n));
                assert(0 <= q < n);
                old(self).lemma_node_at(q);
            }
            assert(crate::rga_order::grown(s, self@, id_view, node_view, q));
            crate::rga_order::lemma_insert_visible(s, self@, id_view, node_view, index as int);
        }
        self.rebuild_sequence();
    }

    /// Removes the element at position `index` of the sequence: its
    /// identifier becomes a tombstone. Returns the value, or nothing where
    /// the sequence has no such position.
    pub fn remove(&mut self, index: usize) -> (r: Option<T>)
        requires
            old(self).wf(),
        ensures
            final(self).wf(),
            final(self).spec_actor() == old(self).spec_actor(),
            final(self)@.counter == old(self)@.counter,
            final(self)@.nodes == old(self)@.nodes,
            final(self)@.ids == old(self)@.ids,
            r is Some <==> index < visible_values(old(self)@).len(),
            r is None ==> final(self)@ == old(self)@,
            r matches Some(v) ==> v@ == visible_values(old(self)@)[index as int],
            r is Some ==> final(self)@.tombstones == old(self)@.tombstones.insert(
                old(self)@.ids[visible(old(self)@)[index as int]],
            ),
            r is Some ==> visible_values(final(self)@) == visible_values(old(self)@).remove(
                index as int,
            ),
    {
        let shown = self.visible_sequence();
        if index >= shown.len() {
            return None;
        }
        let idx = shown[index];
        proof {
            assert(visible(self@)[index as int] == idx as int);
            self.lemma_node_at(idx as int);
        }
        let id = self.nodes.key_at(idx).replicate();
        let value = self.nodes.value_at(idx).value.replicate();
        let ghost id_view = id@;
        self.tombstones.insert(id, ());
        proof {
            assert(self@.tombstones =~= old(self)@.tombstones.insert(id_view)) by {
                assert forall|t: TagView|
                    self.tombstones.key_set().contains(t) <==> old(self).tombstones.key_set().insert(
                        id_view,
                    ).contains(t) by {
                    assert(self.tombstones.has(t) <==> old(self).tombstones.has(t) || t == id_view);
                }
            }
            assert(self@.nodes == old(self)@.nodes);
            lemma_walk_same(self@, old(self)@, -1, self@.ids.len() - 1);
            old(self).lemma_canonical();
            crate::rga_order::lemma_remove_visible(old(self)@, self@, index as int);
            assert(numbered(self@)) by {
                assert forall|t: TagView| self@.tombstones.contains(t) implies self@.ids.contains(
                    t,
                ) by {
                    if t == id_view {
                        assert(self@.ids[idx as int] == t);
                    }
                }
            }
        }
        Some(value)
    }
}

/// The elements of two replicas together; where both hold an identifier, the
/// element of the first.
pub open spec fn join_nodes<V>(a: Map<TagView, NodeView<V>>, b: Map<TagView, NodeView<V>>) -> Map<
    TagView,
    NodeView<V>,
> {
    Map::new(
        |t: TagView| a.dom().contains(t) || b.dom().contains(t),
        |t: TagView|
            if a.dom().contains(t) {
                a[t]
            } else {
                b[t]
            },
    )
}

/// `r` is the state of `a` after merging `b`: the elements and the
/// tombstones of both, and the larger counter.
pub open spec fn merged_of<V>(a: RgaState<V>, b: RgaState<V>, r: RgaState<V>) -> bool {
    &&& canonical(r)
    &&& r.nodes == join_nodes(a.nodes, b.nodes)
    &&& r.tombstones == a.tombstones.union(b.tombstones)
    &&& r.counter == if a.counter >= b.counter {
        a.counter
    } else {
        b.counter
    }
}

/// Two replicas hold the same element wherever both hold an identifier.
pub open spec fn same_where_shared<V>(a: RgaState<V>, b: RgaState<V>) -> bool {
    forall|t: TagView| a.nodes.dom().contains(t) && b.nodes.dom().contains(t) ==> a.nodes[t] == b.nodes[t]
}

impl<T: Element> Crdt for Rga<T> {
    open spec fn valid(&self) -> bool {
        self.wf()
    }

    /// Takes over the elements of `other` that this replica lacks and the
    /// tombstones of `other`, takes the larger counter, and computes the
    /// order anew.
    fn merge(&mut self, other: &Self)
        ensures
            merged_of(old(self)@, other@, final(self)@),
            final(self).spec_actor() == old(self).spec_actor(),
    {
        let ghost start = self.nodes;
        let mut i: usize = 0;
        proof {
            other.nodes.lemma_prefix(0);
        }
        while i < other.nodes.len()
            invariant
                self.nodes.wf(),
                start.wf(),
                other.wf(),
                self.tombstones == old(self).tombstones,
                self.counter == old(self).counter,
                self.actor == old(self).actor,
                i <= other.nodes.keys@.len(),
                forall|t: TagView|
                    self.nodes.has(t) <==> start.has(t) || other.nodes.prefix_set(i as int).contains(
                        t,
                    ),
                forall|t: TagView|
                    self.nodes.has(t) ==> self.nodes.value_of(t)@ == (if start.has(t) {
                        start.value_of(t)@
                    } else {
                        other.nodes.value_of(t)@
                    }),
            decreases other.nodes.keys@.len() - i,
        {
            proof {
                other.nodes.lemma_prefix(i as int);
                other.nodes.lemma_position(i as int);
            }
            let key = other.nodes.key_at(i);
            let ghost k = key@;
            let ghost before = self.nodes;
            let (pos, found) = self.nodes.search(key);
            if !found {
                let node = other.nodes.value_at(i).replicate();
                self.nodes.insert_at(pos, key.replicate(), node);
                proof {
                    assert forall|t: TagView| self.nodes.has(t) implies self.nodes.value_of(t)@ == (
                    if start.has(t) {
                        start.value_of(t)@
                    } else {
                        other.nodes.value_of(t)@
                    }) by {
                        assert(self.nodes.as_map()[t] == self.nodes.value_of(t));
                        if t != k {
                            assert(before.as_map()[t] == before.value_of(t));
                        }
                    }
                }
            }
            proof {
                let prev = other.nodes.prefix_set(i as int);
                let next = other.nodes.prefix_set(i + 1);
                assert(next == prev.insert(k));
                assert forall|t: TagView|
                    self.nodes.has(t) <==> start.has(t) || next.contains(t) by {
                    assert(next.contains(t) <==> prev.contains(t) || t == k);
                    assert(before.has(t) <==> start.has(t) || prev.contains(t));
                }
            }
            i += 1;
        }
        proof {
            other.nodes.lemma_prefix(i as int);
            assert forall|t: TagView| other.nodes.prefix_set(i as int).contains(t) <==> other.nodes.has(
                t,
            ) by {
                assert(other.nodes.key_set().contains(t) <==> other.nodes.has(t));
            }
            assert(self@.nodes =~= join_nodes(old(self)@.nodes, other@.nodes));
        }
        let ghost joined = self@.nodes;
        unite(&mut self.tombstones, &other.tombstones);
        if other.counter > self.counter {
            self.counter = other.counter;
        }
        proof {
            assert(self@.nodes == joined);
            assert(self@.tombstones =~= old(self)@.tombstones.union(other@.tombstones));
            assert(numbered(self@)) by {
                assert forall|i: int| 0 <= i < self@.ids.len() implies (#[trigger] self@.ids[i]).1
                    <= self@.counter by {
                    let t = self@.ids[i];
                    assert(self.nodes.keys@[i]@ == t);
                    assert(self.nodes.has(t));
                    if start.has(t) {
                        let k = start.index_of(t);
                        assert(old(self)@.ids[k] == t);
                    } else {
                        let k = other.nodes.index_of(t);
                        assert(other@.ids[k] == t);
                    }
                }
                assert forall|t: TagView| self@.tombstones.contains(t) implies self@.ids.contains(
                    t,
                ) by {
                    if old(self)@.tombstones.contains(t) {
                        assert(old(self)@.ids.contains(t));
                        let k = choose|k: int|
                            0 <= k < old(self)@.ids.len() && old(self)@.ids[k] == t;
                        assert(start.keys@[k]@ == t);
                        assert(start.has(t));
                    } else {
                        assert(other@.ids.contains(t));
                        let k = choose|k: int| 0 <= k < other@.ids.len() && other@.ids[k] == t;
                        assert(other.nodes.keys@[k]@ == t);
                        assert(other.nodes.has(t));
                        assert(other@.nodes.dom().contains(t));
                    }
                    assert(join_nodes(old(self)@.nodes, other@.nodes).dom().contains(t));
                    assert(self@.nodes.dom().contains(t));
                    assert(self.nodes.has(t));
                    let m = self.nodes.index_of(t);
                    assert(self@.ids[m] == t);
                }
            }
        }
        self.rebuild_sequence();
        proof {
            self.lemma_canonical();
        }
    }
}

/// Merging is commutative: two replicas that hold the same element wherever
/// they share an identifier have the same sequence after merging each other.
pub proof fn lemma_merge_commutative<V>(
    a: RgaState<V>,
    b: RgaState<V>,
    ab: RgaState<V>,
    ba: RgaState<V>,
)
    requires
        same_where_shared(a, b),
        merged_of(a, b, ab),
        merged_of(b, a, ba),
    ensures
        visible_values(ab) == visible_values(ba),
        ab == ba,
{
    assert(ab.nodes =~= ba.nodes);
    assert(ab.tombstones =~= ba.tombstones);
    lemma_convergence(ab, ba);
}

/// Merging is associative: three replicas that hold the same element
/// wherever they share an identifier have the same sequence in either
/// grouping.
pub proof fn lemma_merge_associative<V>(
    a: RgaState<V>,
    b: RgaState<V>,
    c: RgaState<V>,
    ab: RgaState<V>,
    bc: RgaState<V>,
    left: RgaState<V>,
    right: RgaState<V>,
)
    requires
        merged_of(a, b, ab),
        merged_of(ab, c, left),
        merged_of(b, c, bc),
        merged_of(a, bc, right),
    ensures
        visible_values(left) == visible_values(right),
        left == right,
{
    assert(left.nodes =~= right.nodes);
    assert(left.tombstones =~= right.tombstones);
    lemma_convergence(left, right);
}

/// Merging is idempotent: merging the same replica a second time changes
/// nothing.
pub proof fn lemma_merge_idempotent<V>(
    a: RgaState<V>,
    b: RgaState<V>,
    once: RgaState<V>,
    twice: RgaState<V>,
)
    requires
        merged_of(a, b, once),
        merged_of(once, b, twice),
    ensures
        visible_values(twice) == visible_values(once),
        twice == once,
{
    assert(twice.nodes =~= once.nodes);
    assert(twice.tombstones =~= once.tombstones);
    lemma_convergence(twice, once);
}

} // verus!
