//! What insertion and removal do to the sequence of an array.
//!
//! The traversal visits every element at most once. So a new element with
//! the largest identifier stands right behind its parent, and a tombstone
//! takes exactly one element out of the visible sequence.

use crate::rga::{
    canonical, lemma_index_unique, lemma_visible_bounds, lemma_walk_bounds, linear, parent_index,
    positions, visible, visible_of, visible_values, walk, NodeView, RgaState,
};
use crate::tag::TagView;
use vstd::prelude::*;
use vstd::seq_lib::lemma_no_dup_in_concat;

verus! {

/// The child of `p` through which the element at position `x` descends from
/// `p`, by parents with smaller positions; -3 where there is none.
pub open spec fn top<V>(s: RgaState<V>, p: int, x: int) -> int
    decreases x,
{
    if p < -1 || x <= p || x < 0 {
        -3
    } else {
        let q = parent_index(s, x);
        if q == p {
            x
        } else if p < q < x {
            top(s, p, q)
        } else {
            -3
        }
    }
}

/// What descends from a child of `p` descends from `p` through that child.
pub proof fn lemma_top_chain<V>(s: RgaState<V>, p: int, j: int, y: int)
    requires
        -1 <= p < j,
        parent_index(s, j) == p,
        top(s, j, y) > j,
    ensures
        top(s, p, y) == j,
        y > j,
    decreases y,
{
    let q = parent_index(s, y);
    assert(y > j && y >= 0);
    assert(top(s, p, j) == j);
    if q == j {
        assert(top(s, p, y) == top(s, p, j));
    } else {
        assert(j < q < y);
        assert(top(s, j, y) == top(s, j, q));
        lemma_top_chain(s, p, j, q);
        assert(top(s, p, y) == top(s, p, q));
    }
}

/// Every position of a traversal descends from `p` through a child at a
/// position up to `j`.
pub proof fn lemma_walk_tops<V>(s: RgaState<V>, p: int, j: int)
    requires
        -1 <= p,
    ensures
        forall|k: int|
            0 <= k < walk(s, p, j).len() ==> p < top(s, p, #[trigger] walk(s, p, j)[k]) <= j,
    decreases (if p < s.ids.len() { s.ids.len() - p } else { 0 }), (if j >= 0 { j + 1 } else { 0 }),
{
    let n = s.ids.len() as int;
    if j <= p || j >= n {
    } else if parent_index(s, j) == p {
        lemma_walk_tops(s, j, n - 1);
        lemma_walk_tops(s, p, j - 1);
        let a = seq![j];
        let b = walk(s, j, n - 1);
        let c = walk(s, p, j - 1);
        let w = a + b + c;
        assert(walk(s, p, j) == w);
        assert forall|k: int| 0 <= k < w.len() implies p < top(s, p, #[trigger] w[k]) <= j by {
            if k < 1 {
                assert(w[k] == j);
                assert(top(s, p, j) == j);
            } else if k < 1 + b.len() {
                assert(w[k] == b[k - 1]);
                assert(j < top(s, j, b[k - 1]));
                lemma_top_chain(s, p, j, b[k - 1]);
            } else {
                assert(w[k] == c[k - 1 - b.len()]);
                assert(p < top(s, p, c[k - 1 - b.len()]) <= j - 1);
            }
        }
    } else {
        lemma_walk_tops(s, p, j - 1);
        assert(walk(s, p, j) == walk(s, p, j - 1));
        assert forall|k: int| 0 <= k < walk(s, p, j).len() implies p < top(
            s,
            p,
            #[trigger] walk(s, p, j)[k],
        ) <= j by {
            assert(p < top(s, p, walk(s, p, j - 1)[k]) <= j - 1);
        }
    }
}

/// A traversal visits no position twice.
pub proof fn lemma_walk_distinct<V>(s: RgaState<V>, p: int, j: int)
    requires
        -1 <= p,
    ensures
        walk(s, p, j).no_duplicates(),
    decreases (if p < s.ids.len() { s.ids.len() - p } else { 0 }), (if j >= 0 { j + 1 } else { 0 }),
{
    let n = s.ids.len() as int;
    if j <= p || j >= n {
    } else if parent_index(s, j) == p {
        lemma_walk_distinct(s, j, n - 1);
        lemma_walk_distinct(s, p, j - 1);
        lemma_walk_tops(s, j, n - 1);
        lemma_walk_tops(s, p, j - 1);
        let a = seq![j];
        let b = walk(s, j, n - 1);
        let c = walk(s, p, j - 1);
        assert forall|i: int, k: int| 0 <= i < a.len() && 0 <= k < b.len() implies a[i]
            != b[k] by {
            lemma_top_chain(s, p, j, b[k]);
        }
        lemma_no_dup_in_concat(a, b);
        assert forall|i: int, k: int| 0 <= i < (a + b).len() && 0 <= k < c.len() implies (a
            + b)[i] != c[k] by {
            assert(p < top(s, p, c[k]) <= j - 1);
            if i < 1 {
                assert((a + b)[i] == j);
                assert(top(s, p, j) == j);
            } else {
                assert((a + b)[i] == b[i - 1]);
                lemma_top_chain(s, p, j, b[i - 1]);
            }
        }
        lemma_no_dup_in_concat(a + b, c);
    } else {
        lemma_walk_distinct(s, p, j - 1);
    }
}

/// The child of `p` above an element is a child of `p`.
pub proof fn lemma_top_child<V>(s: RgaState<V>, p: int, x: int)
    requires
        -1 <= p,
        top(s, p, x) > p,
    ensures
        parent_index(s, top(s, p, x)) == p,
        p < top(s, p, x) <= x,
    decreases x,
{
    let q = parent_index(s, x);
    if p < -1 || x <= p || x < 0 {
    } else if q == p {
    } else if p < q < x {
        lemma_top_child(s, p, q);
    }
}

/// An element below the child `j` of `p`, other than `j`, is below a child
/// of `j`.
pub proof fn lemma_top_below<V>(s: RgaState<V>, p: int, j: int, x: int)
    requires
        -1 <= p < j,
        top(s, p, x) == j,
        x != j,
    ensures
        j < top(s, j, x) <= x,
    decreases x,
{
    let q = parent_index(s, x);
    if q == p {
    } else if p < q < x {
        if q == j {
        } else {
            lemma_top_below(s, p, j, q);
            lemma_top_child(s, j, q);
        }
    }
}

/// The traversal of the children of `p` up to `j` holds every element below
/// one of these children.
pub proof fn lemma_walk_complete<V>(s: RgaState<V>, p: int, j: int, x: int)
    requires
        -1 <= p,
        j < s.ids.len(),
        x < s.ids.len(),
        p < top(s, p, x) <= j,
    ensures
        walk(s, p, j).contains(x),
    decreases (if p < s.ids.len() { s.ids.len() - p } else { 0 }), (if j >= 0 { j + 1 } else { 0 }),
{
    let n = s.ids.len() as int;
    lemma_top_child(s, p, x);
    if j <= p {
    } else if parent_index(s, j) == p {
        let a = seq![j];
        let b = walk(s, j, n - 1);
        let c = walk(s, p, j - 1);
        let w = a + b + c;
        if top(s, p, x) == j {
            if x == j {
                assert(w[0] == x);
            } else {
                lemma_top_below(s, p, j, x);
                lemma_walk_complete(s, j, n - 1, x);
                let k = choose|k: int| 0 <= k < b.len() && b[k] == x;
                assert(w[1 + k] == x);
            }
        } else {
            lemma_walk_complete(s, p, j - 1, x);
            let k = choose|k: int| 0 <= k < c.len() && c[k] == x;
            assert(w[1 + b.len() + k] == x);
        }
    } else {
        lemma_walk_complete(s, p, j - 1, x);
    }
}

/// Where every parent stands at an earlier position, every element is below
/// a child of the head.
pub proof fn lemma_top_of_head<V>(s: RgaState<V>, x: int)
    requires
        forall|j: int| 0 <= j < s.ids.len() ==> -1 <= #[trigger] parent_index(s, j) < j,
        0 <= x < s.ids.len(),
    ensures
        0 <= top(s, -1, x) <= x,
    decreases x,
{
    let q = parent_index(s, x);
    if q != -1 {
        lemma_top_of_head(s, q);
    }
}

/// Where every parent stands at an earlier position, the order holds every
/// element exactly once.
pub proof fn lemma_linear_complete<V>(s: RgaState<V>)
    requires
        forall|j: int| 0 <= j < s.ids.len() ==> -1 <= #[trigger] parent_index(s, j) < j,
    ensures
        linear(s).no_duplicates(),
        linear(s).len() == s.ids.len(),
        forall|j: int| 0 <= j < s.ids.len() ==> linear(s).contains(j),
{
    let n = s.ids.len() as int;
    let order = linear(s);
    lemma_walk_distinct(s, -1, n - 1);
    lemma_walk_bounds(s, -1, n - 1);
    assert forall|j: int| 0 <= j < n implies order.contains(j) by {
        lemma_top_of_head(s, j);
        lemma_walk_complete(s, -1, n - 1, j);
    }
    let all = Set::new(|j: int| 0 <= j < n);
    assert(order.to_set() =~= all) by {
        assert forall|j: int| order.to_set().contains(j) implies all.contains(j) by {
            let k = choose|k: int| 0 <= k < order.len() && order[k] == j;
            assert(0 <= order[k] < n);
        }
    }
    order.unique_seq_to_set();
    assert(all =~= vstd::set_lib::set_int_range(0, n));
    vstd::set_lib::lemma_int_range(0, n);
}

/// What is visible of two parts is what is visible of the first followed by
/// what is visible of the second.
pub proof fn lemma_visible_concat<V>(s: RgaState<V>, a: Seq<int>, b: Seq<int>)
    ensures
        visible_of(s, a + b) == visible_of(s, a) + visible_of(s, b),
    decreases b.len(),
{
    if b.len() == 0 {
        assert(a + b =~= a);
        assert(visible_of(s, a) + visible_of(s, b) =~= visible_of(s, a));
    } else {
        lemma_visible_concat(s, a, b.drop_last());
        assert((a + b).drop_last() =~= a + b.drop_last());
        assert((a + b).last() == b.last());
        assert(visible_of(s, a + b) =~= visible_of(s, a) + visible_of(s, b));
    }
}

/// What is visible of one position.
pub proof fn lemma_visible_one<V>(s: RgaState<V>, x: int)
    ensures
        visible_of(s, seq![x]) == if s.tombstones.contains(s.ids[x]) {
            Seq::<int>::empty()
        } else {
            seq![x]
        },
{
    let one = seq![x];
    assert(one.last() == x);
    assert(one.drop_last() =~= Seq::<int>::empty());
    assert(visible_of(s, one.drop_last()) =~= Seq::<int>::empty());
    assert(visible_of(s, one) =~= if s.tombstones.contains(s.ids[x]) {
        Seq::<int>::empty()
    } else {
        seq![x]
    });
}

/// Every visible position is a position of the order.
pub proof fn lemma_visible_within<V>(s: RgaState<V>, order: Seq<int>)
    ensures
        forall|k: int|
            0 <= k < visible_of(s, order).len() ==> order.contains(
                #[trigger] visible_of(s, order)[k],
            ),
    decreases order.len(),
{
    if order.len() > 0 {
        let front = order.drop_last();
        lemma_visible_within(s, front);
        let vis = visible_of(s, order);
        assert forall|k: int| 0 <= k < vis.len() implies order.contains(#[trigger] vis[k]) by {
            if k < visible_of(s, front).len() {
                let x = visible_of(s, front)[k];
                assert(front.contains(x));
                let i = choose|i: int| 0 <= i < front.len() && front[i] == x;
                assert(order[i] == x);
            } else {
                assert(order[order.len() - 1] == vis[k]);
            }
        }
    }
}

/// What is visible of an order without repetition is without repetition.
pub proof fn lemma_visible_distinct<V>(s: RgaState<V>, order: Seq<int>)
    requires
        order.no_duplicates(),
    ensures
        visible_of(s, order).no_duplicates(),
    decreases order.len(),
{
    if order.len() > 0 {
        let front = order.drop_last();
        lemma_visible_distinct(s, front);
        lemma_visible_within(s, front);
        let last = order.last();
        let vis_front = visible_of(s, front);
        assert forall|k: int| 0 <= k < vis_front.len() implies vis_front[k] != last by {
            assert(front.contains(vis_front[k]));
            let i = choose|i: int| 0 <= i < front.len() && front[i] == vis_front[k];
            assert(order[i] == front[i]);
        }
    }
}

/// `order` without the position `x`.
pub open spec fn without(order: Seq<int>, x: int) -> Seq<int>
    decreases order.len(),
{
    if order.len() == 0 {
        Seq::empty()
    } else if order.last() == x {
        without(order.drop_last(), x)
    } else {
        without(order.drop_last(), x).push(order.last())
    }
}

/// Taking out a position that does not occur changes nothing.
pub proof fn lemma_without_absent(order: Seq<int>, x: int)
    requires
        !order.contains(x),
    ensures
        without(order, x) == order,
    decreases order.len(),
{
    if order.len() > 0 {
        let front = order.drop_last();
        assert(order[order.len() - 1] != x);
        assert forall|i: int| 0 <= i < front.len() implies front[i] != x by {
            assert(order[i] == front[i]);
        }
        lemma_without_absent(front, x);
        assert(order =~= front.push(order.last()));
    } else {
        assert(without(order, x) =~= order);
    }
}

/// Taking out a position that occurs once, at `i`, removes the entry at `i`.
pub proof fn lemma_without_once(order: Seq<int>, x: int, i: int)
    requires
        order.no_duplicates(),
        0 <= i < order.len(),
        order[i] == x,
    ensures
        without(order, x) == order.remove(i),
    decreases order.len(),
{
    let front = order.drop_last();
    let last = order.last();
    if i == order.len() - 1 {
        assert forall|k: int| 0 <= k < front.len() implies front[k] != x by {
            assert(order[k] == front[k]);
        }
        lemma_without_absent(front, x);
        assert(order.remove(i) =~= front);
    } else {
        assert(last != x);
        lemma_without_once(front, x, i);
        assert(order.remove(i) =~= front.remove(i).push(last));
    }
}

/// With one more tombstone, what is visible is what was visible without the
/// position of the removed element.
pub proof fn lemma_visible_without<V>(s: RgaState<V>, after: RgaState<V>, order: Seq<int>, x: int)
    requires
        canonical(s),
        after.ids == s.ids,
        0 <= x < s.ids.len(),
        after.tombstones == s.tombstones.insert(s.ids[x]),
        positions(order, s.ids.len() as int),
    ensures
        visible_of(after, order) == without(visible_of(s, order), x),
    decreases order.len(),
{
    if order.len() > 0 {
        let front = order.drop_last();
        let last = order.last();
        assert(positions(front, s.ids.len() as int)) by {
            assert forall|k: int| 0 <= k < front.len() implies 0 <= #[trigger] front[k]
                < s.ids.len() by {
                assert(front[k] == order[k]);
            }
        }
        lemma_visible_without(s, after, front, x);
        assert(0 <= order[order.len() - 1] < s.ids.len());
        let vis_front = visible_of(s, front);
        if last != x {
            assert(s.ids[last] != s.ids[x]) by {
                if s.ids[last] == s.ids[x] {
                    lemma_index_unique(s.ids, last);
                    lemma_index_unique(s.ids, x);
                }
            }
            assert(after.tombstones.contains(after.ids[last]) == s.tombstones.contains(
                s.ids[last],
            ));
            if !s.tombstones.contains(s.ids[last]) {
                let vis = vis_front.push(last);
                assert(visible_of(s, order) == vis);
                assert(vis.drop_last() =~= vis_front);
                assert(vis.last() == last);
                assert(without(vis, x) == without(vis_front, x).push(last));
            }
        } else {
            assert(after.tombstones.contains(after.ids[last]));
            if !s.tombstones.contains(s.ids[last]) {
                let vis = vis_front.push(last);
                assert(vis.drop_last() =~= vis_front);
                assert(vis.last() == last);
                assert(without(vis, x) == without(vis_front, x));
            }
        }
    } else {
        assert(visible_of(after, order) =~= without(visible_of(s, order), x));
    }
}

/// A tombstone on the element shown at position `index` takes exactly that
/// element out of the sequence.
pub proof fn lemma_remove_visible<V>(s: RgaState<V>, after: RgaState<V>, index: int)
    requires
        canonical(s),
        after.ids == s.ids,
        after.nodes == s.nodes,
        0 <= index < visible(s).len(),
        after.tombstones == s.tombstones.insert(s.ids[visible(s)[index]]),
    ensures
        visible(after) == visible(s).remove(index),
        visible_values(after) == visible_values(s).remove(index),
{
    let order = linear(s);
    let x = visible(s)[index];
    lemma_walk_bounds(s, -1, s.ids.len() - 1);
    lemma_visible_bounds(s, order);
    crate::rga::lemma_walk_same(after, s, -1, s.ids.len() - 1);
    lemma_visible_without(s, after, order, x);
    lemma_walk_distinct(s, -1, s.ids.len() - 1);
    lemma_visible_distinct(s, order);
    lemma_without_once(visible(s), x, index);
    assert(visible_values(after) =~= visible_values(s).remove(index));
}

/// `order` with the position `n` behind every occurrence of `q`.
pub open spec fn with_child(order: Seq<int>, q: int, n: int) -> Seq<int>
    decreases order.len(),
{
    if order.len() == 0 {
        Seq::empty()
    } else if order.last() == q {
        with_child(order.drop_last(), q, n).push(q).push(n)
    } else {
        with_child(order.drop_last(), q, n).push(order.last())
    }
}

/// Putting a position behind the occurrences of `q` goes part by part.
pub proof fn lemma_with_child_concat(a: Seq<int>, b: Seq<int>, q: int, n: int)
    ensures
        with_child(a + b, q, n) == with_child(a, q, n) + with_child(b, q, n),
    decreases b.len(),
{
    if b.len() == 0 {
        assert(a + b =~= a);
        assert(with_child(a, q, n) + with_child(b, q, n) =~= with_child(a, q, n));
    } else {
        lemma_with_child_concat(a, b.drop_last(), q, n);
        assert((a + b).drop_last() =~= a + b.drop_last());
        assert((a + b).last() == b.last());
        assert(with_child(a + b, q, n) =~= with_child(a, q, n) + with_child(b, q, n));
    }
}

/// One position with its child behind it.
pub proof fn lemma_with_child_one(x: int, q: int, n: int)
    ensures
        with_child(seq![x], q, n) == if x == q {
            seq![x, n]
        } else {
            seq![x]
        },
{
    let one = seq![x];
    assert(one.last() == x);
    assert(one.drop_last() =~= Seq::<int>::empty());
    assert(with_child(one.drop_last(), q, n) =~= Seq::<int>::empty());
    assert(with_child(one, q, n) =~= if x == q {
        seq![x, n]
    } else {
        seq![x]
    });
}

/// Where `q` does not occur, nothing is put in.
pub proof fn lemma_with_child_absent(order: Seq<int>, q: int, n: int)
    requires
        !order.contains(q),
    ensures
        with_child(order, q, n) == order,
    decreases order.len(),
{
    if order.len() > 0 {
        let front = order.drop_last();
        assert(order[order.len() - 1] != q);
        assert forall|i: int| 0 <= i < front.len() implies front[i] != q by {
            assert(order[i] == front[i]);
        }
        lemma_with_child_absent(front, q, n);
        assert(order =~= front.push(order.last()));
    } else {
        assert(with_child(order, q, n) =~= order);
    }
}

/// Where `q` occurs once, at `i`, the child goes to position `i + 1`.
pub proof fn lemma_with_child_once(order: Seq<int>, q: int, n: int, i: int)
    requires
        order.no_duplicates(),
        0 <= i < order.len(),
        order[i] == q,
    ensures
        with_child(order, q, n) == order.insert(i + 1, n),
    decreases order.len(),
{
    let front = order.drop_last();
    let last = order.last();
    if i == order.len() - 1 {
        assert forall|k: int| 0 <= k < front.len() implies front[k] != q by {
            assert(order[k] == front[k]);
        }
        lemma_with_child_absent(front, q, n);
        assert(order.insert(i + 1, n) =~= front.push(q).push(n));
    } else {
        assert(last != q);
        lemma_with_child_once(front, q, n, i);
        assert(order.insert(i + 1, n) =~= front.insert(i + 1, n).push(last));
    }
}

/// `after` is `s` with one more element: the largest identifier, not a
/// tombstone, with its parent at position `q` (-1 for the head).
pub open spec fn grown<V>(s: RgaState<V>, after: RgaState<V>, id: TagView, node: NodeView<V>, q: int)
    -> bool {
    &&& canonical(s)
    &&& canonical(after)
    &&& after.ids == s.ids.push(id)
    &&& after.nodes == s.nodes.insert(id, node)
    &&& after.tombstones == s.tombstones
    &&& !s.tombstones.contains(id)
    &&& -1 <= q < s.ids.len()
    &&& node.parent == (if q == -1 {
        None::<TagView>
    } else {
        Some(s.ids[q])
    })
}

/// The parents of the old elements stay where they were, or are the new
/// element where they were missing; the parent of the new element is at `q`.
pub proof fn lemma_grown_parents<V>(
    s: RgaState<V>,
    after: RgaState<V>,
    id: TagView,
    node: NodeView<V>,
    q: int,
)
    requires
        grown(s, after, id, node, q),
    ensures
        !s.ids.contains(id),
        parent_index(after, s.ids.len() as int) == q,
        forall|j: int|
            0 <= j < s.ids.len() ==> #[trigger] parent_index(after, j) == parent_index(s, j) || (
            parent_index(s, j) == -2 && parent_index(after, j) == s.ids.len()),
{
    let n = s.ids.len() as int;
    assert(after.ids[n] == id);
    lemma_index_unique(after.ids, n);
    assert(!s.ids.contains(id)) by {
        if s.ids.contains(id) {
            let i = choose|i: int| 0 <= i < s.ids.len() && s.ids[i] == id;
            assert(after.ids[i] == id);
            lemma_index_unique(after.ids, i);
        }
    }
    assert(after.nodes[id] == node);
    if q >= 0 {
        assert(after.ids[q] == s.ids[q]);
        lemma_index_unique(after.ids, q);
    }
    assert forall|j: int| 0 <= j < n implies #[trigger] parent_index(after, j) == parent_index(
        s,
        j,
    ) || (parent_index(s, j) == -2 && parent_index(after, j) == n) by {
        assert(after.ids[j] == s.ids[j]);
        assert(s.ids.contains(s.ids[j]));
        assert(s.ids[j] != id);
        assert(after.nodes[after.ids[j]] == s.nodes[s.ids[j]]);
        match s.nodes[s.ids[j]].parent {
            None => {},
            Some(t) => {
                if s.ids.contains(t) {
                    let i = s.ids.index_of(t);
                    assert(after.ids[i] == t);
                    lemma_index_unique(after.ids, i);
                } else if after.ids.contains(t) {
                    let i = choose|i: int| 0 <= i < after.ids.len() && after.ids[i] == t;
                    if i < n {
                        assert(s.ids[i] == t);
                    }
                    lemma_index_unique(after.ids, i);
                }
            },
        }
    }
}

/// The traversal of the grown array over the old positions is the old
/// traversal with the new element behind its parent.
pub proof fn lemma_walk_grown<V>(
    s: RgaState<V>,
    after: RgaState<V>,
    id: TagView,
    node: NodeView<V>,
    q: int,
    p: int,
    j: int,
)
    requires
        grown(s, after, id, node, q),
        -1 <= p < s.ids.len(),
        j < s.ids.len(),
    ensures
        walk(after, p, j) == with_child(walk(s, p, j), q, s.ids.len() as int),
    decreases s.ids.len() - p, (if j >= 0 { j + 1 } else { 0 }),
{
    let n = s.ids.len() as int;
    lemma_grown_parents(s, after, id, node, q);
    if j <= p {
        assert(walk(after, p, j) =~= with_child(walk(s, p, j), q, n));
    } else {
        lemma_walk_grown(s, after, id, node, q, p, j - 1);
        assert((parent_index(after, j) == p) == (parent_index(s, j) == p));
        if parent_index(s, j) == p {
            lemma_walk_grown_all(s, after, id, node, q, j);
            let a = seq![j];
            let b = walk(s, j, n - 1);
            let c = walk(s, p, j - 1);
            lemma_with_child_concat(a + b, c, q, n);
            lemma_with_child_concat(a, b, q, n);
            lemma_with_child_one(j, q, n);
            assert(walk(after, p, j) =~= with_child(walk(s, p, j), q, n));
        }
    }
}

/// The traversal of all children of `p` in the grown array: the new element
/// first where `p` is its parent, then the old traversal with the new
/// element behind its parent.
pub proof fn lemma_walk_grown_all<V>(
    s: RgaState<V>,
    after: RgaState<V>,
    id: TagView,
    node: NodeView<V>,
    q: int,
    p: int,
)
    requires
        grown(s, after, id, node, q),
        -1 <= p < s.ids.len(),
    ensures
        walk(after, p, s.ids.len() as int) == (if q == p {
            seq![s.ids.len() as int]
        } else {
            Seq::<int>::empty()
        }) + with_child(walk(s, p, s.ids.len() - 1), q, s.ids.len() as int),
    decreases s.ids.len() - p, s.ids.len() + 1,
{
    let n = s.ids.len() as int;
    lemma_grown_parents(s, after, id, node, q);
    lemma_walk_grown(s, after, id, node, q, p, n - 1);
    assert(walk(after, n, n) =~= Seq::<int>::empty());
    if q == p {
        assert(walk(after, p, n) =~= seq![n] + walk(after, n, n) + walk(after, p, n - 1));
        assert(walk(after, p, n) =~= seq![n] + with_child(walk(s, p, n - 1), q, n));
    } else {
        assert(walk(after, p, n) =~= Seq::<int>::empty() + with_child(walk(s, p, n - 1), q, n));
    }
}

/// What is visible of an order with the new element behind its visible
/// parent is what was visible with the new element behind its parent.
pub proof fn lemma_visible_grown<V>(
    s: RgaState<V>,
    after: RgaState<V>,
    id: TagView,
    node: NodeView<V>,
    q: int,
    order: Seq<int>,
)
    requires
        grown(s, after, id, node, q),
        positions(order, s.ids.len() as int),
        q >= 0 ==> !s.tombstones.contains(s.ids[q]),
    ensures
        visible_of(after, with_child(order, q, s.ids.len() as int)) == with_child(
            visible_of(s, order),
            q,
            s.ids.len() as int,
        ),
        visible_of(after, order) == visible_of(s, order),
    decreases order.len(),
{
    let n = s.ids.len() as int;
    if order.len() > 0 {
        let front = order.drop_last();
        let last = order.last();
        assert(positions(front, n)) by {
            assert forall|k: int| 0 <= k < front.len() implies 0 <= #[trigger] front[k] < n by {
                assert(front[k] == order[k]);
            }
        }
        lemma_visible_grown(s, after, id, node, q, front);
        assert(0 <= order[order.len() - 1] < n);
        assert(after.ids[last] == s.ids[last]);
        assert(after.ids[n] == id);
        let grown_front = with_child(front, q, n);
        let vis_front = visible_of(s, front);
        assert(after.tombstones.contains(after.ids[last]) == s.tombstones.contains(s.ids[last]));
        if last == q {
            let tail = seq![q, n];
            assert(with_child(order, q, n) =~= grown_front + tail);
            lemma_visible_concat(after, grown_front, tail);
            assert(tail =~= seq![q] + seq![n]);
            lemma_visible_concat(after, seq![q], seq![n]);
            lemma_visible_one(after, q);
            lemma_visible_one(after, n);
            assert(visible_of(after, tail) =~= tail);
            let vis = vis_front.push(q);
            assert(visible_of(s, order) == vis);
            assert(vis.drop_last() =~= vis_front);
            assert(vis.last() == q);
            assert(with_child(vis, q, n) == with_child(vis_front, q, n).push(q).push(n));
            assert(visible_of(after, with_child(order, q, n)) =~= with_child(
                visible_of(s, order),
                q,
                n,
            ));
        } else {
            let grown_order = grown_front.push(last);
            assert(with_child(order, q, n) =~= grown_order);
            assert(grown_order.drop_last() =~= grown_front);
            assert(grown_order.last() == last);
            if !s.tombstones.contains(s.ids[last]) {
                let vis = vis_front.push(last);
                assert(visible_of(s, order) == vis);
                assert(vis.drop_last() =~= vis_front);
                assert(vis.last() == last);
                assert(with_child(vis, q, n) == with_child(vis_front, q, n).push(last));
            }
        }
    } else {
        assert(with_child(order, q, n) =~= Seq::<int>::empty());
        assert(visible_of(after, with_child(order, q, n)) =~= with_child(
            visible_of(s, order),
            q,
            n,
        ));
    }
}

/// A new element with the largest identifier, put behind the element shown
/// at position `index - 1` (or the head for index zero), is shown at
/// position `index`.
pub proof fn lemma_insert_visible<V>(
    s: RgaState<V>,
    after: RgaState<V>,
    id: TagView,
    node: NodeView<V>,
    index: int,
)
    requires
        0 <= index <= visible(s).len(),
        grown(
            s,
            after,
            id,
            node,
            if index == 0 {
                -1
            } else {
                visible(s)[index - 1]
            },
        ),
    ensures
        visible(after) == visible(s).insert(index, s.ids.len() as int),
        visible_values(after) == visible_values(s).insert(index, node.value),
{
    let n = s.ids.len() as int;
    let q = if index == 0 {
        -1
    } else {
        visible(s)[index - 1]
    };
    let order = linear(s);
    lemma_walk_bounds(s, -1, n - 1);
    lemma_visible_bounds(s, order);
    lemma_walk_distinct(s, -1, n - 1);
    lemma_visible_distinct(s, order);
    lemma_walk_grown_all(s, after, id, node, q, -1);
    lemma_grown_parents(s, after, id, node, q);
    let head = if q == -1 {
        seq![n]
    } else {
        Seq::<int>::empty()
    };
    assert(linear(after) == head + with_child(order, q, n));
    lemma_visible_concat(after, head, with_child(order, q, n));
    lemma_visible_grown(s, after, id, node, q, order);
    assert(after.ids[n] == id);
    if q == -1 {
        lemma_visible_one(after, n);
        assert(!visible(s).contains(-1)) by {
            if visible(s).contains(-1) {
                let k = choose|k: int| 0 <= k < visible(s).len() && visible(s)[k] == -1;
                assert(0 <= visible(s)[k]);
            }
        }
        lemma_with_child_absent(visible(s), q, n);
        assert(visible(after) =~= visible(s).insert(0, n));
    } else {
        assert(visible_of(after, head) =~= Seq::<int>::empty());
        lemma_with_child_once(visible(s), q, n, index - 1);
        assert(visible(after) =~= visible(s).insert(index, n));
    }
    assert(after.nodes[after.ids[n]] == node);
    assert forall|k: int| 0 <= k < visible(after).len() implies after.nodes[after.ids[visible(
        after,
    )[k]]].value == visible_values(s).insert(index, node.value)[k] by {
        let x = visible(after)[k];
        if k < index {
            assert(x == visible(s)[k]);
            assert(after.ids[x] == s.ids[x]);
            assert(s.ids.contains(s.ids[x]));
        } else if k == index {
            assert(x == n);
        } else {
            assert(x == visible(s)[k - 1]);
            assert(after.ids[x] == s.ids[x]);
            assert(s.ids.contains(s.ids[x]));
        }
    }
    assert(visible_values(after) =~= visible_values(s).insert(index, node.value));
}

} // verus!
