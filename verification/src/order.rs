//! Lexicographic order on sequences of integers.
//!
//! Every key of this library is ranked by a sequence of integers, and keys are
//! ordered by comparing their ranks lexicographically. The order laws are
//! proved here once, for all kinds of keys.

use vstd::prelude::*;

verus! {

/// The outcome of comparing two keys.
#[derive(Clone, Copy, PartialEq, Eq, Debug, Structural)]
pub enum Order {
    Less,
    Equal,
    Greater,
}

/// `a` comes strictly before `b`: at the first position where they differ `a`
/// holds the smaller integer, or `a` is a proper prefix of `b`.
pub open spec fn lex_less(a: Seq<int>, b: Seq<int>) -> bool
    decreases a.len(),
{
    if b.len() == 0 {
        false
    } else if a.len() == 0 {
        true
    } else if a[0] != b[0] {
        a[0] < b[0]
    } else {
        lex_less(a.drop_first(), b.drop_first())
    }
}

/// Three-way comparison derived from [`lex_less`].
pub open spec fn lex_order(a: Seq<int>, b: Seq<int>) -> Order {
    if lex_less(a, b) {
        Order::Less
    } else if a == b {
        Order::Equal
    } else {
        Order::Greater
    }
}

/// Every pair of neighbours is in strictly increasing order.
pub open spec fn strictly_increasing(ranks: Seq<Seq<int>>) -> bool {
    forall|i: int, j: int| 0 <= i < j < ranks.len() ==> lex_less(#[trigger] ranks[i], #[trigger] ranks[j])
}

/// No sequence comes before itself.
pub proof fn lemma_lex_irreflexive(a: Seq<int>)
    ensures
        !lex_less(a, a),
    decreases a.len(),
{
    if a.len() > 0 {
        lemma_lex_irreflexive(a.drop_first());
    }
}

/// The order never holds in both directions.
pub proof fn lemma_lex_asymmetric(a: Seq<int>, b: Seq<int>)
    requires
        lex_less(a, b),
    ensures
        !lex_less(b, a),
    decreases a.len(),
{
    if a.len() > 0 && b.len() > 0 && a[0] == b[0] {
        lemma_lex_asymmetric(a.drop_first(), b.drop_first());
    }
}

/// The order is transitive.
pub proof fn lemma_lex_transitive(a: Seq<int>, b: Seq<int>, c: Seq<int>)
    requires
        lex_less(a, b),
        lex_less(b, c),
    ensures
        lex_less(a, c),
    decreases a.len(),
{
    if a.len() > 0 && b.len() > 0 && c.len() > 0 && a[0] == b[0] && b[0] == c[0] {
        lemma_lex_transitive(a.drop_first(), b.drop_first(), c.drop_first());
    }
}

/// Two sequences of which neither comes before the other are equal.
pub proof fn lemma_lex_total(a: Seq<int>, b: Seq<int>)
    requires
        !lex_less(a, b),
        !lex_less(b, a),
    ensures
        a == b,
    decreases a.len(),
{
    if a.len() == 0 || b.len() == 0 {
        assert(a =~= b);
    } else {
        lemma_lex_total(a.drop_first(), b.drop_first());
        assert(a =~= seq![a[0]] + a.drop_first());
        assert(b =~= seq![b[0]] + b.drop_first());
    }
}

/// What each outcome of [`lex_order`] says of the two sequences.
pub proof fn lemma_lex_order(a: Seq<int>, b: Seq<int>)
    ensures
        lex_order(a, b) == Order::Less <==> lex_less(a, b),
        lex_order(a, b) == Order::Equal <==> a == b,
        lex_order(a, b) == Order::Greater <==> lex_less(b, a),
{
    lemma_lex_irreflexive(a);
    if lex_less(a, b) {
        lemma_lex_asymmetric(a, b);
    } else if a != b {
        if !lex_less(b, a) {
            lemma_lex_total(a, b);
        }
    }
}

/// A common prefix does not change the order of what follows it.
pub proof fn lemma_lex_common_prefix(p: Seq<int>, a: Seq<int>, b: Seq<int>)
    ensures
        lex_less(p + a, p + b) == lex_less(a, b),
    decreases p.len(),
{
    if p.len() == 0 {
        assert(p + a =~= a);
        assert(p + b =~= b);
    } else {
        let q = p.drop_first();
        assert((p + a).drop_first() =~= q + a);
        assert((p + b).drop_first() =~= q + b);
        lemma_lex_common_prefix(q, a, b);
    }
}

/// Comparing two sequences that start with one integer each.
pub proof fn lemma_lex_head(x: int, a: Seq<int>, y: int, b: Seq<int>)
    ensures
        lex_less(seq![x] + a, seq![y] + b) == (x < y || (x == y && lex_less(a, b))),
{
    let l = seq![x] + a;
    let r = seq![y] + b;
    assert(l.drop_first() =~= a);
    assert(r.drop_first() =~= b);
}

/// Where the parts before a separator differ and the separator is smaller than
/// every integer of those parts, the parts alone decide the order.
pub proof fn lemma_lex_separated(
    p: Seq<int>,
    a: Seq<int>,
    q: Seq<int>,
    b: Seq<int>,
    sep: int,
)
    requires
        p != q,
        forall|i: int| 0 <= i < p.len() ==> sep < #[trigger] p[i],
        forall|i: int| 0 <= i < q.len() ==> sep < #[trigger] q[i],
    ensures
        lex_less(p + seq![sep] + a, q + seq![sep] + b) == lex_less(p, q),
    decreases p.len(),
{
    let l = p + seq![sep] + a;
    let r = q + seq![sep] + b;
    if p.len() == 0 {
        assert(q.len() > 0) by {
            if q.len() == 0 {
                assert(p =~= q);
            }
        }
        assert(l[0] == sep);
        assert(r[0] == q[0]);
    } else if q.len() == 0 {
        assert(l[0] == p[0]);
        assert(r[0] == sep);
    } else {
        assert(l[0] == p[0]);
        assert(r[0] == q[0]);
        if p[0] == q[0] {
            let p_rest = p.drop_first();
            let q_rest = q.drop_first();
            assert(p_rest != q_rest) by {
                if p_rest == q_rest {
                    assert(p =~= seq![p[0]] + p_rest);
                    assert(q =~= seq![q[0]] + q_rest);
                }
            }
            assert(l.drop_first() =~= p_rest + seq![sep] + a);
            assert(r.drop_first() =~= q_rest + seq![sep] + b);
            lemma_lex_separated(p_rest, a, q_rest, b, sep);
        }
    }
}

/// In a strictly increasing sequence no rank occurs twice.
pub proof fn lemma_increasing_distinct(ranks: Seq<Seq<int>>, i: int, j: int)
    requires
        strictly_increasing(ranks),
        0 <= i < ranks.len(),
        0 <= j < ranks.len(),
        ranks[i] == ranks[j],
    ensures
        i == j,
{
    if i < j {
        lemma_lex_irreflexive(ranks[i]);
    } else if j < i {
        lemma_lex_irreflexive(ranks[j]);
    }
}

/// Two strictly increasing sequences that hold the same ranks are equal.
pub proof fn lemma_increasing_unique(a: Seq<Seq<int>>, b: Seq<Seq<int>>)
    requires
        strictly_increasing(a),
        strictly_increasing(b),
        forall|x: Seq<int>| a.contains(x) <==> b.contains(x),
    ensures
        a == b,
    decreases a.len(),
{
    if a.len() == 0 {
        if b.len() > 0 {
            assert(b.contains(b[0]));
            assert(a.contains(b[0]));
        }
        assert(a =~= b);
    } else if b.len() == 0 {
        assert(a.contains(a[0]));
        assert(b.contains(a[0]));
    } else {
        assert(a.contains(a[0]));
        assert(b.contains(b[0]));
        let j = choose|j: int| 0 <= j < b.len() && b[j] == a[0];
        let i = choose|i: int| 0 <= i < a.len() && a[i] == b[0];
        assert(a[0] == b[0]) by {
            if j > 0 && i > 0 {
                lemma_lex_asymmetric(b[0], b[j]);
            } else if j > 0 {
                lemma_lex_irreflexive(b[0]);
            } else if i > 0 {
                lemma_lex_irreflexive(a[0]);
            }
        }
        let a1 = a.drop_first();
        let b1 = b.drop_first();
        assert forall|x: Seq<int>| a1.contains(x) <==> b1.contains(x) by {
            if a1.contains(x) {
                let k = choose|k: int| 0 <= k < a1.len() && a1[k] == x;
                assert(a[k + 1] == x);
                assert(a.contains(x));
                let m = choose|m: int| 0 <= m < b.len() && b[m] == x;
                if m == 0 {
                    lemma_increasing_distinct(a, 0, k + 1);
                }
                assert(b1[m - 1] == x);
            }
            if b1.contains(x) {
                let k = choose|k: int| 0 <= k < b1.len() && b1[k] == x;
                assert(b[k + 1] == x);
                assert(b.contains(x));
                let m = choose|m: int| 0 <= m < a.len() && a[m] == x;
                if m == 0 {
                    lemma_increasing_distinct(b, 0, k + 1);
                }
                assert(a1[m - 1] == x);
            }
        }
        assert(strictly_increasing(a1)) by {
            assert forall|i: int, j: int| 0 <= i < j < a1.len() implies lex_less(
                #[trigger] a1[i],
                #[trigger] a1[j],
            ) by {
                assert(lex_less(a[i + 1], a[j + 1]));
            }
        }
        assert(strictly_increasing(b1)) by {
            assert forall|i: int, j: int| 0 <= i < j < b1.len() implies lex_less(
                #[trigger] b1[i],
                #[trigger] b1[j],
            ) by {
                assert(lex_less(b[i + 1], b[j + 1]));
            }
        }
        lemma_increasing_unique(a1, b1);
        assert(a =~= seq![a[0]] + a1);
        assert(b =~= seq![b[0]] + b1);
    }
}

} // verus!
