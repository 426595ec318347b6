//! Keys: values with a view, a total order and an exact copy.

use crate::order::{
    lemma_lex_common_prefix, lemma_lex_head, lemma_lex_order, lemma_lex_separated, lex_less,
    lex_order, Order,
};
use vstd::prelude::*;
use vstd::utf8::{char_u32_cast, encode_utf8, encode_utf8_decode_utf8};

verus! {

/// A value that can be copied exactly.
pub trait Replicate: View + Sized {
    /// Returns a copy with the same view.
    fn replicate(&self) -> (r: Self)
        ensures
            r@ == self@,
    ;
}

/// A value that can serve as a key of the library's collections.
///
/// Keys are identified by their view and ordered by the rank of their view.
pub trait Element: Replicate {
    /// The sequence of integers by which a view is ordered.
    spec fn rank(v: Self::V) -> Seq<int>;

    /// Different views have different ranks.
    proof fn lemma_rank_injective(a: Self::V, b: Self::V)
        requires
            Self::rank(a) == Self::rank(b),
        ensures
            a == b,
    ;

    /// Compares two keys by rank.
    fn order(&self, other: &Self) -> (o: Order)
        ensures
            o == lex_order(Self::rank(self@), Self::rank(other@)),
    ;
}

/// The rank of one integer.
pub open spec fn int_rank(x: int) -> Seq<int> {
    seq![x]
}

/// The rank of a byte string: its bytes.
pub open spec fn bytes_rank(b: Seq<u8>) -> Seq<int> {
    b.map_values(|x: u8| x as int)
}

/// The rank of a text: the bytes of its UTF-8 encoding.
pub open spec fn text_rank(s: Seq<char>) -> Seq<int> {
    bytes_rank(encode_utf8(s))
}

/// Ranks of single integers are ordered as the integers are.
pub proof fn lemma_int_rank_order(x: int, y: int)
    ensures
        lex_less(int_rank(x), int_rank(y)) == (x < y),
        (int_rank(x) == int_rank(y)) == (x == y),
{
    assert(!lex_less(int_rank(x).drop_first(), int_rank(y).drop_first()));
    if int_rank(x) == int_rank(y) {
        assert(int_rank(x)[0] == int_rank(y)[0]);
    }
}

/// Byte strings with the same rank are equal.
pub proof fn lemma_bytes_rank_injective(a: Seq<u8>, b: Seq<u8>)
    requires
        bytes_rank(a) == bytes_rank(b),
    ensures
        a == b,
{
    assert(a.len() == bytes_rank(a).len());
    assert(b.len() == bytes_rank(b).len());
    assert forall|i: int| 0 <= i < a.len() implies a[i] == b[i] by {
        assert(bytes_rank(a)[i] == a[i] as int);
        assert(bytes_rank(b)[i] == b[i] as int);
    }
    assert(a =~= b);
}

/// Texts with the same rank are equal.
pub proof fn lemma_text_rank_injective(a: Seq<char>, b: Seq<char>)
    requires
        text_rank(a) == text_rank(b),
    ensures
        a == b,
{
    lemma_bytes_rank_injective(encode_utf8(a), encode_utf8(b));
    encode_utf8_decode_utf8(a);
    encode_utf8_decode_utf8(b);
}

/// Every integer in the rank of a byte string is a byte.
pub proof fn lemma_bytes_rank_bounds(b: Seq<u8>)
    ensures
        forall|i: int| 0 <= i < bytes_rank(b).len() ==> 0 <= #[trigger] bytes_rank(b)[i] < 256,
{
}

/// Once two sequences agree on their first `i` integers, what follows decides.
pub proof fn lemma_lex_skip(a: Seq<int>, b: Seq<int>, i: int)
    requires
        0 <= i <= a.len(),
        i <= b.len(),
        a.subrange(0, i) == b.subrange(0, i),
    ensures
        lex_less(a, b) == lex_less(a.skip(i), b.skip(i)),
        (a == b) == (a.skip(i) == b.skip(i)),
{
    let p = a.subrange(0, i);
    assert(a =~= p + a.skip(i));
    assert(b =~= p + b.skip(i));
    lemma_lex_common_prefix(p, a.skip(i), b.skip(i));
}

/// The rank of a pair: the rank of the first part, a separator below every
/// byte, and the rank of the second part.
pub open spec fn pair_rank(first: Seq<int>, second: Seq<int>) -> Seq<int> {
    first + seq![-1int] + second
}

/// Pairs whose first parts hold no negative integer are ordered by the first
/// parts, and by the second parts where the first are equal.
pub proof fn lemma_pair_rank(p: Seq<int>, a: Seq<int>, q: Seq<int>, b: Seq<int>)
    requires
        forall|i: int| 0 <= i < p.len() ==> 0 <= #[trigger] p[i],
        forall|i: int| 0 <= i < q.len() ==> 0 <= #[trigger] q[i],
    ensures
        lex_less(pair_rank(p, a), pair_rank(q, b)) == (lex_less(p, q) || (p == q && lex_less(a, b))),
        (pair_rank(p, a) == pair_rank(q, b)) == (p == q && a == b),
{
    let l = pair_rank(p, a);
    let r = pair_rank(q, b);
    if p == q {
        let pre = p + seq![-1int];
        lemma_lex_common_prefix(pre, a, b);
        crate::order::lemma_lex_irreflexive(p);
        if l == r {
            assert(l.skip(pre.len() as int) =~= a);
            assert(r.skip(pre.len() as int) =~= b);
        }
    } else {
        lemma_lex_separated(p, a, q, b, -1);
        lemma_lex_separated(q, b, p, a, -1);
        lemma_lex_order(p, q);
        lemma_lex_order(l, r);
    }
}

/// The rank of a counter followed by a text.
pub open spec fn tagged_rank(counter: int, text: Seq<int>) -> Seq<int> {
    seq![counter] + text
}

/// Counters decide first, texts where the counters are equal.
pub proof fn lemma_tagged_rank(x: int, a: Seq<int>, y: int, b: Seq<int>)
    ensures
        lex_less(tagged_rank(x, a), tagged_rank(y, b)) == (x < y || (x == y && lex_less(a, b))),
        (tagged_rank(x, a) == tagged_rank(y, b)) == (x == y && a == b),
{
    lemma_lex_head(x, a, y, b);
    let l = tagged_rank(x, a);
    let r = tagged_rank(y, b);
    if l == r {
        assert(l[0] == x);
        assert(r[0] == y);
        assert(l.skip(1) =~= a);
        assert(r.skip(1) =~= b);
    }
}

/// Compares two byte strings lexicographically.
pub fn compare_bytes(a: &[u8], b: &[u8]) -> (o: Order)
    ensures
        o == lex_order(bytes_rank(a@), bytes_rank(b@)),
{
    let ghost ra = bytes_rank(a@);
    let ghost rb = bytes_rank(b@);
    let mut i: usize = 0;
    while i < a.len() && i < b.len()
        invariant
            i <= a.len(),
            i <= b.len(),
            ra == bytes_rank(a@),
            rb == bytes_rank(b@),
            ra.subrange(0, i as int) == rb.subrange(0, i as int),
        decreases a.len() - i,
    {
        let x = a[i];
        let y = b[i];
        if x != y {
            proof {
                lemma_lex_skip(ra, rb, i as int);
                let sa = ra.skip(i as int);
                let sb = rb.skip(i as int);
                assert(sa[0] == x as int);
                assert(sb[0] == y as int);
                if x > y {
                    assert(!lex_less(sa, sb));
                    assert(sa != sb);
                }
            }
            if x < y {
                return Order::Less;
            } else {
                return Order::Greater;
            }
        }
        proof {
            assert(ra.subrange(0, i + 1) =~= ra.subrange(0, i as int).push(x as int));
            assert(rb.subrange(0, i + 1) =~= rb.subrange(0, i as int).push(y as int));
        }
        i += 1;
    }
    proof {
        lemma_lex_skip(ra, rb, i as int);
        let sa = ra.skip(i as int);
        let sb = rb.skip(i as int);
        if a.len() == b.len() {
            assert(sa =~= sb);
            crate::order::lemma_lex_irreflexive(sa);
        } else if i == a.len() {
            assert(sa.len() == 0);
            assert(sb.len() > 0);
        } else {
            assert(sb.len() == 0);
            assert(sa.len() > 0);
        }
    }
    if a.len() == b.len() {
        Order::Equal
    } else if a.len() < b.len() {
        Order::Less
    } else {
        Order::Greater
    }
}

/// Compares two texts by the bytes of their UTF-8 encoding.
pub fn compare_text(a: &str, b: &str) -> (o: Order)
    ensures
        o == lex_order(text_rank(a@), text_rank(b@)),
{
    compare_bytes(a.as_bytes(), b.as_bytes())
}

/// Whether two texts are equal.
pub fn same_text(a: &str, b: &str) -> (r: bool)
    ensures
        r == (a@ == b@),
{
    proof {
        lemma_lex_order(text_rank(a@), text_rank(b@));
        if text_rank(a@) == text_rank(b@) {
            lemma_text_rank_injective(a@, b@);
        }
    }
    match compare_text(a, b) {
        Order::Equal => true,
        _ => false,
    }
}

impl Replicate for String {
    fn replicate(&self) -> (r: Self) {
        self.clone()
    }
}

impl Element for String {
    open spec fn rank(v: Seq<char>) -> Seq<int> {
        text_rank(v)
    }

    proof fn lemma_rank_injective(a: Seq<char>, b: Seq<char>) {
        lemma_text_rank_injective(a, b);
    }

    fn order(&self, other: &Self) -> (o: Order) {
        compare_text(self.as_str(), other.as_str())
    }
}

impl<'a> Replicate for &'a str {
    fn replicate(&self) -> (r: Self) {
        *self
    }
}

impl<'a> Element for &'a str {
    open spec fn rank(v: Seq<char>) -> Seq<int> {
        text_rank(v)
    }

    proof fn lemma_rank_injective(a: Seq<char>, b: Seq<char>) {
        lemma_text_rank_injective(a, b);
    }

    fn order(&self, other: &Self) -> (o: Order) {
        compare_text(*self, *other)
    }
}

impl<'a, T: Element> Replicate for &'a T {
    fn replicate(&self) -> (r: Self) {
        *self
    }
}

impl<'a, T: Element> Element for &'a T {
    open spec fn rank(v: T::V) -> Seq<int> {
        T::rank(v)
    }

    proof fn lemma_rank_injective(a: T::V, b: T::V) {
        T::lemma_rank_injective(a, b);
    }

    fn order(&self, other: &Self) -> (o: Order) {
        (**self).order(*other)
    }
}

impl Replicate for char {
    fn replicate(&self) -> (r: Self) {
        *self
    }
}

impl Element for char {
    open spec fn rank(v: char) -> Seq<int> {
        int_rank(v as u32 as int)
    }

    proof fn lemma_rank_injective(a: char, b: char) {
        lemma_int_rank_order(a as u32 as int, b as u32 as int);
        char_u32_cast(a, a as u32);
        char_u32_cast(b, b as u32);
    }

    fn order(&self, other: &Self) -> (o: Order) {
        proof {
            lemma_int_rank_order(*self as u32 as int, *other as u32 as int);
        }
        let x: u32 = *self as u32;
        let y: u32 = *other as u32;
        if x < y {
            Order::Less
        } else if x == y {
            Order::Equal
        } else {
            Order::Greater
        }
    }
}

impl Replicate for u8 {
    fn replicate(&self) -> (r: Self) {
        *self
    }
}

impl Element for u8 {
    open spec fn rank(v: u8) -> Seq<int> {
        int_rank(v as int)
    }

    proof fn lemma_rank_injective(a: u8, b: u8) {
        lemma_int_rank_order(a as int, b as int);
    }

    fn order(&self, other: &Self) -> (o: Order) {
        proof {
            lemma_int_rank_order(*self as int, *other as int);
        }
        if *self < *other {
            Order::Less
        } else if *self == *other {
            Order::Equal
        } else {
            Order::Greater
        }
    }
}

impl Replicate for u16 {
    fn replicate(&self) -> (r: Self) {
        *self
    }
}

impl Element for u16 {
    open spec fn rank(v: u16) -> Seq<int> {
        int_rank(v as int)
    }

    proof fn lemma_rank_injective(a: u16, b: u16) {
        lemma_int_rank_order(a as int, b as int);
    }

    fn order(&self, other: &Self) -> (o: Order) {
        proof {
            lemma_int_rank_order(*self as int, *other as int);
        }
        if *self < *other {
            Order::Less
        } else if *self == *other {
            Order::Equal
        } else {
            Order::Greater
        }
    }
}

impl Replicate for u32 {
    fn replicate(&self) -> (r: Self) {
        *self
    }
}

impl Element for u32 {
    open spec fn rank(v: u32) -> Seq<int> {
        int_rank(v as int)
    }

    proof fn lemma_rank_injective(a: u32, b: u32) {
        lemma_int_rank_order(a as int, b as int);
    }

    fn order(&self, other: &Self) -> (o: Order) {
        proof {
            lemma_int_rank_order(*self as int, *other as int);
        }
        if *self < *other {
            Order::Less
        } else if *self == *other {
            Order::Equal
        } else {
            Order::Greater
        }
    }
}

impl Replicate for u64 {
    fn replicate(&self) -> (r: Self) {
        *self
    }
}

impl Element for u64 {
    open spec fn rank(v: u64) -> Seq<int> {
        int_rank(v as int)
    }

    proof fn lemma_rank_injective(a: u64, b: u64) {
        lemma_int_rank_order(a as int, b as int);
    }

    fn order(&self, other: &Self) -> (o: Order) {
        proof {
            lemma_int_rank_order(*self as int, *other as int);
        }
        if *self < *other {
            Order::Less
        } else if *self == *other {
            Order::Equal
        } else {
            Order::Greater
        }
    }
}

impl Replicate for usize {
    fn replicate(&self) -> (r: Self) {
        *self
    }
}

impl Element for usize {
    open spec fn rank(v: usize) -> Seq<int> {
        int_rank(v as int)
    }

    proof fn lemma_rank_injective(a: usize, b: usize) {
        lemma_int_rank_order(a as int, b as int);
    }

    fn order(&self, other: &Self) -> (o: Order) {
        proof {
            lemma_int_rank_order(*self as int, *other as int);
        }
        if *self < *other {
            Order::Less
        } else if *self == *other {
            Order::Equal
        } else {
            Order::Greater
        }
    }
}

impl Replicate for i32 {
    fn replicate(&self) -> (r: Self) {
        *self
    }
}

impl Element for i32 {
    open spec fn rank(v: i32) -> Seq<int> {
        int_rank(v as int)
    }

    proof fn lemma_rank_injective(a: i32, b: i32) {
        lemma_int_rank_order(a as int, b as int);
    }

    fn order(&self, other: &Self) -> (o: Order) {
        proof {
            lemma_int_rank_order(*self as int, *other as int);
        }
        if *self < *other {
            Order::Less
        } else if *self == *other {
            Order::Equal
        } else {
            Order::Greater
        }
    }
}

impl Replicate for i64 {
    fn replicate(&self) -> (r: Self) {
        *self
    }
}

impl Element for i64 {
    open spec fn rank(v: i64) -> Seq<int> {
        int_rank(v as int)
    }

    proof fn lemma_rank_injective(a: i64, b: i64) {
        lemma_int_rank_order(a as int, b as int);
    }

    fn order(&self, other: &Self) -> (o: Order) {
        proof {
            lemma_int_rank_order(*self as int, *other as int);
        }
        if *self < *other {
            Order::Less
        } else if *self == *other {
            Order::Equal
        } else {
            Order::Greater
        }
    }
}

impl Replicate for u128 {
    fn replicate(&self) -> (r: Self) {
        *self
    }
}

impl Element for u128 {
    open spec fn rank(v: u128) -> Seq<int> {
        int_rank(v as int)
    }

    proof fn lemma_rank_injective(a: u128, b: u128) {
        lemma_int_rank_order(a as int, b as int);
    }

    fn order(&self, other: &Self) -> (o: Order) {
        proof {
            lemma_int_rank_order(*self as int, *other as int);
        }
        if *self < *other {
            Order::Less
        } else if *self == *other {
            Order::Equal
        } else {
            Order::Greater
        }
    }
}

impl Replicate for i8 {
    fn replicate(&self) -> (r: Self) {
        *self
    }
}

impl Element for i8 {
    open spec fn rank(v: i8) -> Seq<int> {
        int_rank(v as int)
    }

    proof fn lemma_rank_injective(a: i8, b: i8) {
        lemma_int_rank_order(a as int, b as int);
    }

    fn order(&self, other: &Self) -> (o: Order) {
        proof {
            lemma_int_rank_order(*self as int, *other as int);
        }
        if *self < *other {
            Order::Less
        } else if *self == *other {
            Order::Equal
        } else {
            Order::Greater
        }
    }
}

impl Replicate for i16 {
    fn replicate(&self) -> (r: Self) {
        *self
    }
}

impl Element for i16 {
    open spec fn rank(v: i16) -> Seq<int> {
        int_rank(v as int)
    }

    proof fn lemma_rank_injective(a: i16, b: i16) {
        lemma_int_rank_order(a as int, b as int);
    }

    fn order(&self, other: &Self) -> (o: Order) {
        proof {
            lemma_int_rank_order(*self as int, *other as int);
        }
        if *self < *other {
            Order::Less
        } else if *self == *other {
            Order::Equal
        } else {
            Order::Greater
        }
    }
}

impl Replicate for i128 {
    fn replicate(&self) -> (r: Self) {
        *self
    }
}

impl Element for i128 {
    open spec fn rank(v: i128) -> Seq<int> {
        int_rank(v as int)
    }

    proof fn lemma_rank_injective(a: i128, b: i128) {
        lemma_int_rank_order(a as int, b as int);
    }

    fn order(&self, other: &Self) -> (o: Order) {
        proof {
            lemma_int_rank_order(*self as int, *other as int);
        }
        if *self < *other {
            Order::Less
        } else if *self == *other {
            Order::Equal
        } else {
            Order::Greater
        }
    }
}

impl Replicate for isize {
    fn replicate(&self) -> (r: Self) {
        *self
    }
}

impl Element for isize {
    open spec fn rank(v: isize) -> Seq<int> {
        int_rank(v as int)
    }

    proof fn lemma_rank_injective(a: isize, b: isize) {
        lemma_int_rank_order(a as int, b as int);
    }

    fn order(&self, other: &Self) -> (o: Order) {
        proof {
            lemma_int_rank_order(*self as int, *other as int);
        }
        if *self < *other {
            Order::Less
        } else if *self == *other {
            Order::Equal
        } else {
            Order::Greater
        }
    }
}

impl Replicate for bool {
    fn replicate(&self) -> (r: Self) {
        *self
    }
}

impl Element for bool {
    open spec fn rank(v: bool) -> Seq<int> {
        int_rank(if v {
            1
        } else {
            0
        })
    }

    proof fn lemma_rank_injective(a: bool, b: bool) {
        lemma_int_rank_order(if a { 1 } else { 0 }, if b { 1 } else { 0 });
    }

    fn order(&self, other: &Self) -> (o: Order) {
        proof {
            lemma_int_rank_order(if *self { 1 } else { 0 }, if *other { 1 } else { 0 });
        }
        if *self == *other {
            Order::Equal
        } else if *other {
            Order::Less
        } else {
            Order::Greater
        }
    }
}

} // verus!
