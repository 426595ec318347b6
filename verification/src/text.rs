//! Collaborative text: a replicated growable array of characters.
//!
//! Every character knows the character it was typed after, so the text of
//! two replicas that hold the same characters and the same removals reads
//! the same.

use crate::crdt::Crdt;
use crate::rga::{merged_of, plain_nodes, plain_numbered, visible_values, PlainNode, Rga, RgaState};
use crate::tag::{pair_views, Pair, TagView};
use vstd::prelude::*;
use vstd::string::StrSliceExecFns;

verus! {

/// The state of a text: the state of an array of characters.
pub type TextState = RgaState<char>;

/// The characters that plain data gives, each with the character it was
/// typed after.
pub type PlainChar = PlainNode<char>;

/// The identifier that a new character at position `index` stands after:
/// that of the character at `index - 1`, none for index zero.
pub open spec fn anchor(s: TextState, index: int) -> Option<TagView> {
    if index == 0 {
        None
    } else {
        Some(s.ids[crate::rga::visible(s)[index - 1]])
    }
}

/// The identifiers after the replica `actor` has typed `count` characters:
/// the new ones are numbered in a row from the counter on.
pub open spec fn typed_ids(s: TextState, actor: Seq<char>, count: nat) -> Seq<TagView> {
    s.ids + Seq::new(count, |k: int| (actor, (s.counter + k + 1) as u64))
}

/// The characters after the replica `actor` has typed `text` at `index`: the
/// first new one stands after the anchor, each other after the one before it.
pub open spec fn typed(s: TextState, actor: Seq<char>, index: int, text: Seq<char>) -> Map<
    TagView,
    crate::rga::NodeView<char>,
>
    decreases text.len(),
{
    if text.len() == 0 {
        s.nodes
    } else {
        let k = text.len() - 1;
        typed(s, actor, index, text.drop_last()).insert(
            (actor, (s.counter + k + 1) as u64),
            crate::rga::NodeView {
                value: text.last(),
                parent: if k == 0 {
                    anchor(s, index)
                } else {
                    Some((actor, (s.counter + k) as u64))
                },
            },
        )
    }
}

/// A collaborative text.
#[derive(Debug, Clone, PartialEq, Eq)]
pub struct TextCrdt {
    chars: Rga<char>,
}

impl View for TextCrdt {
    type V = TextState;

    closed spec fn view(&self) -> TextState {
        self.chars@
    }
}

impl TextCrdt {
    /// The array of characters is well formed.
    pub closed spec fn wf(&self) -> bool {
        self.chars.wf()
    }

    /// The replica that holds this text.
    pub closed spec fn spec_actor(&self) -> Seq<char> {
        self.chars.spec_actor()
    }

    /// The text as it reads: the characters that were not removed, in order.
    pub open spec fn text(&self) -> Seq<char> {
        visible_values(self@)
    }

    /// The identifiers of a well-formed text are those of its characters, in
    /// strictly increasing order.
    pub proof fn lemma_wf_canonical(&self)
        requires
            self.wf(),
        ensures
            crate::rga::canonical(self@),
    {
        self.chars.lemma_wf_canonical();
    }

    /// In a well-formed text no identifier is numbered above the counter,
    /// every removal names a character, and every character stands under the
    /// head or under an earlier character.
    pub proof fn lemma_wf_numbered(&self)
        requires
            self.wf(),
        ensures
            crate::rga::numbered(self@),
            crate::rga::rooted(self@.nodes),
    {
        self.chars.lemma_wf_numbered();
    }

    /// The order of a well-formed text holds every character exactly once.
    pub proof fn lemma_wf_complete(&self)
        requires
            self.wf(),
        ensures
            crate::rga::linear(self@).no_duplicates(),
            crate::rga::linear(self@).len() == self@.ids.len(),
            forall|j: int| 0 <= j < self@.ids.len() ==> crate::rga::linear(self@).contains(j),
    {
        self.chars.lemma_wf_complete();
    }

    /// Creates an empty text for the replica `actor`.
    pub fn new(actor: &str) -> (t: Self)
        ensures
            t.wf(),
            t.spec_actor() == actor@,
            t@.ids.len() == 0,
            t@.nodes == Map::<crate::tag::TagView, crate::rga::NodeView<char>>::empty(),
            t@.tombstones == Set::<crate::tag::TagView>::empty(),
            t@.counter == 0,
            t.text().len() == 0,
    {
        Self { chars: Rga::new(actor) }
    }

    /// Creates a copy of this text that another replica holds.
    pub fn fork(&self, new_actor: &str) -> (t: Self)
        requires
            self.wf(),
        ensures
            t.wf(),
            t.spec_actor() == new_actor@,
            merged_of(Rga::<char>::empty_state(), self@, t@),
            t.text() == self.text(),
    {
        Self { chars: self.chars.fork(new_actor) }
    }

    /// The counter that numbers new characters.
    pub fn counter(&self) -> (c: u64)
        ensures
            c == self@.counter,
    {
        self.chars.counter()
    }

    /// All characters as plain data, removed ones included, in increasing
    /// order of identifier.
    pub fn elements(&self) -> (out: Vec<PlainChar>)
        requires
            self.wf(),
        ensures
            plain_nodes(out@) == self@.nodes,
    {
        self.chars.nodes()
    }

    /// The identifiers of the removed characters as plain pairs.
    pub fn tombstones(&self) -> (out: Vec<Pair>)
        requires
            self.wf(),
        ensures
            pair_views(out@).to_set() == self@.tombstones,
    {
        self.chars.tombstones()
    }

    /// The text of the replica `actor` with the counter, the characters and
    /// the removals that plain data gives; nothing where a character is
    /// numbered above the counter, stands under a character that is missing
    /// or has no earlier identifier, or a removal names no character.
    pub fn from_parts(
        actor: &str,
        counter: u64,
        elements: &Vec<PlainChar>,
        tombstones: &Vec<Pair>,
    ) -> (r: Option<Self>)
        ensures
            r is Some <==> plain_numbered(counter, elements@, tombstones@),
            r matches Some(t) ==> t.wf() && t.spec_actor() == actor@ && t@.counter == counter
                && t@.nodes == plain_nodes(elements@) && t@.tombstones == pair_views(
                tombstones@,
            ).to_set(),
    {
        match Rga::from_parts(actor, counter, elements, tombstones) {
            Some(chars) => Some(Self { chars }),
            None => None,
        }
    }

    /// Inserts a character so that it reads at position `index`: as a new
    /// character after the one at `index - 1`, or after the head for index
    /// zero, under the identifier of this replica with its counter raised by
    /// one.
    pub fn insert(&mut self, index: usize, ch: char)
        requires
            old(self).wf(),
            index <= old(self).text().len(),
            old(self)@.counter < u64::MAX,
        ensures
            final(self).wf(),
            final(self).spec_actor() == old(self).spec_actor(),
            final(self)@.counter == old(self)@.counter + 1,
            final(self)@.tombstones == old(self)@.tombstones,
            final(self)@.nodes == old(self)@.nodes.insert(
                (old(self).spec_actor(), (old(self)@.counter + 1) as u64),
                crate::rga::NodeView {
                    value: ch,
                    parent: if index == 0 {
                        None
                    } else {
                        Some(old(self)@.ids[crate::rga::visible(old(self)@)[index - 1]])
                    },
                },
            ),
            final(self)@.ids == old(self)@.ids.push(
                (old(self).spec_actor(), (old(self)@.counter + 1) as u64),
            ),
            crate::rga::visible(final(self)@) == crate::rga::visible(old(self)@).insert(
                index as int,
                old(self)@.ids.len() as int,
            ),
            final(self).text() == old(self).text().insert(index as int, ch),
    {
        self.chars.insert_at(index, ch);
    }

    /// Inserts a string so that it reads from position `index` on. Its
    /// characters are numbered in a row; the first stands after the
    /// character at `index - 1`, or after the head for index zero, and each
    /// other after the one before it.
    pub fn insert_str(&mut self, index: usize, s: &str)
        requires
            old(self).wf(),
            index <= old(self).text().len(),
            old(self)@.counter + s@.len() <= u64::MAX,
        ensures
            final(self).wf(),
            final(self).spec_actor() == old(self).spec_actor(),
            final(self)@.counter == old(self)@.counter + s@.len(),
            final(self)@.tombstones == old(self)@.tombstones,
            final(self)@.ids == typed_ids(old(self)@, old(self).spec_actor(), s@.len()),
            final(self)@.nodes == typed(old(self)@, old(self).spec_actor(), index as int, s@),
            final(self).text() == old(self).text().take(index as int) + s@ + old(self).text().skip(
                index as int,
            ),
    {
        let n = s.unicode_len();
        let ghost start = self.text();
        let mut i: usize = 0;
        proof {
            assert(self@.ids =~= typed_ids(self@, self.spec_actor(), 0));
            assert(crate::rga::visible(self@).len() == self.text().len());
            assert(s@.take(0) =~= Seq::<char>::empty());
            assert(self.text() =~= start.take(index as int) + s@.take(0) + start.skip(
                index as int,
            ));
        }
        while i < n
            invariant
                self.wf(),
                self.spec_actor() == old(self).spec_actor(),
                self@.tombstones == old(self)@.tombstones,
                n == s@.len(),
                i <= n,
                index <= start.len(),
                start == old(self).text(),
                old(self)@.counter + s@.len() <= u64::MAX,
                self@.counter == old(self)@.counter + i,
                self.text() == start.take(index as int) + s@.take(i as int) + start.skip(
                    index as int,
                ),
                i == 0 ==> self@ == old(self)@,
                i > 0 ==> crate::rga::visible(self@)[index + i - 1] == old(self)@.ids.len() + i - 1,
                crate::rga::visible(self@).len() == start.len() + i,
                self@.ids == typed_ids(old(self)@, old(self).spec_actor(), i as nat),
                self@.nodes == typed(
                    old(self)@,
                    old(self).spec_actor(),
                    index as int,
                    s@.take(i as int),
                ),
            decreases n - i,
        {
            let ch = s.get_char(i);
            let shown = self.len();
            assert(shown == start.len() + i);
            let ghost before = self.text();
            let ghost cur = self@;
            self.insert(index + i, ch);
            proof {
                let next = s@.take(i + 1);
                assert(next.drop_last() =~= s@.take(i as int));
                assert(next.last() == ch);
                if i > 0 {
                    assert(cur.ids[crate::rga::visible(cur)[index + i - 1]] == (
                        old(self).spec_actor(),
                        (old(self)@.counter + i) as u64,
                    ));
                }
                assert(self@.nodes == typed(old(self)@, old(self).spec_actor(), index as int, next));
                assert(self@.ids =~= typed_ids(
                    old(self)@,
                    old(self).spec_actor(),
                    (i + 1) as nat,
                ));
                assert(s@.take(i + 1) =~= s@.take(i as int).push(ch));
                assert(before.insert(index + i, ch) =~= start.take(index as int) + s@.take(i + 1)
                    + start.skip(index as int));
            }
            i += 1;
        }
        assert(s@.take(n as int) =~= s@);
    }

    /// Removes the character at position `index`: it stays in the text as a
    /// tombstone.
    pub fn remove(&mut self, index: usize)
        requires
            old(self).wf(),
            index < old(self).text().len(),
        ensures
            final(self).wf(),
            final(self).spec_actor() == old(self).spec_actor(),
            final(self)@.counter == old(self)@.counter,
            final(self)@.nodes == old(self)@.nodes,
            final(self)@.ids == old(self)@.ids,
            final(self)@.tombstones == old(self)@.tombstones.insert(
                old(self)@.ids[crate::rga::visible(old(self)@)[index as int]],
            ),
            final(self).text() == old(self).text().remove(index as int),
    {
        let _ = self.chars.remove(index);
    }

    /// Removes the `len` characters from position `start` on.
    pub fn remove_range(&mut self, start: usize, len: usize)
        requires
            old(self).wf(),
            start + len <= old(self).text().len(),
        ensures
            final(self).wf(),
            final(self).spec_actor() == old(self).spec_actor(),
            final(self)@.counter == old(self)@.counter,
            final(self)@.nodes == old(self)@.nodes,
            final(self).text() == old(self).text().take(start as int) + old(self).text().skip(
                start + len,
            ),
    {
        let ghost whole = self.text();
        let shown = self.len();
        let mut i: usize = len;
        proof {
            assert(whole =~= whole.take(start + len) + whole.skip(start + len));
        }
        while i > 0
            invariant
                self.wf(),
                self.spec_actor() == old(self).spec_actor(),
                self@.counter == old(self)@.counter,
                self@.nodes == old(self)@.nodes,
                whole == old(self).text(),
                start + len <= whole.len(),
                whole.len() <= usize::MAX,
                i <= len,
                self.text() == whole.take(start + i) + whole.skip(start + len),
            decreases i,
        {
            let ghost before = self.text();
            self.remove(start + i - 1);
            proof {
                assert(before.remove(start + i - 1) =~= whole.take(start + i - 1) + whole.skip(
                    start + len,
                ));
            }
            i -= 1;
        }
    }

    /// The number of characters of the text.
    pub fn len(&self) -> (n: usize)
        requires
            self.wf(),
        ensures
            n == self.text().len(),
    {
        self.chars.len()
    }

    /// Whether the text is empty.
    pub fn is_empty(&self) -> (b: bool)
        requires
            self.wf(),
        ensures
            b == (self.text().len() == 0),
    {
        self.chars.is_empty()
    }

    /// The replica that holds this text.
    pub fn actor(&self) -> (a: &str)
        ensures
            a@ == self.spec_actor(),
    {
        self.chars.actor()
    }

    /// The text as a string.
    pub fn to_string(&self) -> (s: String)
        requires
            self.wf(),
        ensures
            s@ == self.text(),
    {
        let shown = self.chars.iter();
        let ghost views = crate::gset::ref_views::<char>(shown@);
        let mut s = String::new();
        let mut i: usize = 0;
        while i < shown.len()
            invariant
                i <= shown@.len(),
                views == crate::gset::ref_views::<char>(shown@),
                s@ == views.take(i as int),
            decreases shown@.len() - i,
        {
            s.push(*shown[i]);
            assert(views.take(i + 1) =~= views.take(i as int).push(views[i as int]));
            i += 1;
        }
        assert(views.take(i as int) =~= views);
        s
    }
}

impl Crdt for TextCrdt {
    open spec fn valid(&self) -> bool {
        self.wf()
    }

    /// Takes over the characters of `other` that this replica lacks and the
    /// removals of `other`, takes the larger counter, and computes the order
    /// anew.
    fn merge(&mut self, other: &Self)
        ensures
            merged_of(old(self)@, other@, final(self)@),
            final(self).spec_actor() == old(self).spec_actor(),
    {
        self.chars.merge(&other.chars);
    }
}

/// Merging is commutative: two texts that hold the same character wherever
/// they share an identifier read the same after merging each other.
pub proof fn lemma_merge_commutative(a: TextState, b: TextState, ab: TextState, ba: TextState)
    requires
        crate::rga::same_where_shared(a, b),
        merged_of(a, b, ab),
        merged_of(b, a, ba),
    ensures
        visible_values(ab) == visible_values(ba),
{
    crate::rga::lemma_merge_commutative(a, b, ab, ba);
}

/// Merging is associative: three texts read the same in either grouping.
pub proof fn lemma_merge_associative(
    a: TextState,
    b: TextState,
    c: TextState,
    ab: TextState,
    bc: TextState,
    left: TextState,
    right: TextState,
)
    requires
        merged_of(a, b, ab),
        merged_of(ab, c, left),
        merged_of(b, c, bc),
        merged_of(a, bc, right),
    ensures
        visible_values(left) == visible_values(right),
{
    crate::rga::lemma_merge_associative(a, b, c, ab, bc, left, right);
}

/// Merging is idempotent: merging the same text a second time changes
/// nothing.
pub proof fn lemma_merge_idempotent(a: TextState, b: TextState, once: TextState, twice: TextState)
    requires
        merged_of(a, b, once),
        merged_of(once, b, twice),
    ensures
        visible_values(twice) == visible_values(once),
{
    crate::rga::lemma_merge_idempotent(a, b, once, twice);
}

} // verus!
