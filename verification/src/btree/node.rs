//! The nodes of the tree: their shape, the in-order listing of what a subtree
//! holds, and the operations on them.

use crate::btree::entries::{ascending, has_key, index_of, slot_of, Entry};
use crate::btree::order::{key_lt, lawful_order, lemma_order_laws};
use crate::btree::pieces::{lemma_flatten_around, lemma_flatten_pair, lemma_flatten_prefix};
use vstd::prelude::*;
use vstd::seq_lib::lemma_flatten_concat;

verus! {

/// The degree `t` is one that a tree can have: at least 2, and small enough
/// for `2t - 1` to be a length.
pub open spec fn degree_ok(t: usize) -> bool {
    2 <= t <= usize::MAX / 2
}

/// A node holds its entries in ascending order and, unless it is a leaf, one
/// more child than it has entries.
#[derive(Debug)]
pub(crate) struct Node<K: Ord, V> {
    pub(crate) keys: Vec<Entry<K, V>>,
    pub(crate) children: Vec<Node<K, V>>,
}

impl<K: Ord, V> Node<K, V> {
    /// The number of levels from this node down to its leaves.
    pub(crate) open spec fn height(self) -> nat
        decreases self,
    {
        if self.children.len() == 0 {
            1
        } else {
            1 + self.children[0].height()
        }
    }

    /// A node is at least one level high, an inner node one level higher
    /// than its first child.
    pub(crate) proof fn lemma_height_positive(self)
        ensures
            self.height() >= 1,
            self.children.len() > 0 ==> self.height() >= 2,
            self.children.len() > 0 ==> self.height() == self.children[0].height() + 1,
    {
        if self.children.len() > 0 {
            let below = self.children[0];
            assert(below.height() >= 1);
        }
    }

    /// The entry that follows child `i` in this node, if there is one.
    pub(crate) open spec fn sep(self, i: int) -> Seq<Entry<K, V>> {
        if 0 <= i < self.keys.len() {
            seq![self.keys[i]]
        } else {
            Seq::empty()
        }
    }

    /// The listing of the first `n` children of an inner node, each
    /// followed by the entry that separates it from the next child; the
    /// entries themselves for a leaf.
    #[verifier::opaque]
    pub(crate) open spec fn walk(self, n: nat) -> Seq<Entry<K, V>>
        decreases self, n,
    {
        if self.children.len() == 0 {
            self.keys@
        } else if n == 0 || n > self.children.len() {
            Seq::empty()
        } else {
            let child = self.children[n - 1];
            self.walk((n - 1) as nat) + child.walk(child.children.len() as nat) + self.sep(n - 1)
        }
    }

    /// What the subtree under this node holds, in order.
    pub(crate) open spec fn in_order(self) -> Seq<Entry<K, V>> {
        self.walk(self.children.len() as nat)
    }

    /// The pieces of the listing of an inner node, one for each child.
    pub(crate) open spec fn groups(self) -> Seq<Seq<Entry<K, V>>> {
        Seq::new(self.children.len() as nat, |i: int| self.children[i].in_order() + self.sep(i))
    }

    /// What the listing holds before the listing of child `i`.
    #[verifier::opaque]
    pub(crate) open spec fn lead(self, i: int) -> Seq<Entry<K, V>> {
        self.groups().subrange(0, i).flatten()
    }

    /// What the listing holds after child `i` and the entry that follows it.
    #[verifier::opaque]
    pub(crate) open spec fn trail(self, i: int) -> Seq<Entry<K, V>> {
        self.groups().subrange(i + 1, self.children.len() as int).flatten()
    }

    /// The shape that the tree keeps in every subtree: no node holds more
    /// than `2t - 1` entries, an inner node has one child more than entries,
    /// every child holds at least `t - 1` entries, and all children of a node
    /// are equally high.
    pub(crate) open spec fn shape(self, t: nat) -> bool
        decreases self,
    {
        &&& self.keys.len() <= 2 * t - 1
        &&& (self.children.len() == 0 || self.children.len() == self.keys.len() + 1)
        &&& forall|i: int|
            0 <= i < self.children.len() ==> {
                &&& (#[trigger] self.children[i]).shape(t)
                &&& self.children[i].keys.len() >= t - 1
                &&& self.children[i].height() + 1 == self.height()
            }
    }

    /// A leaf is listed as its entries.
    pub(crate) proof fn lemma_leaf(self)
        requires
            self.children.len() == 0,
        ensures
            self.in_order() == self.keys@,
    {
        reveal(Node::walk);
    }

    /// The first `n` children of an inner node are listed as the first `n`
    /// pieces, flattened.
    pub(crate) proof fn lemma_walk_groups(self, n: nat)
        requires
            self.children.len() > 0,
            n <= self.children.len(),
        ensures
            self.walk(n) == self.groups().subrange(0, n as int).flatten(),
        decreases n,
    {
        reveal(Node::walk);
        let g = self.groups();
        if n == 0 {
            assert(g.subrange(0, 0) =~= Seq::<Seq<Entry<K, V>>>::empty());
        } else {
            self.lemma_walk_groups((n - 1) as nat);
            lemma_flatten_prefix(g, n - 1, n as int);
            assert(g.subrange(n - 1, n as int) =~= seq![g[n - 1]]);
            seq![g[n - 1]].lemma_flatten_one_element();
            assert(self.walk(n) =~= self.walk((n - 1) as nat) + g[n - 1]);
        }
    }

    /// The listing of an inner node is its pieces, flattened.
    pub(crate) proof fn lemma_in_order_groups(self)
        requires
            self.children.len() > 0,
        ensures
            self.in_order() == self.groups().flatten(),
    {
        self.lemma_walk_groups(self.children.len() as nat);
        assert(self.groups().subrange(0, self.children.len() as int) =~= self.groups());
    }

    /// The listing of an inner node is what leads up to child `i`, the
    /// child's own listing, the entry after it, and what trails.
    pub(crate) proof fn lemma_span(self, i: int)
        requires
            0 <= i < self.children.len(),
        ensures
            self.in_order() == self.lead(i) + self.children[i].in_order() + self.sep(i)
                + self.trail(i),
            self.in_order().len() == self.lead(i).len() + self.children[i].in_order().len()
                + self.sep(i).len() + self.trail(i).len(),
    {
        reveal(Node::lead);
        reveal(Node::trail);
        self.lemma_in_order_groups();
        lemma_flatten_around(self.groups(), i);
        assert(self.groups().flatten() =~= self.lead(i) + self.children[i].in_order() + self.sep(i)
            + self.trail(i));
    }

    /// What leads up to child `i + 1` is what leads up to child `i`, that
    /// child's listing and the entry after it.
    pub(crate) proof fn lemma_lead_step(self, i: int)
        requires
            0 <= i < self.children.len(),
        ensures
            self.lead(i + 1) == self.lead(i) + self.children[i].in_order() + self.sep(i),
            self.lead(0) == Seq::<Entry<K, V>>::empty(),
    {
        reveal(Node::lead);
        let g = self.groups();
        lemma_flatten_prefix(g, i, i + 1);
        assert(g.subrange(i, i + 1) =~= seq![g[i]]);
        seq![g[i]].lemma_flatten_one_element();
        assert(g.subrange(0, 0) =~= Seq::<Seq<Entry<K, V>>>::empty());
        assert(self.lead(i) + g[i] =~= self.lead(i) + self.children[i].in_order() + self.sep(i));
    }

    /// Two nodes that differ at child `i` and entry `i` alone have the same
    /// listing before and after these.
    pub(crate) proof fn lemma_frame(self, other: Self, i: int)
        requires
            0 <= i < self.children.len(),
            other.keys.len() == self.keys.len(),
            other.children.len() == self.children.len(),
            forall|j: int| 0 <= j < self.keys.len() && j != i ==> other.keys[j] == self.keys[j],
            forall|j: int| 0 <= j < self.children.len() && j != i ==> other.children[j] == self.children[j],
        ensures
            other.lead(i) == self.lead(i),
            other.trail(i) == self.trail(i),
    {
        reveal(Node::lead);
        reveal(Node::trail);
        let n = self.children.len() as int;
        assert(other.groups().subrange(0, i) =~= self.groups().subrange(0, i));
        assert(other.groups().subrange(i + 1, n) =~= self.groups().subrange(i + 1, n));
    }

    /// Two nodes with the same first `n` children and entries have the same
    /// listing up to child `n`.
    pub(crate) proof fn lemma_lead_frame(self, other: Self, n: int)
        requires
            0 <= n <= self.children.len(),
            n <= other.children.len(),
            forall|j: int| 0 <= j < n ==> other.children[j] == self.children[j],
            forall|j: int| 0 <= j < n ==> other.sep(j) == self.sep(j),
        ensures
            other.lead(n) == self.lead(n),
    {
        reveal(Node::lead);
        assert(other.groups().subrange(0, n) =~= self.groups().subrange(0, n));
    }

    /// Two nodes with the same children and entries after child `i` have
    /// the same listing after child `i` and its entry.
    pub(crate) proof fn lemma_trail_frame(self, other: Self, i: int)
        requires
            0 <= i < self.children.len(),
            other.children.len() == self.children.len(),
            forall|j: int| i < j < self.children.len() ==> other.children[j] == self.children[j],
            forall|j: int| i < j < self.children.len() ==> other.sep(j) == self.sep(j),
        ensures
            other.trail(i) == self.trail(i),
    {
        reveal(Node::trail);
        let n = self.children.len() as int;
        assert(other.groups().subrange(i + 1, n) =~= self.groups().subrange(i + 1, n));
    }

    /// Nothing of the listing comes before the first child, and nothing
    /// after the last.
    pub(crate) proof fn lemma_ends(self)
        requires
            self.children.len() == self.keys.len() + 1,
        ensures
            self.lead(0) == Seq::<Entry<K, V>>::empty(),
            self.trail(self.keys.len() as int) == Seq::<Entry<K, V>>::empty(),
            self.sep(self.keys.len() as int) == Seq::<Entry<K, V>>::empty(),
    {
        reveal(Node::lead);
        reveal(Node::trail);
        let n = self.children.len() as int;
        assert(self.groups().subrange(0, 0) =~= Seq::<Seq<Entry<K, V>>>::empty());
        assert(self.groups().subrange(n, n) =~= Seq::<Seq<Entry<K, V>>>::empty());
    }

    /// An inner node without entries is listed as its one child.
    pub(crate) proof fn lemma_single_child(self)
        requires
            self.keys.len() == 0,
            self.children.len() == 1,
        ensures
            self.in_order() == self.children[0].in_order(),
    {
        self.lemma_in_order_groups();
        let c = self.children[0].in_order();
        assert(self.groups() =~= seq![c]);
        lemma_flatten_pair(c, c);
    }

    /// A node is listed as the node without its last entry and last child,
    /// then that entry, then that child.
    pub(crate) proof fn lemma_pop_back(self, rest: Self)
        requires
            self.keys.len() > 0,
            self.children.len() == 0 || self.children.len() == self.keys.len() + 1,
            rest.keys@ == self.keys@.drop_last(),
            self.children.len() == 0 ==> rest.children.len() == 0,
            self.children.len() > 0 ==> rest.children@ == self.children@.drop_last(),
        ensures
            self.children.len() == 0 ==> self.in_order() == rest.in_order() + seq![
                self.keys@.last(),
            ],
            self.children.len() > 0 ==> self.in_order() == rest.in_order() + seq![
                self.keys@.last(),
            ] + self.children@.last().in_order(),
    {
        if self.children.len() == 0 {
            self.lemma_leaf();
            rest.lemma_leaf();
            assert(self.keys@ =~= rest.keys@ + seq![self.keys@.last()]);
        } else {
            let m = self.keys.len() as int;
            let g = self.groups();
            let h = rest.groups();
            self.lemma_in_order_groups();
            rest.lemma_in_order_groups();
            let inner = self.children[m - 1].in_order();
            let outer = self.children[m].in_order();
            assert(g =~= g.subrange(0, m - 1) + seq![g[m - 1], g[m]]);
            assert(h =~= g.subrange(0, m - 1) + seq![inner]);
            lemma_flatten_concat(g.subrange(0, m - 1), seq![g[m - 1], g[m]]);
            lemma_flatten_concat(g.subrange(0, m - 1), seq![inner]);
            lemma_flatten_pair(g[m - 1], g[m]);
            lemma_flatten_pair(inner, inner);
            assert(g[m - 1] =~= inner + seq![self.keys@.last()]);
            assert(g[m] =~= outer);
            assert(self.in_order() =~= rest.in_order() + seq![self.keys@.last()] + outer);
        }
    }

    /// A node is listed as its first child, then its first entry, then the
    /// node without these two.
    pub(crate) proof fn lemma_pop_front(self, rest: Self)
        requires
            self.keys.len() > 0,
            self.children.len() == 0 || self.children.len() == self.keys.len() + 1,
            rest.keys@ == self.keys@.drop_first(),
            self.children.len() == 0 ==> rest.children.len() == 0,
            self.children.len() > 0 ==> rest.children@ == self.children@.drop_first(),
        ensures
            self.children.len() == 0 ==> self.in_order() == seq![self.keys@.first()]
                + rest.in_order(),
            self.children.len() > 0 ==> self.in_order() == self.children@.first().in_order()
                + seq![self.keys@.first()] + rest.in_order(),
    {
        if self.children.len() == 0 {
            self.lemma_leaf();
            rest.lemma_leaf();
            assert(self.keys@ =~= seq![self.keys@.first()] + rest.keys@);
        } else {
            let g = self.groups();
            let h = rest.groups();
            self.lemma_in_order_groups();
            rest.lemma_in_order_groups();
            lemma_flatten_around(g, 0);
            assert(g.subrange(0, 0) =~= Seq::<Seq<Entry<K, V>>>::empty());
            assert(h =~= g.subrange(1, g.len() as int));
            assert(g[0] =~= self.children@.first().in_order() + seq![self.keys@.first()]);
            assert(self.in_order() =~= self.children@.first().in_order() + seq![
                self.keys@.first(),
            ] + rest.in_order());
        }
    }

    /// Where entry `i` of an inner node stands in the node's listing.
    pub(crate) open spec fn key_at(self, i: int) -> int {
        (self.lead(i).len() + self.children[i].in_order().len()) as int
    }

    /// Entry `i` of an inner node stands in the listing right after child
    /// `i`, and before everything that follows.
    pub(crate) proof fn lemma_key_place(self, i: int)
        requires
            self.children.len() == self.keys.len() + 1,
            0 <= i < self.keys.len(),
        ensures
            0 <= self.key_at(i) < self.in_order().len(),
            self.in_order()[self.key_at(i)] == self.keys[i],
            self.key_at(i) + 1 == self.lead(i + 1).len(),
    {
        self.lemma_span(i);
        self.lemma_lead_step(i);
    }

    /// What leads up to a child grows with the child's index.
    pub(crate) proof fn lemma_lead_grows(self, i: int, j: int)
        requires
            0 <= i <= j <= self.children.len(),
        ensures
            self.lead(i).len() <= self.lead(j).len(),
    {
        reveal(Node::lead);
        lemma_flatten_prefix(self.groups(), i, j);
    }

    /// The listing of child `i` is the part of the node's listing that
    /// starts where the lead of `i` ends.
    pub(crate) proof fn lemma_child_place(self, i: int)
        requires
            0 <= i < self.children.len(),
        ensures
            self.lead(i).len() + self.children[i].in_order().len() <= self.in_order().len(),
            self.children[i].in_order() == self.in_order().subrange(
                self.lead(i).len() as int,
                (self.lead(i).len() + self.children[i].in_order().len()) as int,
            ),
    {
        self.lemma_span(i);
        assert(self.children[i].in_order() =~= self.in_order().subrange(
            self.lead(i).len() as int,
            (self.lead(i).len() + self.children[i].in_order().len()) as int,
        ));
    }

    /// Where the listing ascends, so do the node's own entries and the
    /// listing of each child.
    pub(crate) proof fn lemma_parts_ascending(self)
        requires
            lawful_order::<K>(),
            ascending(self.in_order()),
            self.children.len() == 0 || self.children.len() == self.keys.len() + 1,
        ensures
            ascending(self.keys@),
            forall|i: int|
                0 <= i < self.children.len() ==> ascending(
                    (#[trigger] self.children[i]).in_order(),
                ),
    {
        let s = self.in_order();
        if self.children.len() == 0 {
            self.lemma_leaf();
        } else {
            assert forall|i: int, j: int| 0 <= i < j < self.keys.len() implies key_lt(
                #[trigger] self.keys@[i].key,
                #[trigger] self.keys@[j].key,
            ) by {
                self.lemma_key_place(i);
                self.lemma_key_place(j);
                self.lemma_lead_grows(i + 1, j);
            }
            assert forall|i: int| 0 <= i < self.children.len() implies ascending(
                (#[trigger] self.children[i]).in_order(),
            ) by {
                self.lemma_child_place(i);
                let c = self.children[i].in_order();
                let off = self.lead(i).len() as int;
                assert forall|a: int, b: int| 0 <= a < b < c.len() implies key_lt(
                    #[trigger] c[a].key,
                    #[trigger] c[b].key,
                ) by {
                    assert(c[a] == s[off + a]);
                    assert(c[b] == s[off + b]);
                }
            }
        }
    }

    /// Where `key` belongs between entries `i - 1` and `i` of an inner node,
    /// everything the listing holds before child `i` is smaller than `key`
    /// and everything after the child is greater.
    pub(crate) proof fn lemma_route(self, i: int, key: K)
        requires
            lawful_order::<K>(),
            ascending(self.in_order()),
            self.children.len() == self.keys.len() + 1,
            slot_of(self.keys@, key, i),
            i < self.keys.len() ==> self.keys[i].key != key,
        ensures
            forall|p: int| 0 <= p < self.lead(i).len() ==> key_lt(#[trigger] self.in_order()[p].key, key),
            forall|p: int|
                self.lead(i).len() + self.children[i].in_order().len() <= p < self.in_order().len()
                    ==> key_lt(key, #[trigger] self.in_order()[p].key),
    {
        reveal(Node::trail);
        lemma_order_laws::<K>();
        let s = self.in_order();
        self.lemma_span(i);
        if i > 0 {
            self.lemma_key_place(i - 1);
            let q = self.key_at(i - 1);
            assert(key_lt(self.keys@[i - 1].key, key));
            assert forall|p: int| 0 <= p < self.lead(i).len() implies key_lt(
                #[trigger] s[p].key,
                key,
            ) by {
                if p < q {
                    assert(key_lt(s[p].key, s[q].key));
                }
            }
        } else {
            self.lemma_lead_step(0);
        }
        if i < self.keys.len() {
            self.lemma_key_place(i);
            let q = self.key_at(i);
            assert(!key_lt(self.keys@[i].key, key));
            assert(key_lt(key, s[q].key));
            assert forall|p: int|
                self.lead(i).len() + self.children[i].in_order().len() <= p < s.len() implies key_lt(
                key,
                #[trigger] s[p].key,
            ) by {
                if q < p {
                    assert(key_lt(s[q].key, s[p].key));
                }
            }
        } else {
            assert(self.groups().subrange(i + 1, self.children.len() as int)
                =~= Seq::<Seq<Entry<K, V>>>::empty());
        }
    }

    /// Replacing entry `i` of an inner node replaces it in the listing, at
    /// its place, and changes nothing else.
    pub(crate) proof fn lemma_key_update(self, other: Self, i: int)
        requires
            self.children.len() == self.keys.len() + 1,
            0 <= i < self.keys.len(),
            other.children@ == self.children@,
            other.keys@ == self.keys@.update(i, other.keys[i]),
        ensures
            other.in_order() == self.in_order().update(self.key_at(i), other.keys[i]),
            other.key_at(i) == self.key_at(i),
    {
        reveal(Node::lead);
        reveal(Node::trail);
        let n = self.children.len() as int;
        self.lemma_span(i);
        other.lemma_span(i);
        assert(other.groups().subrange(0, i) =~= self.groups().subrange(0, i));
        assert(other.groups().subrange(i + 1, n) =~= self.groups().subrange(i + 1, n));
        assert(other.in_order() =~= self.in_order().update(self.key_at(i), other.keys[i]));
    }

    /// A node with the same entries, whose child `i` alone is another, is
    /// listed with that child's listing in place of the old one.
    pub(crate) proof fn lemma_child_update(self, other: Self, i: int)
        requires
            0 <= i < self.children.len(),
            other.keys@ == self.keys@,
            other.children@ == self.children@.update(i, other.children[i]),
        ensures
            other.in_order() == self.lead(i) + other.children[i].in_order() + self.sep(i)
                + self.trail(i),
            other.lead(i) == self.lead(i),
            other.trail(i) == self.trail(i),
    {
        self.lemma_frame(other, i);
        other.lemma_span(i);
    }

    /// Entry `i` of an inner node stands in the listing where its key
    /// belongs.
    pub(crate) proof fn lemma_found(self, i: int)
        requires
            lawful_order::<K>(),
            ascending(self.in_order()),
            self.children.len() == self.keys.len() + 1,
            0 <= i < self.keys.len(),
        ensures
            0 <= self.key_at(i) < self.in_order().len(),
            self.in_order()[self.key_at(i)] == self.keys[i],
            slot_of(self.in_order(), self.keys[i].key, self.key_at(i)),
    {
        lemma_order_laws::<K>();
        let s = self.in_order();
        let at = self.key_at(i);
        self.lemma_key_place(i);
        assert forall|p: int| at <= p < s.len() implies !key_lt(#[trigger] s[p].key, s[at].key) by {
            if at < p {
                assert(key_lt(s[at].key, s[p].key));
            }
        }
        assert forall|p: int| 0 <= p < at implies key_lt(#[trigger] s[p].key, s[at].key) by {
            assert(key_lt(s[p].key, s[at].key));
        }
    }

    /// Where `key` belongs under child `i`, its place in the child's listing
    /// gives its place in the node's.
    pub(crate) proof fn lemma_descend(self, i: int, key: K, pos: int)
        requires
            lawful_order::<K>(),
            ascending(self.in_order()),
            self.children.len() == self.keys.len() + 1,
            slot_of(self.keys@, key, i),
            i < self.keys.len() ==> self.keys[i].key != key,
            slot_of(self.children[i].in_order(), key, pos),
        ensures
            slot_of(self.in_order(), key, self.lead(i).len() + pos),
            self.lead(i).len() + self.children[i].in_order().len() <= self.in_order().len(),
            forall|p: int|
                0 <= p < self.children[i].in_order().len() ==> self.in_order()[self.lead(i).len() + p]
                    == #[trigger] self.children[i].in_order()[p],
            has_key(self.in_order(), key) <==> has_key(self.children[i].in_order(), key),
    {
        let s = self.in_order();
        let c = self.children[i].in_order();
        let off = self.lead(i).len() as int;
        self.lemma_route(i, key);
        self.lemma_child_place(i);
        lemma_order_laws::<K>();
        assert forall|p: int| 0 <= p < off + pos implies key_lt(#[trigger] s[p].key, key) by {
            if p >= off {
                assert(s[p] == c[p - off]);
            }
        }
        assert forall|p: int| off + pos <= p < s.len() implies !key_lt(#[trigger] s[p].key, key) by {
            if p < off + c.len() {
                assert(s[p] == c[p - off]);
            }
        }
        if has_key(s, key) {
            let q = index_of(s, key);
            if off <= q < off + c.len() {
                assert(c[q - off] == s[q]);
            }
        }
        if has_key(c, key) {
            let q = index_of(c, key);
            assert(s[off + q] == c[q]);
        }
    }

    /// A node whose entries were replaced one for one, and whose child `i`
    /// alone is another, of the tree's shape, as high as the old one and
    /// with enough entries, has the tree's shape still.
    pub(crate) proof fn lemma_shape_kept(self, other: Self, i: int, t: nat)
        requires
            self.shape(t),
            0 <= i < self.children.len(),
            other.keys.len() == self.keys.len(),
            other.children@ == self.children@.update(i, other.children[i]),
            other.children[i].shape(t),
            other.children[i].height() == self.children[i].height(),
            other.children[i].keys.len() >= t - 1,
        ensures
            other.shape(t),
            other.height() == self.height(),
    {
        assert(self.children[0].height() + 1 == self.height());
        assert forall|j: int| 0 <= j < other.children.len() implies {
            &&& (#[trigger] other.children[j]).shape(t)
            &&& other.children[j].keys.len() >= t - 1
            &&& other.children[j].height() + 1 == other.height()
        } by {
            if j != i {
                assert(other.children[j] == self.children[j]);
            }
            assert(self.children[j].height() + 1 == self.height());
        }
    }
}

/// Where `key` belongs at `i` among entries and another entry is put in
/// there, `key` belongs before it or after it, as the two compare.
pub proof fn lemma_slot_beside<K: Ord, V>(s: Seq<Entry<K, V>>, key: K, i: int, e: Entry<K, V>)
    requires
        lawful_order::<K>(),
        slot_of(s, key, i),
    ensures
        key_lt(key, e.key) ==> slot_of(s.insert(i, e), key, i),
        key_lt(e.key, key) ==> slot_of(s.insert(i, e), key, i + 1),
{
    lemma_order_laws::<K>();
    let r = s.insert(i, e);
    if key_lt(key, e.key) {
        assert forall|p: int| i <= p < r.len() implies !key_lt(#[trigger] r[p].key, key) by {
            if p > i {
                assert(r[p] == s[p - 1]);
            }
        }
    }
    if key_lt(e.key, key) {
        assert forall|p: int| i + 1 <= p < r.len() implies !key_lt(#[trigger] r[p].key, key) by {
            assert(r[p] == s[p - 1]);
        }
    }
}

/// Where `c` is the part of `s` that starts at `off`, everything before it
/// is smaller than `key` and everything after it is greater, the place of
/// `key` in `c` gives its place in `s`.
pub proof fn lemma_within<K: Ord, V>(
    s: Seq<Entry<K, V>>,
    c: Seq<Entry<K, V>>,
    off: int,
    key: K,
    pos: int,
)
    requires
        lawful_order::<K>(),
        0 <= off,
        off + c.len() <= s.len(),
        c == s.subrange(off, off + c.len()),
        forall|p: int| 0 <= p < off ==> key_lt(#[trigger] s[p].key, key),
        forall|p: int| off + c.len() <= p < s.len() ==> key_lt(key, #[trigger] s[p].key),
        slot_of(c, key, pos),
    ensures
        slot_of(s, key, off + pos),
        (off + pos < s.len() && s[off + pos].key == key) <==> (pos < c.len() && c[pos].key == key),
{
    lemma_order_laws::<K>();
    assert forall|p: int| 0 <= p < off + pos implies key_lt(#[trigger] s[p].key, key) by {
        if p >= off {
            assert(s[p] == c[p - off]);
        }
    }
    assert forall|p: int| off + pos <= p < s.len() implies !key_lt(#[trigger] s[p].key, key) by {
        if p < off + c.len() {
            assert(s[p] == c[p - off]);
        }
    }
    if pos < c.len() {
        assert(s[off + pos] == c[pos]);
    }
}

} // verus!
