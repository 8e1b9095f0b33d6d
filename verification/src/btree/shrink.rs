//! The repairs that deletion makes on its way down: a child that holds the
//! minimum number of entries borrows one from a sibling through the parent,
//! or is merged with a sibling around the entry that separates them.

use crate::btree::entries::Entry;
use crate::btree::node::{degree_ok, Node};
use crate::btree::pieces::{lemma_flatten_pair, lemma_flatten_splice};
use vstd::prelude::*;

verus! {

impl<K: Ord, V> Node<K, V> {
    /// Two children of one node are both leaves or both inner nodes.
    pub(crate) proof fn lemma_siblings_alike(self, a: int, b: int, t: nat)
        requires
            self.shape(t),
            0 <= a < self.children.len(),
            0 <= b < self.children.len(),
        ensures
            self.children[a].height() == self.children[b].height(),
            (self.children[a].children.len() == 0) == (self.children[b].children.len() == 0),
            self.children[a].shape(t),
            self.children[b].shape(t),
    {
        self.children[a].lemma_height_positive();
        self.children[b].lemma_height_positive();
    }

    /// `after` is this node with child `i`, entry `i` and child `i + 1`
    /// merged: the entry has left the node, child `i + 1` with it, and child
    /// `i` holds its own entries, then the entry, then those of child
    /// `i + 1`, and the children of both in the same order.
    pub(crate) open spec fn merges_into(self, after: Self, i: int) -> bool {
        &&& after.keys@ == self.keys@.remove(i)
        &&& after.children@ == self.children@.remove(i + 1).update(i, after.children[i])
        &&& after.children[i].keys@ == self.children[i].keys@ + seq![self.keys[i]]
            + self.children[i + 1].keys@
        &&& after.children[i].children@ == self.children[i].children@ + self.children[i
            + 1].children@
    }

    /// A merge keeps the shape of the node, its height and its listing.
    proof fn lemma_merged(self, after: Self, i: int, t: nat)
        requires
            t >= 2,
            self.shape(t),
            self.children.len() == self.keys.len() + 1,
            0 <= i < self.keys.len(),
            self.children[i].keys.len() == t - 1,
            self.children[i + 1].keys.len() == t - 1,
            self.merges_into(after, i),
        ensures
            after.shape(t),
            after.height() == self.height(),
            after.in_order() == self.in_order(),
            after.children[i].in_order() == self.children[i].in_order() + seq![self.keys[i]]
                + self.children[i + 1].in_order(),
            after.lead(i) == self.lead(i),
    {
        let l = self.children[i];
        let r = self.children[i + 1];
        let m = after.children[i];
        let n = self.children.len() as int;
        self.lemma_siblings_alike(i, i + 1, t);
        self.lemma_height_positive();
        l.lemma_height_positive();
        r.lemma_height_positive();
        assert(l.keys@ =~= m.keys@.subrange(0, t - 1));
        assert(r.keys@ =~= m.keys@.subrange(t as int, 2 * t - 1));
        if l.children.len() > 0 {
            assert(l.children@ =~= m.children@.subrange(0, t as int));
            assert(r.children@ =~= m.children@.subrange(t as int, 2 * (t as int)));
            assert(m.children[0] == l.children[0]);
        }
        m.lemma_halves(l, r, t as int);
        assert(m.height() == l.height());
        assert(m.shape(t)) by {
            assert forall|j: int| 0 <= j < m.children.len() implies {
                &&& (#[trigger] m.children[j]).shape(t)
                &&& m.children[j].keys.len() >= t - 1
                &&& m.children[j].height() + 1 == m.height()
            } by {
                if j < t {
                    assert(m.children[j] == l.children[j]);
                } else {
                    assert(m.children[j] == r.children[j - t]);
                }
            }
        }
        assert(after.height() == self.height()) by {
            if i == 0 {
                assert(after.children[0] == m);
            } else {
                assert(after.children[0] == self.children[0]);
            }
        }
        assert(after.shape(t)) by {
            assert forall|j: int| 0 <= j < after.children.len() implies {
                &&& (#[trigger] after.children[j]).shape(t)
                &&& after.children[j].keys.len() >= t - 1
                &&& after.children[j].height() + 1 == after.height()
            } by {
                if j < i {
                    assert(after.children[j] == self.children[j]);
                } else if j > i {
                    assert(after.children[j] == self.children[j + 1]);
                }
            }
        }
        let g = self.groups();
        let piece = m.in_order() + self.sep(i + 1);
        self.lemma_in_order_groups();
        after.lemma_in_order_groups();
        lemma_flatten_pair(piece, piece);
        lemma_flatten_pair(g[i], g[i + 1]);
        assert(g.subrange(i, i + 2) =~= seq![g[i], g[i + 1]]);
        assert(piece =~= g[i] + g[i + 1]);
        lemma_flatten_splice(g, i, i + 2, seq![piece]);
        assert(after.groups() =~= g.subrange(0, i) + seq![piece] + g.subrange(i + 2, n)) by {
            assert forall|j: int| 0 <= j < after.children.len() implies after.groups()[j] == (
            g.subrange(0, i) + seq![piece] + g.subrange(i + 2, n))[j] by {
                if j < i {
                    assert(after.children[j] == self.children[j]);
                    assert(after.sep(j) == self.sep(j));
                } else if j == i {
                    assert(after.sep(j) =~= self.sep(i + 1));
                } else {
                    assert(after.children[j] == self.children[j + 1]);
                    assert(after.sep(j) =~= self.sep(j + 1));
                }
            }
        }
        self.lemma_lead_frame(after, i);
    }

    /// Merges child `i`, the entry that follows it, and child `i + 1` into
    /// one child at `i`. Both children hold the minimum number of entries;
    /// the merged child is full.
    pub(crate) fn merge_children(&mut self, i: usize, t: usize)
        requires
            degree_ok(t),
            old(self).shape(t as nat),
            old(self).children.len() == old(self).keys.len() + 1,
            i < old(self).keys.len(),
            old(self).children[i as int].keys.len() == t - 1,
            old(self).children[i + 1].keys.len() == t - 1,
        ensures
            old(self).merges_into(*final(self), i as int),
            final(self).shape(t as nat),
            final(self).height() == old(self).height(),
            final(self).in_order() == old(self).in_order(),
            final(self).keys@ == old(self).keys@.remove(i as int),
            final(self).children.len() == old(self).children.len() - 1,
            final(self).children[i as int].keys.len() == 2 * t - 1,
            final(self).children[i as int].in_order() == old(self).children[i as int].in_order()
                + seq![old(self).keys[i as int]] + old(self).children[i + 1].in_order(),
            final(self).lead(i as int) == old(self).lead(i as int),
    {
        let ghost before = *self;
        let sep = self.keys.remove(i);
        let mut right = self.children.remove(i + 1);
        let left = &mut self.children[i];
        left.keys.push(sep);
        left.keys.append(&mut right.keys);
        left.children.append(&mut right.children);
        proof {
            assert(self.children@ =~= before.children@.remove(i + 1).update(
                i as int,
                self.children[i as int],
            ));
            assert(self.children[i as int].keys@ =~= before.children[i as int].keys@ + seq![
                before.keys[i as int],
            ] + before.children[i + 1].keys@);
            before.lemma_merged(*self, i as int, t as nat);
        }
    }

    /// `after` is this node with an entry moved from child `i - 1` through
    /// the node into child `i`: the last entry of child `i - 1` stands in
    /// the node in place of entry `i - 1`, which stands first in child `i`;
    /// and the last child of child `i - 1`, if it has children, is the first
    /// child of child `i`.
    pub(crate) open spec fn borrows_left_into(self, after: Self, i: int) -> bool {
        &&& after.keys@ == self.keys@.update(i - 1, self.children[i - 1].keys@.last())
        &&& after.children@ == self.children@.update(i - 1, after.children[i - 1]).update(
            i,
            after.children[i],
        )
        &&& after.children[i - 1].keys@ == self.children[i - 1].keys@.drop_last()
        &&& after.children[i].keys@ == seq![self.keys[i - 1]] + self.children[i].keys@
        &&& self.children[i - 1].children.len() == 0 ==> after.children[i - 1].children.len() == 0
            && after.children[i].children.len() == 0
        &&& self.children[i - 1].children.len() > 0 ==> after.children[i - 1].children@
            == self.children[i - 1].children@.drop_last() && after.children[i].children@
            == seq![self.children[i - 1].children@.last()] + self.children[i].children@
    }

    /// An entry borrowed from the left keeps the shape of the node, its
    /// height and its listing, and lets child `i` begin earlier in the
    /// listing and end where it did.
    proof fn lemma_borrowed_left(self, after: Self, i: int, t: nat)
        requires
            t >= 2,
            self.shape(t),
            self.children.len() == self.keys.len() + 1,
            1 <= i < self.children.len(),
            self.children[i - 1].keys.len() >= t,
            self.children[i].keys.len() < 2 * t - 1,
            self.borrows_left_into(after, i),
        ensures
            after.shape(t),
            after.height() == self.height(),
            after.in_order() == self.in_order(),
            after.lead(i).len() <= self.lead(i).len(),
            after.lead(i).len() + after.children[i].in_order().len() == self.lead(i).len()
                + self.children[i].in_order().len(),
    {
        let l = self.children[i - 1];
        let c = self.children[i];
        let l2 = after.children[i - 1];
        let c2 = after.children[i];
        let up = l.keys@.last();
        let down = self.keys[i - 1];
        let n = self.children.len() as int;
        self.lemma_siblings_alike(i - 1, i, t);
        self.lemma_height_positive();
        l.lemma_height_positive();
        c.lemma_height_positive();
        l.lemma_pop_back(l2);
        assert(c.keys@ =~= c2.keys@.drop_first());
        if l.children.len() > 0 {
            assert(c.children@ =~= c2.children@.drop_first());
            assert(l2.children[0] == l.children[0]);
            assert(c2.children[0] == l.children@.last());
            assert(l.children@.last().height() + 1 == l.height());
        }
        c2.lemma_pop_front(c);
        assert(l2.height() == l.height());
        assert(c2.height() == c.height());
        assert(l2.shape(t)) by {
            assert forall|j: int| 0 <= j < l2.children.len() implies {
                &&& (#[trigger] l2.children[j]).shape(t)
                &&& l2.children[j].keys.len() >= t - 1
                &&& l2.children[j].height() + 1 == l2.height()
            } by {
                assert(l2.children[j] == l.children[j]);
            }
        }
        assert(c2.shape(t)) by {
            assert forall|j: int| 0 <= j < c2.children.len() implies {
                &&& (#[trigger] c2.children[j]).shape(t)
                &&& c2.children[j].keys.len() >= t - 1
                &&& c2.children[j].height() + 1 == c2.height()
            } by {
                if j == 0 {
                    assert(c2.children[j] == l.children@.last());
                } else {
                    assert(c2.children[j] == c.children[j - 1]);
                }
            }
        }
        assert(after.height() == self.height()) by {
            if i == 1 {
                assert(after.children[0] == l2);
            } else {
                assert(after.children[0] == self.children[0]);
            }
        }
        assert(after.shape(t)) by {
            assert forall|j: int| 0 <= j < after.children.len() implies {
                &&& (#[trigger] after.children[j]).shape(t)
                &&& after.children[j].keys.len() >= t - 1
                &&& after.children[j].height() + 1 == after.height()
            } by {
                if j != i - 1 && j != i {
                    assert(after.children[j] == self.children[j]);
                }
            }
        }
        let g = self.groups();
        let pair = seq![l2.in_order() + seq![up], c2.in_order() + self.sep(i)];
        self.lemma_in_order_groups();
        after.lemma_in_order_groups();
        lemma_flatten_pair(l2.in_order() + seq![up], c2.in_order() + self.sep(i));
        lemma_flatten_pair(g[i - 1], g[i]);
        assert(g.subrange(i - 1, i + 1) =~= seq![g[i - 1], g[i]]);
        assert(g[i - 1] =~= l.in_order() + seq![down]);
        assert(pair.flatten() =~= g[i - 1] + g[i]);
        lemma_flatten_splice(g, i - 1, i + 1, pair);
        assert(after.groups() =~= g.subrange(0, i - 1) + pair + g.subrange(i + 1, n)) by {
            assert forall|j: int| 0 <= j < after.children.len() implies after.groups()[j] == (
            g.subrange(0, i - 1) + pair + g.subrange(i + 1, n))[j] by {
                if j < i - 1 {
                    assert(after.children[j] == self.children[j]);
                    assert(after.sep(j) == self.sep(j));
                } else if j == i - 1 {
                    assert(after.sep(j) =~= seq![up]);
                } else if j == i {
                    assert(after.sep(j) =~= self.sep(i));
                } else {
                    assert(after.children[j] == self.children[j]);
                    assert(after.sep(j) =~= self.sep(j));
                }
            }
        }
        self.lemma_lead_frame(after, i - 1);
        self.lemma_lead_step(i - 1);
        after.lemma_lead_step(i - 1);
        assert(after.sep(i - 1) =~= seq![up]);
    }

    /// Moves the last entry of child `i - 1` up into this node, the entry
    /// that separates the two children down to the front of child `i`, and
    /// the last child of child `i - 1` over to the front of child `i`.
    pub(crate) fn borrow_left(&mut self, i: usize, t: usize)
        requires
            degree_ok(t),
            old(self).shape(t as nat),
            old(self).children.len() == old(self).keys.len() + 1,
            1 <= i < old(self).children.len(),
            old(self).children[i - 1].keys.len() >= t,
            old(self).children[i as int].keys.len() < 2 * t - 1,
        ensures
            old(self).borrows_left_into(*final(self), i as int),
            final(self).shape(t as nat),
            final(self).height() == old(self).height(),
            final(self).in_order() == old(self).in_order(),
            final(self).keys.len() == old(self).keys.len(),
            final(self).children.len() == old(self).children.len(),
            final(self).children[i as int].keys.len() == old(self).children[i as int].keys.len()
                + 1,
            final(self).lead(i as int).len() <= old(self).lead(i as int).len(),
            final(self).lead(i as int).len() + final(self).children[i as int].in_order().len()
                == old(self).lead(i as int).len() + old(self).children[i as int].in_order().len(),
    {
        let ghost before = *self;
        proof {
            before.lemma_siblings_alike(i - 1, i as int, t as nat);
        }
        let left = &mut self.children[i - 1];
        let mut moved = left.keys.pop().unwrap();
        let carried = left.children.pop();
        std::mem::swap(&mut self.keys[i - 1], &mut moved);
        let child = &mut self.children[i];
        child.keys.insert(0, moved);
        match carried {
            Some(node) => {
                child.children.insert(0, node);
            },
            None => {},
        }
        proof {
            assert(self.keys@ =~= before.keys@.update(
                i - 1,
                before.children[i - 1].keys@.last(),
            ));
            assert(self.children@ =~= before.children@.update(
                i - 1,
                self.children[i - 1],
            ).update(i as int, self.children[i as int]));
            assert(self.children[i - 1].keys@ =~= before.children[i - 1].keys@.drop_last());
            assert(self.children[i as int].keys@ =~= seq![before.keys[i - 1]] + before.children[i as int].keys@);
            if before.children[i - 1].children.len() > 0 {
                assert(self.children[i - 1].children@ =~= before.children[i
                    - 1].children@.drop_last());
                assert(self.children[i as int].children@ =~= seq![
                    before.children[i - 1].children@.last(),
                ] + before.children[i as int].children@);
            }
            before.lemma_borrowed_left(*self, i as int, t as nat);
        }
    }

    /// `after` is this node with an entry moved from child `i + 1` through
    /// the node into child `i`: the first entry of child `i + 1` stands in
    /// the node in place of entry `i`, which stands last in child `i`; and
    /// the first child of child `i + 1`, if it has children, is the last
    /// child of child `i`.
    pub(crate) open spec fn borrows_right_into(self, after: Self, i: int) -> bool {
        &&& after.keys@ == self.keys@.update(i, self.children[i + 1].keys@.first())
        &&& after.children@ == self.children@.update(i, after.children[i]).update(
            i + 1,
            after.children[i + 1],
        )
        &&& after.children[i + 1].keys@ == self.children[i + 1].keys@.drop_first()
        &&& after.children[i].keys@ == self.children[i].keys@ + seq![self.keys[i]]
        &&& self.children[i + 1].children.len() == 0 ==> after.children[i + 1].children.len() == 0
            && after.children[i].children.len() == 0
        &&& self.children[i + 1].children.len() > 0 ==> after.children[i + 1].children@
            == self.children[i + 1].children@.drop_first() && after.children[i].children@
            == self.children[i].children@ + seq![self.children[i + 1].children@.first()]
    }

    /// An entry borrowed from the right keeps the shape of the node, its
    /// height and its listing, and lets child `i` begin where it did in the
    /// listing and end later.
    proof fn lemma_borrowed_right(self, after: Self, i: int, t: nat)
        requires
            t >= 2,
            self.shape(t),
            self.children.len() == self.keys.len() + 1,
            0 <= i < self.keys.len(),
            self.children[i + 1].keys.len() >= t,
            self.children[i].keys.len() < 2 * t - 1,
            self.borrows_right_into(after, i),
        ensures
            after.shape(t),
            after.height() == self.height(),
            after.in_order() == self.in_order(),
            after.lead(i) == self.lead(i),
            after.children[i].in_order().len() >= self.children[i].in_order().len(),
    {
        let r = self.children[i + 1];
        let c = self.children[i];
        let r2 = after.children[i + 1];
        let c2 = after.children[i];
        let up = r.keys@.first();
        let down = self.keys[i];
        let n = self.children.len() as int;
        self.lemma_siblings_alike(i, i + 1, t);
        self.lemma_height_positive();
        r.lemma_height_positive();
        c.lemma_height_positive();
        r.lemma_pop_front(r2);
        assert(c.keys@ =~= c2.keys@.drop_last());
        if r.children.len() > 0 {
            assert(c.children@ =~= c2.children@.drop_last());
            assert(r2.children[0] == r.children[1]);
            assert(c2.children[0] == c.children[0]);
            assert(r.children[1].height() + 1 == r.height());
            assert(c2.children@.last() == r.children@.first());
        }
        c2.lemma_pop_back(c);
        assert(c2.keys@.last() == down);
        assert(r2.height() == r.height());
        assert(c2.height() == c.height());
        assert(r2.shape(t)) by {
            assert forall|j: int| 0 <= j < r2.children.len() implies {
                &&& (#[trigger] r2.children[j]).shape(t)
                &&& r2.children[j].keys.len() >= t - 1
                &&& r2.children[j].height() + 1 == r2.height()
            } by {
                assert(r2.children[j] == r.children[j + 1]);
            }
        }
        assert(c2.shape(t)) by {
            assert forall|j: int| 0 <= j < c2.children.len() implies {
                &&& (#[trigger] c2.children[j]).shape(t)
                &&& c2.children[j].keys.len() >= t - 1
                &&& c2.children[j].height() + 1 == c2.height()
            } by {
                if j == c2.children.len() - 1 {
                    assert(c2.children[j] == r.children@.first());
                    assert(r.children[0].height() + 1 == r.height());
                } else {
                    assert(c2.children[j] == c.children[j]);
                }
            }
        }
        assert(after.height() == self.height()) by {
            if i == 0 {
                assert(after.children[0] == c2);
            } else {
                assert(after.children[0] == self.children[0]);
            }
        }
        assert(after.shape(t)) by {
            assert forall|j: int| 0 <= j < after.children.len() implies {
                &&& (#[trigger] after.children[j]).shape(t)
                &&& after.children[j].keys.len() >= t - 1
                &&& after.children[j].height() + 1 == after.height()
            } by {
                if j != i + 1 && j != i {
                    assert(after.children[j] == self.children[j]);
                }
            }
        }
        let g = self.groups();
        let pair = seq![c2.in_order() + seq![up], r2.in_order() + self.sep(i + 1)];
        self.lemma_in_order_groups();
        after.lemma_in_order_groups();
        lemma_flatten_pair(c2.in_order() + seq![up], r2.in_order() + self.sep(i + 1));
        lemma_flatten_pair(g[i], g[i + 1]);
        assert(g.subrange(i, i + 2) =~= seq![g[i], g[i + 1]]);
        assert(g[i] =~= c.in_order() + seq![down]);
        assert(pair.flatten() =~= g[i] + g[i + 1]);
        lemma_flatten_splice(g, i, i + 2, pair);
        assert(after.groups() =~= g.subrange(0, i) + pair + g.subrange(i + 2, n)) by {
            assert forall|j: int| 0 <= j < after.children.len() implies after.groups()[j] == (
            g.subrange(0, i) + pair + g.subrange(i + 2, n))[j] by {
                if j < i {
                    assert(after.children[j] == self.children[j]);
                    assert(after.sep(j) == self.sep(j));
                } else if j == i {
                    assert(after.sep(j) =~= seq![up]);
                } else if j == i + 1 {
                    assert(after.sep(j) =~= self.sep(i + 1));
                } else {
                    assert(after.children[j] == self.children[j]);
                    assert(after.sep(j) =~= self.sep(j));
                }
            }
        }
        self.lemma_lead_frame(after, i);
    }

    /// Moves the first entry of child `i + 1` up into this node, the entry
    /// that separates the two children down to the end of child `i`, and the
    /// first child of child `i + 1` over to the end of child `i`.
    pub(crate) fn borrow_right(&mut self, i: usize, t: usize)
        requires
            degree_ok(t),
            old(self).shape(t as nat),
            old(self).children.len() == old(self).keys.len() + 1,
            i < old(self).keys.len(),
            old(self).children[i + 1].keys.len() >= t,
            old(self).children[i as int].keys.len() < 2 * t - 1,
        ensures
            old(self).borrows_right_into(*final(self), i as int),
            final(self).shape(t as nat),
            final(self).height() == old(self).height(),
            final(self).in_order() == old(self).in_order(),
            final(self).keys.len() == old(self).keys.len(),
            final(self).children.len() == old(self).children.len(),
            final(self).children[i as int].keys.len() == old(self).children[i as int].keys.len()
                + 1,
            final(self).lead(i as int) == old(self).lead(i as int),
            final(self).children[i as int].in_order().len() >= old(self).children[i as int].in_order().len(),
    {
        let ghost before = *self;
        proof {
            before.lemma_siblings_alike(i as int, i + 1, t as nat);
        }
        let right = &mut self.children[i + 1];
        let mut moved = right.keys.remove(0);
        let carried = if right.children.len() > 0 {
            Some(right.children.remove(0))
        } else {
            None
        };
        std::mem::swap(&mut self.keys[i], &mut moved);
        let child = &mut self.children[i];
        child.keys.push(moved);
        match carried {
            Some(node) => {
                child.children.push(node);
            },
            None => {},
        }
        proof {
            assert(self.keys@ =~= before.keys@.update(
                i as int,
                before.children[i + 1].keys@.first(),
            ));
            assert(self.children@ =~= before.children@.update(
                i as int,
                self.children[i as int],
            ).update(i + 1, self.children[i + 1]));
            assert(self.children[i + 1].keys@ =~= before.children[i + 1].keys@.drop_first());
            assert(self.children[i as int].keys@ =~= before.children[i as int].keys@ + seq![
                before.keys[i as int],
            ]);
            if before.children[i + 1].children.len() > 0 {
                assert(self.children[i + 1].children@ =~= before.children[i
                    + 1].children@.drop_first());
                assert(self.children[i as int].children@ =~= before.children[i as int].children@
                    + seq![before.children[i + 1].children@.first()]);
            }
            before.lemma_borrowed_right(*self, i as int, t as nat);
        }
    }

    /// `after` is what the repair of child `i` makes of this node, and `j`
    /// is where the child stands after it: nothing, where the child holds
    /// `t` entries or more; else an entry borrowed from the left sibling,
    /// where there is one that holds `t` or more; else one borrowed from the
    /// right sibling, likewise; else a merge with the right sibling, where
    /// there is one; else a merge with the left sibling, into which the
    /// child goes.
    pub(crate) open spec fn fixes_into(self, after: Self, i: int, j: int, t: int) -> bool {
        if self.children[i].keys.len() >= t {
            j == i && after == self
        } else if i > 0 && self.children[i - 1].keys.len() >= t {
            j == i && self.borrows_left_into(after, i)
        } else if i + 1 < self.children.len() && self.children[i + 1].keys.len() >= t {
            j == i && self.borrows_right_into(after, i)
        } else if i + 1 < self.children.len() {
            j == i && self.merges_into(after, i)
        } else {
            j == i - 1 && self.merges_into(after, i - 1)
        }
    }

    /// Makes sure that child `index` holds at least `t` entries, so that one
    /// can be taken out of it: by borrowing from the left sibling if that
    /// can spare one, else from the right sibling, else by merging the child
    /// with a sibling, the right one if there is one. Returns the index at
    /// which the child, or what it was merged into, now stands.
    pub(crate) fn fix_child_size(&mut self, index: usize, t: usize) -> (j: usize)
        requires
            degree_ok(t),
            old(self).shape(t as nat),
            old(self).children.len() == old(self).keys.len() + 1,
            old(self).keys.len() >= 1,
            index < old(self).children.len(),
        ensures
            old(self).fixes_into(*final(self), index as int, j as int, t as int),
            final(self).shape(t as nat),
            final(self).height() == old(self).height(),
            final(self).in_order() == old(self).in_order(),
            final(self).children.len() == final(self).keys.len() + 1,
            final(self).keys.len() <= old(self).keys.len(),
            final(self).keys.len() + 1 >= old(self).keys.len(),
            j < final(self).children.len(),
            final(self).children[j as int].keys.len() >= t,
            index == 0 ==> j == 0,
            index == old(self).keys.len() ==> j == final(self).keys.len(),
            final(self).lead(j as int).len() <= old(self).lead(index as int).len(),
            final(self).lead(j as int).len() + final(self).children[j as int].in_order().len()
                >= old(self).lead(index as int).len() + old(self).children[index as int].in_order().len(),
    {
        let ghost before = *self;
        assert(before.children[index as int].shape(t as nat));
        if self.children[index].keys.len() >= t {
            return index;
        }
        if index > 0 {
            assert(before.children[index - 1].shape(t as nat));
            if self.children[index - 1].keys.len() >= t {
                self.borrow_left(index, t);
                return index;
            }
        }
        if index + 1 < self.children.len() {
            assert(before.children[index + 1].shape(t as nat));
            if self.children[index + 1].keys.len() >= t {
                self.borrow_right(index, t);
                return index;
            }
            self.merge_children(index, t);
            return index;
        }
        self.merge_children(index - 1, t);
        proof {
            before.lemma_lead_step(index - 1);
        }
        index - 1
    }

    /// Takes the last entry of the listing out of this subtree.
    pub(crate) fn pop_last(&mut self, t: usize) -> (r: Entry<K, V>)
        requires
            degree_ok(t),
            old(self).shape(t as nat),
            old(self).keys.len() >= t,
        ensures
            final(self).shape(t as nat),
            final(self).height() == old(self).height(),
            final(self).keys.len() + 1 >= old(self).keys.len(),
            old(self).in_order().len() > 0,
            r == old(self).in_order().last(),
            final(self).in_order() == old(self).in_order().drop_last(),
        decreases old(self).height(),
    {
        if self.is_leaf() {
            proof {
                self.lemma_leaf();
            }
            let r = self.keys.pop().unwrap();
            proof {
                self.lemma_leaf();
            }
            return r;
        }
        let last = self.children.len() - 1;
        let j = self.fix_child_size(last, t);
        let ghost fixed = *self;
        assert(fixed.children[j as int].shape(t as nat));
        let r = self.children[j].pop_last(t);
        proof {
            fixed.lemma_span(j as int);
            fixed.lemma_ends();
            fixed.lemma_child_update(*self, j as int);
            fixed.lemma_shape_kept(*self, j as int, t as nat);
            let l = fixed.lead(j as int);
            let c = fixed.children[j as int].in_order();
            assert(fixed.in_order() =~= l + c);
            assert(self.in_order() =~= (l + c).drop_last());
        }
        r
    }

    /// Takes the first entry of the listing out of this subtree.
    pub(crate) fn pop_first(&mut self, t: usize) -> (r: Entry<K, V>)
        requires
            degree_ok(t),
            old(self).shape(t as nat),
            old(self).keys.len() >= t,
        ensures
            final(self).shape(t as nat),
            final(self).height() == old(self).height(),
            final(self).keys.len() + 1 >= old(self).keys.len(),
            old(self).in_order().len() > 0,
            r == old(self).in_order().first(),
            final(self).in_order() == old(self).in_order().drop_first(),
        decreases old(self).height(),
    {
        if self.is_leaf() {
            proof {
                self.lemma_leaf();
            }
            let r = self.keys.remove(0);
            proof {
                self.lemma_leaf();
            }
            return r;
        }
        let j = self.fix_child_size(0, t);
        let ghost fixed = *self;
        assert(fixed.children[0].shape(t as nat));
        let r = self.children[j].pop_first(t);
        proof {
            fixed.lemma_span(0);
            fixed.lemma_ends();
            fixed.lemma_child_update(*self, 0);
            fixed.lemma_shape_kept(*self, 0, t as nat);
            let c = fixed.children[0].in_order();
            let rest = fixed.sep(0) + fixed.trail(0);
            assert(fixed.in_order() =~= c + rest);
            assert(self.in_order() =~= (c + rest).drop_first());
        }
        r
    }
}

} // verus!
