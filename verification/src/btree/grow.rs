//! Insertion: the split of a full child, and the descent that splits every
//! full node on its way so that the leaf it reaches has room.

use crate::btree::entries::{ascending, has_key, hit, put_at, slot_of, Entry};
use crate::btree::node::{degree_ok, lemma_slot_beside, lemma_within, Node};
use crate::btree::order::{key_lt, lawful_order, lemma_order_laws, rank_of, Rank};
use crate::btree::pieces::{lemma_flatten_around, lemma_flatten_pair, lemma_flatten_splice};
use vstd::prelude::*;
use vstd::seq_lib::lemma_flatten_concat;

verus! {

impl<K: Ord, V> Node<K, V> {
    /// A leaf without entries.
    pub(crate) fn empty() -> (node: Self)
        ensures
            node.keys@ == Seq::<Entry<K, V>>::empty(),
            node.children@ == Seq::<Node<K, V>>::empty(),
    {
        Node { keys: Vec::new(), children: Vec::new() }
    }

    /// Whether the node has no children.
    pub(crate) fn is_leaf(&self) -> (r: bool)
        ensures
            r == (self.children.len() == 0),
    {
        self.children.len() == 0
    }

    /// Whether the node holds as many entries as a node may.
    pub(crate) fn is_full(&self, t: usize) -> (r: bool)
        requires
            degree_ok(t),
        ensures
            r == (self.keys.len() >= 2 * t - 1),
    {
        self.keys.len() >= 2 * t - 1
    }

    /// A full node is listed as its lower half, its middle entry and its
    /// upper half.
    pub(crate) proof fn lemma_halves(self, left: Self, right: Self, t: int)
        requires
            t >= 1,
            self.keys.len() == 2 * t - 1,
            self.children.len() == 0 || self.children.len() == 2 * t,
            left.keys@ == self.keys@.subrange(0, t - 1),
            right.keys@ == self.keys@.subrange(t, 2 * t - 1),
            self.children.len() == 0 ==> left.children.len() == 0 && right.children.len() == 0,
            self.children.len() > 0 ==> left.children@ == self.children@.subrange(0, t)
                && right.children@ == self.children@.subrange(t, 2 * t),
        ensures
            self.in_order() == left.in_order() + seq![self.keys[t - 1]] + right.in_order(),
    {
        if self.children.len() == 0 {
            self.lemma_leaf();
            left.lemma_leaf();
            right.lemma_leaf();
            assert(self.keys@ =~= left.keys@ + seq![self.keys[t - 1]] + right.keys@);
        } else {
            let g = self.groups();
            let last = self.children[t - 1].in_order();
            self.lemma_in_order_groups();
            left.lemma_in_order_groups();
            right.lemma_in_order_groups();
            lemma_flatten_around(g, t - 1);
            assert(left.groups() =~= g.subrange(0, t - 1) + seq![last]);
            lemma_flatten_concat(g.subrange(0, t - 1), seq![last]);
            lemma_flatten_pair(last, last);
            assert(right.groups() =~= g.subrange(t, 2 * t));
            assert(g[t - 1] =~= last + seq![self.keys[t - 1]]);
            assert(self.in_order() =~= left.in_order() + seq![self.keys[t - 1]]
                + right.in_order());
        }
    }

    /// `after` is this node with its full child `i` split: the middle entry
    /// of the child, the one with index `t - 1`, stands in the node at `i`;
    /// child `i` holds the entries before it and the first `t` children;
    /// and a new child at `i + 1` holds the entries after it and the other
    /// `t` children.
    pub(crate) open spec fn splits_into(self, after: Self, i: int, t: int) -> bool {
        let full = self.children[i];
        &&& after.keys@ == self.keys@.insert(i, full.keys[t - 1])
        &&& after.children@ == self.children@.update(i, after.children[i]).insert(
            i + 1,
            after.children[i + 1],
        )
        &&& after.children[i].keys@ == full.keys@.subrange(0, t - 1)
        &&& after.children[i + 1].keys@ == full.keys@.subrange(t, 2 * t - 1)
        &&& full.children.len() == 0 ==> after.children[i].children.len() == 0
            && after.children[i + 1].children.len() == 0
        &&& full.children.len() > 0 ==> after.children[i].children@ == full.children@.subrange(0, t)
            && after.children[i + 1].children@ == full.children@.subrange(t, 2 * t)
    }

    /// Splits the full child `i`: its middle entry moves up into this node,
    /// at `i`, and its upper half becomes a new child at `i + 1`.
    pub(crate) fn split_child(&mut self, i: usize, t: usize)
        requires
            degree_ok(t),
            old(self).shape(t as nat),
            i < old(self).children.len(),
            old(self).keys.len() < 2 * t - 1,
            old(self).children[i as int].keys.len() == 2 * t - 1,
        ensures
            old(self).splits_into(*final(self), i as int, t as int),
            final(self).shape(t as nat),
            final(self).height() == old(self).height(),
            final(self).in_order() == old(self).in_order(),
            final(self).keys@ == old(self).keys@.insert(
                i as int,
                old(self).children[i as int].keys[t - 1],
            ),
            final(self).children.len() == old(self).children.len() + 1,
            final(self).children[i as int].keys.len() == t - 1,
            final(self).children[i + 1].keys.len() == t - 1,
    {
        let ghost before = *self;
        let ghost full = self.children[i as int];
        assert(full.shape(t as nat));
        let child = &mut self.children[i];
        let right_keys = child.keys.split_off(t);
        let right_children = if child.children.len() > 0 {
            child.children.split_off(t)
        } else {
            Vec::new()
        };
        let mid = child.keys.pop().unwrap();
        let right = Node { keys: right_keys, children: right_children };
        let ghost left = self.children[i as int];
        self.keys.insert(i, mid);
        self.children.insert(i + 1, right);
        proof {
            let n = before.children.len() as int;
            let tt = t as int;
            assert(full.shape(t as nat));
            assert(left.keys@ =~= full.keys@.subrange(0, tt - 1));
            full.lemma_halves(left, right, tt);
            // the two halves are nodes of the tree's shape, as high as the child was
            assert(left.height() == full.height() && right.height() == full.height()) by {
                if full.children.len() > 0 {
                    assert(left.children[0] == full.children[0]);
                    assert(right.children[0] == full.children[tt]);
                    assert(full.children[tt].height() + 1 == full.height());
                }
            }
            assert(left.shape(t as nat)) by {
                assert forall|j: int| 0 <= j < left.children.len() implies {
                    &&& (#[trigger] left.children[j]).shape(t as nat)
                    &&& left.children[j].keys.len() >= t - 1
                    &&& left.children[j].height() + 1 == left.height()
                } by {
                    assert(left.children[j] == full.children[j]);
                }
            }
            assert(right.shape(t as nat)) by {
                assert forall|j: int| 0 <= j < right.children.len() implies {
                    &&& (#[trigger] right.children[j]).shape(t as nat)
                    &&& right.children[j].keys.len() >= t - 1
                    &&& right.children[j].height() + 1 == right.height()
                } by {
                    assert(right.children[j] == full.children[j + tt]);
                }
            }
            assert(self.children@ =~= before.children@.update(i as int, left).insert(i + 1, right));
            assert(self.height() == before.height()) by {
                assert(before.children[0].height() + 1 == before.height());
                if i == 0 {
                    assert(self.children[0] == left);
                } else {
                    assert(self.children[0] == before.children[0]);
                }
            }
            assert(self.shape(t as nat)) by {
                assert forall|j: int| 0 <= j < self.children.len() implies {
                    &&& (#[trigger] self.children[j]).shape(t as nat)
                    &&& self.children[j].keys.len() >= t - 1
                    &&& self.children[j].height() + 1 == self.height()
                } by {
                    if j < i {
                        assert(self.children[j] == before.children[j]);
                    } else if j > i + 1 {
                        assert(self.children[j] == before.children[j - 1]);
                    }
                    assert(before.children[i as int].height() + 1 == before.height());
                }
            }
            // the listing is the same
            let g = before.groups();
            let pair = seq![
                left.in_order() + seq![mid],
                right.in_order() + before.sep(i as int),
            ];
            before.lemma_in_order_groups();
            self.lemma_in_order_groups();
            lemma_flatten_pair(left.in_order() + seq![mid], right.in_order() + before.sep(i as int));
            lemma_flatten_pair(g[i as int], g[i as int]);
            assert(g.subrange(i as int, i + 1) =~= seq![g[i as int]]);
            assert(pair.flatten() =~= g[i as int]);
            lemma_flatten_splice(g, i as int, i + 1, pair);
            assert(self.groups() =~= g.subrange(0, i as int) + pair + g.subrange(i + 1, n)) by {
                assert forall|j: int| 0 <= j < self.children.len() implies self.groups()[j] == (
                g.subrange(0, i as int) + pair + g.subrange(i + 1, n))[j] by {
                    if j < i {
                        assert(self.children[j] == before.children[j]);
                        assert(self.sep(j) == before.sep(j));
                    } else if j == i {
                        assert(self.sep(j) == seq![mid]);
                    } else if j == i + 1 {
                        assert(self.sep(j) =~= before.sep(i as int));
                    } else {
                        assert(self.children[j] == before.children[j - 1]);
                        assert(self.sep(j) =~= before.sep(j - 1));
                    }
                }
            }
        }
    }

    /// Puts `kv` among the entries of this node: over the entry with its
    /// key, if there is one, and at its place in the order otherwise.
    /// Returns the index at which it now stands.
    pub(crate) fn insert_item(&mut self, kv: Entry<K, V>) -> (idx: usize)
        requires
            lawful_order::<K>(),
            ascending(old(self).keys@),
        ensures
            slot_of(old(self).keys@, kv.key, idx as int),
            final(self).keys@ == put_at(old(self).keys@, idx as int, kv),
            final(self).children == old(self).children,
            final(self).keys.len() >= old(self).keys.len(),
            final(self).keys.len() <= old(self).keys.len() + 1,
    {
        match self.find_key(&kv.key) {
            Ok(idx) => {
                self.keys[idx].value = kv.value;
                assert(self.keys@ =~= old(self).keys@.update(idx as int, kv));
                idx
            },
            Err(idx) => {
                proof {
                    if idx < self.keys.len() && self.keys[idx as int].key == kv.key {
                        assert(has_key(self.keys@, kv.key));
                    }
                }
                self.keys.insert(idx, kv);
                idx
            },
        }
    }

    /// Puts `kv` into this leaf, which has room for it.
    pub(crate) fn insert_leaf(&mut self, kv: Entry<K, V>, t: usize) -> (pos: Ghost<int>)
        requires
            lawful_order::<K>(),
            degree_ok(t),
            old(self).shape(t as nat),
            old(self).children.len() == 0,
            old(self).keys.len() < 2 * t - 1,
            ascending(old(self).in_order()),
        ensures
            final(self).shape(t as nat),
            final(self).height() == old(self).height(),
            final(self).keys.len() >= old(self).keys.len(),
            slot_of(old(self).in_order(), kv.key, pos@),
            final(self).in_order() == put_at(old(self).in_order(), pos@, kv),
    {
        proof {
            self.lemma_leaf();
        }
        let idx = self.insert_item(kv);
        proof {
            self.lemma_leaf();
        }
        Ghost(idx as int)
    }

    /// Puts `kv` into the subtree under this node, which is not full: over
    /// the entry with its key, if the subtree holds one, and into the leaf
    /// where it belongs otherwise. A full child on the way is split before
    /// the descent enters it.
    pub(crate) fn insert(&mut self, kv: Entry<K, V>, t: usize) -> (pos: Ghost<int>)
        requires
            lawful_order::<K>(),
            degree_ok(t),
            old(self).shape(t as nat),
            old(self).keys.len() < 2 * t - 1,
            ascending(old(self).in_order()),
        ensures
            final(self).shape(t as nat),
            final(self).height() == old(self).height(),
            final(self).keys.len() >= old(self).keys.len(),
            slot_of(old(self).in_order(), kv.key, pos@),
            final(self).in_order() == put_at(old(self).in_order(), pos@, kv),
            old(self).children.len() > 0 && (forall|i: int|
                0 <= i < old(self).children.len() ==> (#[trigger] old(self).children[i]).keys.len()
                    < 2 * t - 1) ==> final(self).keys.len() == old(self).keys.len(),
        decreases old(self).height(),
    {
        if self.is_leaf() {
            return self.insert_leaf(kv, t);
        }
        let ghost before = *self;
        proof {
            self.lemma_parts_ascending();
        }
        match self.find_key(&kv.key) {
            Ok(idx) => {
                self.overwrite(idx, kv);
                Ghost(before.key_at(idx as int))
            },
            Err(idx) => {
                let mut idx = idx;
                if self.children[idx].is_full(t) {
                    assert(before.children[idx as int].shape(t as nat));
                    self.split_child(idx, t);
                    proof {
                        self.lemma_parts_ascending();
                        lemma_slot_beside(before.keys@, kv.key, idx as int, self.keys[idx as int]);
                    }
                    match rank_of(&kv.key, &self.keys[idx].key) {
                        Rank::Same => {
                            let ghost split = *self;
                            self.overwrite(idx, kv);
                            return Ghost(split.key_at(idx as int));
                        },
                        Rank::After => {
                            idx = idx + 1;
                        },
                        Rank::Before => {},
                    }
                }
                let ghost split = *self;
                proof {
                    assert(split.children[idx as int].shape(t as nat));
                    split.lemma_parts_ascending();
                }
                let inner = self.children[idx].insert(kv, t);
                proof {
                    split.lemma_put_below(*self, idx as int, kv, inner@);
                    split.lemma_shape_kept(*self, idx as int, t as nat);
                }
                Ghost(split.lead(idx as int).len() + inner@)
            },
        }
    }

    /// Where an entry was put into child `i` at its place there, it was put
    /// into this node's listing at its place.
    proof fn lemma_put_below(self, other: Self, i: int, kv: Entry<K, V>, pos: int)
        requires
            lawful_order::<K>(),
            ascending(self.in_order()),
            self.children.len() == self.keys.len() + 1,
            slot_of(self.keys@, kv.key, i),
            i < self.keys.len() ==> self.keys[i].key != kv.key,
            slot_of(self.children[i].in_order(), kv.key, pos),
            other.keys@ == self.keys@,
            other.children@ == self.children@.update(i, other.children[i]),
            other.children[i].in_order() == put_at(self.children[i].in_order(), pos, kv),
        ensures
            slot_of(self.in_order(), kv.key, self.lead(i).len() + pos),
            other.in_order() == put_at(self.in_order(), self.lead(i).len() + pos, kv),
    {
        self.lemma_descend(i, kv.key, pos);
        self.lemma_span(i);
        self.lemma_child_update(other, i);
        let l = self.lead(i);
        let c = self.children[i].in_order();
        let r = self.sep(i) + self.trail(i);
        assert(self.in_order() =~= l + c + r);
        assert(other.in_order() =~= l + put_at(c, pos, kv) + r);
        if 0 <= pos < c.len() && c[pos].key == kv.key {
            assert((l + c + r)[l.len() + pos] == c[pos]);
            assert(l + c.update(pos, kv) + r =~= (l + c + r).update(l.len() + pos, kv));
        } else {
            if l.len() + pos < (l + c + r).len() && pos == c.len() {
                assert((l + c + r)[l.len() + pos] == r[0]);
                assert(!key_lt(kv.key, kv.key)) by {
                    lemma_order_laws::<K>();
                }
                assert(self.in_order()[l.len() + pos].key != kv.key) by {
                    self.lemma_route(i, kv.key);
                    lemma_order_laws::<K>();
                }
            } else if pos < c.len() {
                assert((l + c + r)[l.len() + pos] == c[pos]);
            }
            assert(l + c.insert(pos, kv) + r =~= (l + c + r).insert(l.len() + pos, kv));
        }
    }

    /// Puts `kv` over entry `idx` of this inner node, which has its key.
    fn overwrite(&mut self, idx: usize, kv: Entry<K, V>)
        requires
            lawful_order::<K>(),
            ascending(old(self).in_order()),
            old(self).children.len() == old(self).keys.len() + 1,
            idx < old(self).keys.len(),
            old(self).keys[idx as int].key == kv.key,
        ensures
            final(self).children == old(self).children,
            final(self).keys@ == old(self).keys@.update(idx as int, kv),
            slot_of(old(self).in_order(), kv.key, old(self).key_at(idx as int)),
            final(self).in_order() == put_at(old(self).in_order(), old(self).key_at(idx as int), kv),
            final(self).height() == old(self).height(),
            final(self).alike(*old(self)),
            forall|t: nat| old(self).shape(t) ==> final(self).shape(t),
    {
        let ghost before = *self;
        self.keys[idx].value = kv.value;
        proof {
            assert(self.keys@ =~= before.keys@.update(idx as int, kv));
            before.lemma_found(idx as int);
            before.lemma_key_update(*self, idx as int);
            before.lemma_alike_self();
        }
    }

    /// Where an entry was put over the one with its key in child `i`, or
    /// found to have no place there, the same holds of the node's listing.
    proof fn lemma_assigned_below(self, other: Self, i: int, kv: Entry<K, V>, pos: int)
        requires
            lawful_order::<K>(),
            ascending(self.in_order()),
            self.children.len() == self.keys.len() + 1,
            slot_of(self.keys@, kv.key, i),
            i < self.keys.len() ==> self.keys[i].key != kv.key,
            slot_of(self.children[i].in_order(), kv.key, pos),
            other.keys@ == self.keys@,
            other.children@ == self.children@.update(i, other.children[i]),
            other.children[i].in_order() == if hit(self.children[i].in_order(), kv.key, pos) {
                self.children[i].in_order().update(pos, kv)
            } else {
                self.children[i].in_order()
            },
        ensures
            slot_of(self.in_order(), kv.key, self.lead(i).len() + pos),
            hit(self.in_order(), kv.key, self.lead(i).len() + pos) <==> hit(
                self.children[i].in_order(),
                kv.key,
                pos,
            ),
            other.in_order() == if hit(self.in_order(), kv.key, self.lead(i).len() + pos) {
                self.in_order().update(self.lead(i).len() + pos, kv)
            } else {
                self.in_order()
            },
    {
        let s = self.in_order();
        let l = self.lead(i);
        let c = self.children[i].in_order();
        let r = self.sep(i) + self.trail(i);
        self.lemma_route(i, kv.key);
        self.lemma_span(i);
        self.lemma_child_place(i);
        self.lemma_child_update(other, i);
        lemma_within(s, c, l.len() as int, kv.key, pos);
        assert(s =~= l + c + r);
        assert(other.in_order() =~= l + other.children[i].in_order() + r);
        if hit(c, kv.key, pos) {
            assert(l + c.update(pos, kv) + r =~= s.update(l.len() + pos, kv));
        }
    }

    /// Puts `kv` over the entry with its key, where the subtree under this
    /// node holds one, and changes nothing else; hands `kv` back where it
    /// holds none.
    pub(crate) fn assign(&mut self, kv: Entry<K, V>, Ghost(t): Ghost<nat>) -> (r: (
        Option<Entry<K, V>>,
        Ghost<int>,
    ))
        requires
            lawful_order::<K>(),
            old(self).shape(t),
            ascending(old(self).in_order()),
        ensures
            final(self).shape(t),
            final(self).alike(*old(self)),
            final(self).height() == old(self).height(),
            slot_of(old(self).in_order(), kv.key, r.1@),
            hit(old(self).in_order(), kv.key, r.1@) ==> r.0.is_none() && final(self).in_order()
                == old(self).in_order().update(r.1@, kv),
            !hit(old(self).in_order(), kv.key, r.1@) ==> r.0 == Some(kv) && final(self).in_order()
                == old(self).in_order(),
        decreases old(self).height(),
    {
        let ghost before = *self;
        proof {
            self.lemma_parts_ascending();
            before.lemma_alike_self();
        }
        match self.find_key(&kv.key) {
            Ok(idx) => {
                if self.is_leaf() {
                    self.keys[idx].value = kv.value;
                    proof {
                        assert(self.keys@ =~= before.keys@.update(idx as int, kv));
                        before.lemma_leaf();
                        self.lemma_leaf();
                    }
                    (None, Ghost(idx as int))
                } else {
                    self.overwrite(idx, kv);
                    proof {
                        before.lemma_key_place(idx as int);
                    }
                    (None, Ghost(before.key_at(idx as int)))
                }
            },
            Err(idx) => {
                if self.is_leaf() {
                    proof {
                        self.lemma_leaf();
                        if hit(self.keys@, kv.key, idx as int) {
                            assert(has_key(self.keys@, kv.key));
                        }
                    }
                    (Some(kv), Ghost(idx as int))
                } else {
                    assert(before.children[idx as int].shape(t));
                    let (back, Ghost(pos)) = self.children[idx].assign(kv, Ghost(t));
                    proof {
                        before.lemma_assigned_below(*self, idx as int, kv, pos);
                        before.lemma_shape_kept(*self, idx as int, t);
                        before.lemma_alike_but(*self, idx as int);
                    }
                    (back, Ghost(before.lead(idx as int).len() + pos))
                }
            },
        }
    }
}

} // verus!
