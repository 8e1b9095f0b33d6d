//! Deletion: the lookup that comes first, so that a key which the tree does
//! not hold changes nothing; the descent to the entry with the key, which
//! repairs every child before it enters it; and the removal of the entry
//! from the node that holds it.

use crate::btree::entries::{
    ascending, has_key, hit, index_of, lemma_place, lemma_slot_exists, place_of, slot_of, Entry,
};
use crate::btree::node::{degree_ok, lemma_within, Node};
use crate::btree::order::{key_lt, lawful_order, lemma_order_laws};
use vstd::prelude::*;

verus! {

/// What a removal of `key` leaves of the listing `s`, in which `key` has
/// its place at `pos`, and the value it hands out.
pub open spec fn removed<K, V>(
    s: Seq<Entry<K, V>>,
    key: K,
    pos: int,
    left: Seq<Entry<K, V>>,
    out: Option<V>,
) -> bool {
    if hit(s, key, pos) {
        left == s.remove(pos) && out == Some(s[pos].value)
    } else {
        left == s && out.is_none()
    }
}

/// In an ascending sequence, what stands before a part that holds `q` is
/// smaller than the key at `q`, and what stands after the part is greater.
pub proof fn lemma_around_hit<K: Ord, V>(s: Seq<Entry<K, V>>, q: int, lo: int, hi: int)
    requires
        ascending(s),
        0 <= lo <= q < hi <= s.len(),
    ensures
        forall|p: int| 0 <= p < lo ==> key_lt(#[trigger] s[p].key, s[q].key),
        forall|p: int| hi <= p < s.len() ==> key_lt(s[q].key, #[trigger] s[p].key),
{
}

impl<K: Ord, V> Node<K, V> {
    /// The node is one that a removal may start from: if it has children,
    /// it has an entry.
    pub(crate) open spec fn removable(self) -> bool {
        self.children.len() == 0 || self.keys.len() >= 1
    }

    /// The node is one that a removal from `before` may leave: it has the
    /// tree's shape and is at most one level lower; if `before` held at
    /// least `t` entries, it still holds `t - 1` and is as high.
    pub(crate) open spec fn settled(self, before: Self, t: nat) -> bool {
        &&& self.shape(t)
        &&& self.removable()
        &&& self.height() <= before.height() <= self.height() + 1
        &&& before.keys.len() >= t ==> self.keys.len() >= t - 1 && self.height() == before.height()
    }

    /// Where the entry at `idx` was replaced by the last entry of the child
    /// before it, taken out of that child, the listing has lost the entry
    /// that was at `idx`.
    proof fn lemma_predecessor_moved(self, after: Self, idx: int)
        requires
            self.children.len() == self.keys.len() + 1,
            0 <= idx < self.keys.len(),
            self.children[idx].in_order().len() > 0,
            after.keys@ == self.keys@.update(idx, self.children[idx].in_order().last()),
            after.children@ == self.children@.update(idx, after.children[idx]),
            after.children[idx].in_order() == self.children[idx].in_order().drop_last(),
        ensures
            after.in_order() == self.in_order().remove(self.key_at(idx)),
    {
        self.lemma_span(idx);
        after.lemma_span(idx);
        self.lemma_frame(after, idx);
        let l = self.lead(idx);
        let c = self.children[idx].in_order();
        let r = self.trail(idx);
        assert(self.in_order() =~= l + c + seq![self.keys[idx]] + r);
        assert(after.in_order() =~= l + c.drop_last() + seq![c.last()] + r);
        assert(after.in_order() =~= self.in_order().remove(self.key_at(idx)));
    }

    /// Where the entry at `idx` was replaced by the first entry of the child
    /// after it, taken out of that child, the listing has lost the entry
    /// that was at `idx`.
    proof fn lemma_successor_moved(self, after: Self, idx: int)
        requires
            self.children.len() == self.keys.len() + 1,
            0 <= idx < self.keys.len(),
            self.children[idx + 1].in_order().len() > 0,
            after.keys@ == self.keys@.update(idx, self.children[idx + 1].in_order().first()),
            after.children@ == self.children@.update(idx + 1, after.children[idx + 1]),
            after.children[idx + 1].in_order() == self.children[idx + 1].in_order().drop_first(),
        ensures
            after.in_order() == self.in_order().remove(self.key_at(idx)),
    {
        self.lemma_span(idx + 1);
        after.lemma_span(idx + 1);
        self.lemma_lead_step(idx);
        after.lemma_lead_step(idx);
        self.lemma_lead_frame(after, idx);
        assert forall|j: int| idx + 1 < j < self.children.len() implies after.sep(j) == self.sep(
            j,
        ) by {}
        self.lemma_trail_frame(after, idx + 1);
        let l = self.lead(idx);
        let c = self.children[idx].in_order();
        let d = self.children[idx + 1].in_order();
        let r = self.sep(idx + 1) + self.trail(idx + 1);
        assert(after.sep(idx + 1) =~= self.sep(idx + 1));
        assert(self.in_order() =~= l + c + seq![self.keys[idx]] + d + r);
        assert(after.in_order() =~= l + c + seq![d.first()] + d.drop_first() + r);
        assert(after.in_order() =~= self.in_order().remove(self.key_at(idx)));
    }

    /// Where `key` was removed from child `j`, outside of which the listing
    /// holds smaller keys before and greater keys after, it was removed from
    /// the listing of the node.
    proof fn lemma_removed_below(
        self,
        after: Self,
        j: int,
        key: K,
        pos: int,
        out: Option<V>,
    )
        requires
            lawful_order::<K>(),
            0 <= j < self.children.len(),
            forall|p: int| 0 <= p < self.lead(j).len() ==> key_lt(#[trigger] self.in_order()[p].key, key),
            forall|p: int|
                self.lead(j).len() + self.children[j].in_order().len() <= p < self.in_order().len()
                    ==> key_lt(key, #[trigger] self.in_order()[p].key),
            slot_of(self.children[j].in_order(), key, pos),
            after.keys@ == self.keys@,
            after.children@ == self.children@.update(j, after.children[j]),
            removed(self.children[j].in_order(), key, pos, after.children[j].in_order(), out),
        ensures
            slot_of(self.in_order(), key, self.lead(j).len() + pos),
            removed(self.in_order(), key, self.lead(j).len() + pos, after.in_order(), out),
    {
        let s = self.in_order();
        let c = self.children[j].in_order();
        let l = self.lead(j);
        let r = self.sep(j) + self.trail(j);
        self.lemma_span(j);
        self.lemma_child_place(j);
        self.lemma_child_update(after, j);
        lemma_within(s, c, l.len() as int, key, pos);
        assert(s =~= l + c + r);
        assert(after.in_order() =~= l + after.children[j].in_order() + r);
        if hit(c, key, pos) {
            assert(s[l.len() + pos] == c[pos]);
            assert(l + c.remove(pos) + r =~= s.remove(l.len() + pos));
        }
    }

    /// Takes entry `idx` out of this leaf.
    pub(crate) fn remove_item(&mut self, idx: usize) -> (r: Entry<K, V>)
        requires
            old(self).children.len() == 0,
            idx < old(self).keys.len(),
        ensures
            r == old(self).in_order()[idx as int],
            idx < old(self).in_order().len(),
            final(self).in_order() == old(self).in_order().remove(idx as int),
            final(self).children.len() == 0,
            final(self).keys.len() + 1 == old(self).keys.len(),
            final(self).height() == old(self).height(),
            forall|t: nat| old(self).shape(t) ==> final(self).shape(t),
    {
        proof {
            self.lemma_leaf();
        }
        let r = self.keys.remove(idx);
        proof {
            self.lemma_leaf();
        }
        r
    }

    /// Removes the entry with the key `key` from the subtree under this
    /// node and returns its value. It looks the key up first: where the
    /// subtree holds no entry with it, it returns `None` and changes
    /// nothing, in no node.
    pub(crate) fn remove(&mut self, key: &K, t: usize) -> (r: (Option<V>, Ghost<int>))
        requires
            lawful_order::<K>(),
            degree_ok(t),
            old(self).shape(t as nat),
            old(self).removable(),
            ascending(old(self).in_order()),
        ensures
            final(self).settled(*old(self), t as nat),
            slot_of(old(self).in_order(), *key, r.1@),
            removed(old(self).in_order(), *key, r.1@, final(self).in_order(), r.0),
            hit(old(self).in_order(), *key, r.1@) == has_key(old(self).in_order(), *key),
            !has_key(old(self).in_order(), *key) ==> *final(self) == *old(self),
    {
        if self.get(key, Ghost(t as nat)).is_none() {
            let ghost s = self.in_order();
            proof {
                lemma_slot_exists(s, *key);
                lemma_place(s, *key, place_of(s, *key));
            }
            return (None, Ghost(place_of(s, *key)));
        }
        self.take_out(key, t)
    }

    /// Where the listing holds `key`, and smaller keys alone before child
    /// `j` and greater keys alone after it, the listing of child `j` holds
    /// `key`.
    proof fn lemma_key_inside(self, j: int, key: K)
        requires
            lawful_order::<K>(),
            0 <= j < self.children.len(),
            has_key(self.in_order(), key),
            forall|p: int| 0 <= p < self.lead(j).len() ==> key_lt(#[trigger] self.in_order()[p].key, key),
            forall|p: int|
                self.lead(j).len() + self.children[j].in_order().len() <= p < self.in_order().len()
                    ==> key_lt(key, #[trigger] self.in_order()[p].key),
        ensures
            has_key(self.children[j].in_order(), key),
    {
        lemma_order_laws::<K>();
        let s = self.in_order();
        let c = self.children[j].in_order();
        let off = self.lead(j).len() as int;
        let q = index_of(s, key);
        self.lemma_child_place(j);
        if q < off {
            assert(key_lt(s[q].key, key));
        } else if q >= off + c.len() {
            assert(key_lt(key, s[q].key));
        } else {
            assert(c[q - off] == s[q]);
        }
    }

    /// Removes the entry with the key `key`, which the subtree under this
    /// node holds, and returns its value. On its way down the descent
    /// repairs each child that holds the minimum number of entries before
    /// it enters it.
    pub(crate) fn take_out(&mut self, key: &K, t: usize) -> (r: (Option<V>, Ghost<int>))
        requires
            lawful_order::<K>(),
            degree_ok(t),
            old(self).shape(t as nat),
            old(self).removable(),
            ascending(old(self).in_order()),
            has_key(old(self).in_order(), *key),
        ensures
            final(self).settled(*old(self), t as nat),
            slot_of(old(self).in_order(), *key, r.1@),
            hit(old(self).in_order(), *key, r.1@),
            removed(old(self).in_order(), *key, r.1@, final(self).in_order(), r.0),
        decreases old(self).height(), 2nat,
    {
        proof {
            self.lemma_parts_ascending();
        }
        let ghost before = *self;
        match self.find_key(key) {
            Ok(idx) => {
                if self.is_leaf() {
                    proof {
                        self.lemma_leaf();
                    }
                    let e = self.remove_item(idx);
                    (Some(e.value), Ghost(idx as int))
                } else {
                    self.remove_here(idx, key, t)
                }
            },
            Err(idx) => {
                proof {
                    if self.children.len() == 0 {
                        self.lemma_leaf();
                    }
                }
                let j = self.fix_child_size(idx, t);
                proof {
                    before.lemma_route(idx as int, *key);
                }
                self.remove_below(j, key, t, Ghost(before))
            },
        }
    }

    /// `after` is this node with entry `idx` replaced by its neighbour in
    /// the listing: by its predecessor, the last entry under child `idx`, if
    /// that child holds `t` entries or more; else by its successor, the
    /// first entry under child `idx + 1`, if that child does. The neighbour
    /// has left the child it was taken from; nothing else has changed.
    pub(crate) open spec fn replaces_into(self, after: Self, idx: int, t: int) -> bool {
        if self.children[idx].keys.len() >= t {
            &&& after.keys@ == self.keys@.update(idx, self.children[idx].in_order().last())
            &&& after.children@ == self.children@.update(idx, after.children[idx])
            &&& after.children[idx].in_order() == self.children[idx].in_order().drop_last()
        } else if self.children[idx + 1].keys.len() >= t {
            &&& after.keys@ == self.keys@.update(idx, self.children[idx + 1].in_order().first())
            &&& after.children@ == self.children@.update(idx + 1, after.children[idx + 1])
            &&& after.children[idx + 1].in_order() == self.children[idx
                + 1].in_order().drop_first()
        } else {
            true
        }
    }

    /// Removes entry `idx` of this inner node, which has the key `key`: it
    /// is replaced by its predecessor, taken from the child before it, or by
    /// its successor, taken from the child after it, whichever child can
    /// spare an entry; if neither can, the two are merged around the entry
    /// and it is removed from the merged child.
    fn remove_here(&mut self, idx: usize, key: &K, t: usize) -> (r: (Option<V>, Ghost<int>))
        requires
            lawful_order::<K>(),
            degree_ok(t),
            old(self).shape(t as nat),
            old(self).removable(),
            ascending(old(self).in_order()),
            old(self).children.len() == old(self).keys.len() + 1,
            idx < old(self).keys.len(),
            old(self).keys[idx as int].key == *key,
        ensures
            old(self).replaces_into(*final(self), idx as int, t as int),
            final(self).settled(*old(self), t as nat),
            slot_of(old(self).in_order(), *key, r.1@),
            hit(old(self).in_order(), *key, r.1@),
            removed(old(self).in_order(), *key, r.1@, final(self).in_order(), r.0),
        decreases old(self).height(), 1nat,
    {
        let ghost before = *self;
        proof {
            before.lemma_found(idx as int);
            assert(before.children[idx as int].shape(t as nat));
            assert(before.children[idx + 1].shape(t as nat));
        }
        if self.children[idx].keys.len() >= t {
            let mut entry = self.children[idx].pop_last(t);
            std::mem::swap(&mut self.keys[idx], &mut entry);
            proof {
                assert(self.keys@ =~= before.keys@.update(
                    idx as int,
                    before.children[idx as int].in_order().last(),
                ));
                before.lemma_predecessor_moved(*self, idx as int);
                before.lemma_shape_kept(*self, idx as int, t as nat);
            }
            (Some(entry.value), Ghost(before.key_at(idx as int)))
        } else if self.children[idx + 1].keys.len() >= t {
            let mut entry = self.children[idx + 1].pop_first(t);
            std::mem::swap(&mut self.keys[idx], &mut entry);
            proof {
                assert(self.keys@ =~= before.keys@.update(
                    idx as int,
                    before.children[idx + 1].in_order().first(),
                ));
                before.lemma_successor_moved(*self, idx as int);
                before.lemma_shape_kept(*self, idx + 1, t as nat);
            }
            (Some(entry.value), Ghost(before.key_at(idx as int)))
        } else {
            self.merge_children(idx, t);
            proof {
                before.lemma_span(idx as int);
                before.lemma_key_place(idx as int);
                self.lemma_child_place(idx as int);
                lemma_around_hit(
                    before.in_order(),
                    before.key_at(idx as int),
                    self.lead(idx as int).len() as int,
                    (self.lead(idx as int).len() + self.children[idx as int].in_order().len()) as int,
                );
            }
            self.remove_below(idx, key, t, Ghost(before))
        }
    }

    /// Goes on with the removal of `key` in child `j`, which holds at least
    /// `t` entries and spans the part of the listing where `key` belongs. A
    /// root that a merge has left without entries is first replaced by its
    /// one child.
    fn remove_below(
        &mut self,
        j: usize,
        key: &K,
        t: usize,
        Ghost(start): Ghost<Self>,
    ) -> (r: (Option<V>, Ghost<int>))
        requires
            lawful_order::<K>(),
            degree_ok(t),
            old(self).shape(t as nat),
            ascending(old(self).in_order()),
            old(self).children.len() == old(self).keys.len() + 1,
            old(self).keys.len() + 1 >= start.keys.len(),
            j < old(self).children.len(),
            old(self).children[j as int].keys.len() >= t,
            old(self).height() == start.height(),
            has_key(old(self).in_order(), *key),
            forall|p: int|
                0 <= p < old(self).lead(j as int).len() ==> key_lt(
                    #[trigger] old(self).in_order()[p].key,
                    *key,
                ),
            forall|p: int|
                old(self).lead(j as int).len() + old(self).children[j as int].in_order().len() <= p
                    < old(self).in_order().len() ==> key_lt(
                    *key,
                    #[trigger] old(self).in_order()[p].key,
                ),
        ensures
            final(self).settled(start, t as nat),
            slot_of(old(self).in_order(), *key, r.1@),
            hit(old(self).in_order(), *key, r.1@),
            removed(old(self).in_order(), *key, r.1@, final(self).in_order(), r.0),
        decreases old(self).height(), 0nat,
    {
        let ghost before = *self;
        proof {
            before.lemma_height_positive();
            before.lemma_parts_ascending();
            assert(before.children[j as int].shape(t as nat));
        }
        if self.keys.len() == 0 {
            proof {
                before.lemma_single_child();
            }
            let child = self.children.pop().unwrap();
            *self = child;
            self.take_out(key, t)
        } else {
            proof {
                before.lemma_key_inside(j as int, *key);
            }
            let (out, Ghost(pos)) = self.children[j].take_out(key, t);
            proof {
                before.lemma_removed_below(*self, j as int, *key, pos, out);
                before.lemma_shape_kept(*self, j as int, t as nat);
            }
            (out, Ghost(before.lead(j as int).len() + pos))
        }
    }
}

} // verus!
