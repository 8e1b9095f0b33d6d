//! The invariants of the tree, node by node: what holds in every node of a
//! tree whose shape is kept and whose listing ascends.

use crate::btree::entries::ascending;
use crate::btree::node::Node;
use crate::btree::order::{key_lt, lawful_order};
use vstd::arithmetic::power::{lemma_pow1, lemma_pow_positive, pow};
use vstd::prelude::*;

verus! {

impl<K: Ord, V> Node<K, V> {
    /// Every key in the subtree under child `i` lies between the entries of
    /// this node that stand on either side of the child.
    pub(crate) open spec fn separates(self, i: int) -> bool {
        forall|p: int|
            0 <= p < self.children[i].in_order().len() ==> {
                let k = (#[trigger] self.children[i].in_order()[p]).key;
                &&& i > 0 ==> key_lt(self.keys[i - 1].key, k)
                &&& i < self.keys.len() ==> key_lt(k, self.keys[i].key)
            }
    }

    /// In this node and in every node below it: the entries ascend by key,
    /// without duplicates; there are at most `2t - 1` of them; an inner node
    /// has one child more than entries; every child holds at least `t - 1`
    /// entries; the keys under a child lie between the entries beside it;
    /// and all children of a node are equally high, so that every leaf is at
    /// the same depth.
    pub(crate) open spec fn sound(self, t: nat) -> bool
        decreases self,
    {
        &&& ascending(self.keys@)
        &&& self.keys.len() <= 2 * t - 1
        &&& (self.children.len() == 0 || self.children.len() == self.keys.len() + 1)
        &&& forall|i: int|
            0 <= i < self.children.len() ==> {
                &&& (#[trigger] self.children[i]).sound(t)
                &&& self.children[i].keys.len() >= t - 1
                &&& self.children[i].height() + 1 == self.height()
                &&& self.separates(i)
            }
    }

    /// The keys under child `i` lie between the entries beside it, where the
    /// listing of the node ascends.
    pub(crate) proof fn lemma_separates(self, i: int)
        requires
            lawful_order::<K>(),
            ascending(self.in_order()),
            self.children.len() == self.keys.len() + 1,
            0 <= i < self.children.len(),
        ensures
            self.separates(i),
    {
        let s = self.in_order();
        let c = self.children[i].in_order();
        let off = self.lead(i).len() as int;
        self.lemma_child_place(i);
        if i > 0 {
            self.lemma_key_place(i - 1);
        }
        if i < self.keys.len() {
            self.lemma_key_place(i);
        }
        assert forall|p: int| 0 <= p < c.len() implies {
            let k = (#[trigger] c[p]).key;
            &&& i > 0 ==> key_lt(self.keys[i - 1].key, k)
            &&& i < self.keys.len() ==> key_lt(k, self.keys[i].key)
        } by {
            assert(c[p] == s[off + p]);
            if i > 0 {
                assert(key_lt(s[self.key_at(i - 1)].key, s[off + p].key));
            }
            if i < self.keys.len() {
                assert(key_lt(s[off + p].key, s[self.key_at(i)].key));
            }
        }
    }

    /// A subtree that has the tree's shape and an ascending listing is sound
    /// in every node.
    pub(crate) proof fn lemma_sound(self, t: nat)
        requires
            lawful_order::<K>(),
            self.shape(t),
            ascending(self.in_order()),
        ensures
            self.sound(t),
        decreases self.height(),
    {
        self.lemma_parts_ascending();
        assert forall|i: int| 0 <= i < self.children.len() implies {
            &&& (#[trigger] self.children[i]).sound(t)
            &&& self.children[i].keys.len() >= t - 1
            &&& self.children[i].height() + 1 == self.height()
            &&& self.separates(i)
        } by {
            self.children[i].lemma_sound(t);
            self.lemma_separates(i);
        }
    }

    /// The two nodes have the same layout: as many entries, as many
    /// children, and children of the same layout.
    pub(crate) open spec fn alike(self, other: Self) -> bool
        decreases self,
    {
        &&& self.keys.len() == other.keys.len()
        &&& self.children.len() == other.children.len()
        &&& forall|i: int|
            0 <= i < self.children.len() ==> (#[trigger] self.children[i]).alike(other.children[i])
    }

    /// A node has its own layout.
    pub(crate) proof fn lemma_alike_self(self)
        ensures
            self.alike(self),
        decreases self,
    {
        assert forall|i: int| 0 <= i < self.children.len() implies (#[trigger] self.children[i]).alike(
            self.children[i],
        ) by {
            self.children[i].lemma_alike_self();
        }
    }

    /// A node that differs from this one in child `i` alone, which has the
    /// layout it had, has the layout of this one.
    pub(crate) proof fn lemma_alike_but(self, other: Self, i: int)
        requires
            0 <= i < self.children.len(),
            other.keys.len() == self.keys.len(),
            other.children@ == self.children@.update(i, other.children[i]),
            other.children[i].alike(self.children[i]),
        ensures
            other.alike(self),
    {
        assert forall|j: int| 0 <= j < other.children.len() implies (
        #[trigger] other.children[j]).alike(self.children[j]) by {
            if j != i {
                assert(other.children[j] == self.children[j]);
                self.children[j].lemma_alike_self();
            }
        }
    }

    /// The listing of a subtree holds at least the entries of its top node.
    pub(crate) proof fn lemma_listing_covers(self)
        requires
            self.children.len() == 0 || self.children.len() == self.keys.len() + 1,
        ensures
            self.in_order().len() >= self.keys.len(),
    {
        if self.children.len() == 0 {
            self.lemma_leaf();
        } else if self.keys.len() > 0 {
            self.lemma_key_place(self.keys.len() - 1);
            self.lemma_lead_grows(0, self.keys.len() as int);
            self.lemma_keys_spread(self.keys.len() as int);
        }
    }

    /// The first `n` entries of an inner node stand within what leads up to
    /// child `n`.
    proof fn lemma_keys_spread(self, n: int)
        requires
            self.children.len() == self.keys.len() + 1,
            0 <= n <= self.keys.len(),
        ensures
            self.lead(n).len() >= n,
            self.lead(n).len() <= self.in_order().len(),
        decreases n,
    {
        self.lemma_span(n);
        if n > 0 {
            self.lemma_keys_spread(n - 1);
            self.lemma_lead_step(n - 1);
        }
    }

    /// Under the first `n` children of an inner node whose children each
    /// hold `least` entries or more, and with the entries between them, the
    /// listing holds `n` times `least + 1` entries or more.
    proof fn lemma_lead_least(self, n: int, least: int)
        requires
            self.children.len() == self.keys.len() + 1,
            0 <= n <= self.keys.len(),
            least >= 0,
            forall|i: int|
                0 <= i < self.children.len() ==> (#[trigger] self.children[i]).in_order().len()
                    >= least,
        ensures
            self.lead(n).len() >= n * (least + 1),
        decreases n,
    {
        if n == 0 {
            self.lemma_lead_step(0);
        } else {
            self.lemma_lead_least(n - 1, least);
            self.lemma_lead_step(n - 1);
            assert(self.children[n - 1].in_order().len() >= least);
            assert(n * (least + 1) == (n - 1) * (least + 1) + (least + 1)) by (nonlinear_arith);
        }
    }

    /// Under a node with `m` entries whose children each hold `least`
    /// entries or more, the listing holds `(m + 1) * (least + 1) - 1`
    /// entries or more.
    pub(crate) proof fn lemma_listing_least(self, least: int)
        requires
            self.children.len() == self.keys.len() + 1,
            least >= 0,
            forall|i: int|
                0 <= i < self.children.len() ==> (#[trigger] self.children[i]).in_order().len()
                    >= least,
        ensures
            self.in_order().len() + 1 >= (self.keys.len() + 1) * (least + 1),
    {
        let m = self.keys.len() as int;
        self.lemma_lead_least(m, least);
        self.lemma_span(m);
        assert(self.children[m].in_order().len() >= least);
        assert((m + 1) * (least + 1) == m * (least + 1) + (least + 1)) by (nonlinear_arith);
    }

    /// The subtree under a node that holds `t - 1` entries or more holds
    /// `t` to the power of its height, less one, or more.
    pub(crate) proof fn lemma_filled(self, t: nat)
        requires
            t >= 2,
            self.shape(t),
            self.keys.len() >= t - 1,
        ensures
            self.in_order().len() + 1 >= pow(t as int, self.height()),
        decreases self.height(),
    {
        let h = self.height();
        self.lemma_height_positive();
        if self.children.len() == 0 {
            self.lemma_leaf();
            lemma_pow1(t as int);
        } else {
            let below = (h - 1) as nat;
            let least = pow(t as int, below) - 1;
            lemma_pow_positive(t as int, below);
            assert forall|i: int| 0 <= i < self.children.len() implies (
            #[trigger] self.children[i]).in_order().len() >= least by {
                self.children[i].lemma_filled(t);
            }
            self.lemma_listing_least(least);
            assert(pow(t as int, h) == t * pow(t as int, below)) by {
                reveal(pow);
            }
            assert((self.keys.len() + 1) * (least + 1) >= t * (least + 1)) by (nonlinear_arith)
                requires
                    self.keys.len() + 1 >= t,
                    least + 1 >= 0,
            ;
        }
    }

    /// The subtree under a node that has children and an entry holds twice
    /// `t` to the power of the height of its children, less one, or more.
    pub(crate) proof fn lemma_root_filled(self, t: nat)
        requires
            t >= 2,
            self.shape(t),
            self.children.len() > 0,
            self.keys.len() >= 1,
        ensures
            self.height() >= 2,
            self.in_order().len() + 1 >= 2 * pow(t as int, (self.height() - 1) as nat),
    {
        let h = self.height();
        self.lemma_height_positive();
        let below = (h - 1) as nat;
        let least = pow(t as int, below) - 1;
        lemma_pow_positive(t as int, below);
        assert forall|i: int| 0 <= i < self.children.len() implies (#[trigger] self.children[i]).in_order().len()
            >= least by {
            self.children[i].lemma_filled(t);
        }
        self.lemma_listing_least(least);
        assert((self.keys.len() + 1) * (least + 1) >= 2 * (least + 1)) by (nonlinear_arith)
            requires
                self.keys.len() + 1 >= 2,
                least + 1 >= 0,
        ;
    }
}

} // verus!
