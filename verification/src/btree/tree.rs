//! The tree: a root node, the minimum degree that the tree was made with,
//! and the operations that callers see.

use crate::btree::delete::removed;
use crate::btree::entries::{
    as_map, ascending, has_key, hit, lemma_map_len, lemma_place, lemma_put, lemma_slot_exists,
    lemma_take, place_of, put_at, Entry,
};
use crate::btree::listing::referred;
use crate::btree::node::{degree_ok, Node};
use crate::btree::order::lawful_order;
use vstd::arithmetic::power::pow;
use vstd::prelude::*;

verus! {

/// An ordered map from keys to values, kept as a B-tree of minimum degree
/// `t`: every node but the root holds between `t - 1` and `2t - 1` entries,
/// and all leaves are at the same depth.
#[derive(Debug)]
pub struct NaiveBTree<K: Ord, V> {
    root: Node<K, V>,
    order: usize,
}

impl<K: Ord, V> View for NaiveBTree<K, V> {
    type V = Map<K, V>;

    /// The tree as a map: each key of the listing with its value.
    open spec fn view(&self) -> Map<K, V> {
        as_map(self.in_order())
    }
}

impl<K: Ord, V> NaiveBTree<K, V> {
    /// The minimum degree `t` of the tree.
    pub closed spec fn degree(&self) -> nat {
        self.order as nat
    }

    /// The entries of the tree as an in-order traversal meets them.
    pub closed spec fn in_order(&self) -> Seq<Entry<K, V>> {
        self.root.in_order()
    }

    /// The number of levels of the tree; 1 for a tree whose root is a leaf.
    pub closed spec fn levels(&self) -> nat {
        self.root.height()
    }

    /// The number of entries that the root itself holds.
    pub closed spec fn root_len(&self) -> nat {
        self.root.keys.len() as nat
    }

    /// The two trees have the same degree and the same layout of nodes: node
    /// for node as many entries and as many children.
    pub closed spec fn same_layout(&self, other: &Self) -> bool {
        self.order == other.order && self.root.alike(other.root)
    }

    /// The tree is valid: its degree is at least 2, every node has the shape
    /// that the degree asks for, a root with children holds an entry, and
    /// the listing of the tree ascends by key. Every tree is valid at all
    /// times.
    #[verifier::type_invariant]
    pub closed spec fn wf(&self) -> bool {
        &&& degree_ok(self.order)
        &&& self.root.shape(self.order as nat)
        &&& self.root.removable()
        &&& ascending(self.root.in_order())
    }

    /// In every node the entries ascend by key without duplicates, the keys
    /// under a child lie between the entries beside it, there are at most
    /// `2t - 1` entries, in every node but the root at least `t - 1`, an
    /// inner node has one child more than entries, and all leaves are at the
    /// same depth. A root without entries is a leaf.
    pub closed spec fn sound(&self) -> bool {
        &&& self.order >= 2
        &&& self.root.sound(self.order as nat)
        &&& self.root.keys.len() == 0 ==> self.root.children.len() == 0
    }

    /// A valid tree is sound in every node.
    pub proof fn lemma_invariants(&self)
        requires
            self.wf(),
            lawful_order::<K>(),
        ensures
            self.sound(),
            self.levels() >= 1,
            self.root_len() <= 2 * self.degree() - 1,
            self.degree() >= 2,
    {
        self.root.lemma_sound(self.order as nat);
        self.root.lemma_height_positive();
    }

    /// An in-order traversal of a valid tree meets the keys in strictly
    /// increasing order, and the tree holds one key for each entry of it.
    pub proof fn lemma_listing_ascends(&self)
        requires
            self.wf(),
            lawful_order::<K>(),
        ensures
            ascending(self.in_order()),
            self@.dom().finite(),
            self@.len() == self.in_order().len(),
            self.in_order().len() >= self.root_len(),
            self.in_order().len() == 0 ==> self.levels() == 1 && self.root_len() == 0,
    {
        lemma_map_len(self.in_order());
        self.root.lemma_listing_covers();
        self.root.lemma_height_positive();
    }

    /// The root of a tree of one level holds all entries of the tree.
    pub proof fn lemma_one_level(&self)
        requires
            self.wf(),
        ensures
            self.levels() == 1 ==> self.root_len() == self.in_order().len(),
            self.levels() >= 2 ==> self.root_len() >= 1,
    {
        self.root.lemma_height_positive();
        if self.root.children.len() == 0 {
            self.root.lemma_leaf();
        }
    }

    /// The height of a valid tree is logarithmic in the number of its
    /// entries: a tree of `h` levels, more than one, holds at least
    /// `2 * t^(h - 1) - 1` entries.
    pub proof fn lemma_height_is_logarithmic(&self)
        requires
            self.wf(),
        ensures
            self.levels() >= 1,
            self.levels() >= 2 ==> self.in_order().len() + 1 >= 2 * pow(
                self.degree() as int,
                (self.levels() - 1) as nat,
            ),
    {
        self.root.lemma_height_positive();
        if self.root.children.len() > 0 {
            self.root.lemma_root_filled(self.order as nat);
        }
    }

    /// An empty tree of minimum degree `order`.
    pub fn new(order: usize) -> (tree: Self)
        requires
            degree_ok(order),
        ensures
            tree.wf(),
            tree.degree() == order,
            tree.in_order() == Seq::<Entry<K, V>>::empty(),
            tree.levels() == 1,
            tree.root_len() == 0,
    {
        let root = Node::empty();
        proof {
            root.lemma_leaf();
        }
        NaiveBTree { root, order }
    }

    /// The minimum degree that the tree was made with.
    pub fn order(&self) -> (t: usize)
        ensures
            t == self.degree(),
    {
        self.order
    }

    /// Whether the tree holds no entry.
    pub fn is_empty(&self) -> (r: bool)
        ensures
            self.wf(),
            r == (self.in_order().len() == 0),
            r ==> self.levels() == 1 && self.root_len() == 0,
            lawful_order::<K>() ==> r == (self@.len() == 0),
    {
        proof {
            use_type_invariant(self);
            self.root.lemma_listing_covers();
            self.root.lemma_height_positive();
            if self.root.children.len() == 0 {
                self.root.lemma_leaf();
            }
            if lawful_order::<K>() {
                lemma_map_len(self.in_order());
            }
        }
        self.root.keys.len() == 0
    }

    /// The number of entries in the tree.
    pub fn len(&self) -> (n: usize)
        requires
            self.in_order().len() <= usize::MAX,
        ensures
            self.wf(),
            n == self.in_order().len(),
            lawful_order::<K>() ==> n == self@.len(),
    {
        proof {
            use_type_invariant(self);
            if lawful_order::<K>() {
                lemma_map_len(self.in_order());
            }
        }
        self.root.count(Ghost(self.order as nat))
    }

    /// The number of levels of the tree.
    pub fn height(&self) -> (h: usize)
        requires
            self.levels() <= usize::MAX,
        ensures
            self.wf(),
            h == self.levels(),
    {
        let ghost t = self.order as nat;
        let mut node = &self.root;
        let mut h: usize = 1;
        proof {
            use_type_invariant(self);
            node.lemma_height_positive();
        }
        while !node.is_leaf()
            invariant
                node.shape(t),
                h + node.height() == self.root.height() + 1,
                self.root.height() <= usize::MAX,
                node.height() >= 1,
            decreases node.height(),
        {
            proof {
                node.lemma_height_positive();
                assert(node.children[0].shape(t));
                node.children[0].lemma_height_positive();
            }
            node = &node.children[0];
            h = h + 1;
        }
        h
    }

    /// The entries of the tree, in ascending order of their keys.
    pub fn entries(&self) -> (out: Vec<&Entry<K, V>>)
        ensures
            self.wf(),
            referred(out@) == self.in_order(),
            ascending(referred(out@)),
    {
        proof {
            use_type_invariant(self);
        }
        let mut out = Vec::new();
        self.root.collect(&mut out, Ghost(self.order as nat));
        proof {
            assert(referred(Seq::<&Entry<K, V>>::empty()) =~= Seq::<Entry<K, V>>::empty());
            assert(referred(out@) =~= self.in_order());
        }
        out
    }

    /// The value stored under `key`, if there is one.
    pub fn get(&self, key: &K) -> (r: Option<&V>)
        requires
            lawful_order::<K>(),
        ensures
            self.wf(),
            r == if self@.contains_key(*key) {
                Some(&self@[*key])
            } else {
                None
            },
    {
        proof {
            use_type_invariant(self);
        }
        self.root.get(key, Ghost(self.order as nat))
    }

    /// Stores `value` under `key`. Where the tree holds the key already, the
    /// value alone is replaced and no node changes its layout. Otherwise the
    /// entry is inserted as `insert_2` does it.
    pub fn insert(&mut self, key: K, value: V)
        requires
            lawful_order::<K>(),
        ensures
            old(self).wf(),
            final(self).wf(),
            final(self).degree() == old(self).degree(),
            final(self)@ == old(self)@.insert(key, value),
            final(self).in_order() == put_at(
                old(self).in_order(),
                place_of(old(self).in_order(), key),
                (Entry { key, value }),
            ),
            final(self).in_order().len() == old(self).in_order().len() + if old(
                self,
            )@.contains_key(key) {
                0int
            } else {
                1int
            },
            old(self)@.contains_key(key) ==> final(self).same_layout(old(self)),
            old(self)@.contains_key(key) ==> final(self).levels() == old(self).levels()
                && final(self).root_len() == old(self).root_len(),
            !old(self)@.contains_key(key) ==> final(self).levels() == old(self).levels() + if old(
                self,
            ).root_len() == 2 * old(self).degree() - 1 {
                1int
            } else {
                0int
            },
            !old(self)@.contains_key(key) && old(self).root_len() == 2 * old(self).degree() - 1
                ==> final(self).root_len() == 1,
    {
        proof {
            use_type_invariant(&*self);
        }
        let ghost s = self.in_order();
        let entry = Entry { key, value };
        let mut root = Node::empty();
        proof {
            root.lemma_leaf();
        }
        std::mem::swap(&mut self.root, &mut root);
        let (back, Ghost(pos)) = root.assign(entry, Ghost(self.order as nat));
        proof {
            lemma_place(s, key, pos);
            lemma_put(s, pos, entry);
        }
        self.root = root;
        match back {
            None => {},
            Some(entry) => {
                let Entry { key, value } = entry;
                self.insert_2(key, value);
            },
        }
    }

    /// Stores `value` under `key` in one descent from the root. A full root
    /// is split first, under a new root, which makes the tree one level
    /// higher; every full child on the way is split before the descent
    /// enters it. The entry replaces the one with its key, where the descent
    /// meets it, and is put into a leaf otherwise.
    pub fn insert_2(&mut self, key: K, value: V)
        requires
            lawful_order::<K>(),
        ensures
            old(self).wf(),
            final(self).wf(),
            final(self).degree() == old(self).degree(),
            final(self)@ == old(self)@.insert(key, value),
            final(self).in_order() == put_at(
                old(self).in_order(),
                place_of(old(self).in_order(), key),
                (Entry { key, value }),
            ),
            final(self).in_order().len() == old(self).in_order().len() + if old(
                self,
            )@.contains_key(key) {
                0int
            } else {
                1int
            },
            final(self).levels() == old(self).levels() + if old(self).root_len() == 2 * old(
                self,
            ).degree() - 1 {
                1int
            } else {
                0int
            },
            old(self).root_len() == 2 * old(self).degree() - 1 ==> final(self).root_len() == 1,
    {
        proof {
            use_type_invariant(&*self);
        }
        let ghost s = self.in_order();
        let ghost before = self.root;
        let t = self.order;
        let mut root = Node::empty();
        proof {
            root.lemma_leaf();
        }
        std::mem::swap(&mut self.root, &mut root);
        if root.is_full(t) {
            let mut old_root = Node::empty();
            std::mem::swap(&mut root, &mut old_root);
            root.children.push(old_root);
            proof {
                assert(root.children@ =~= seq![before]);
                assert(root.children[0] == before);
                root.lemma_single_child();
                before.lemma_height_positive();
                assert(root.height() == before.height() + 1);
                assert(root.shape(t as nat));
            }
            root.split_child(0, t);
        }
        let entry = Entry { key, value };
        let ghost split = root;
        let Ghost(pos) = root.insert(entry, t);
        proof {
            lemma_place(s, key, pos);
            lemma_put(s, pos, entry);
            split.lemma_height_positive();
            root.lemma_height_positive();
        }
        self.root = root;
    }

    /// Removes the entry with the key `key` and returns its value. The key
    /// is looked up first: where the tree holds no entry with it, the call
    /// returns `None` and leaves every node as it is. Otherwise the descent
    /// from the root repairs each child that holds the minimum number of
    /// entries before it enters it.
    pub fn remove(&mut self, key: &K) -> (r: Option<V>)
        requires
            lawful_order::<K>(),
        ensures
            old(self).wf(),
            final(self).wf(),
            final(self).degree() == old(self).degree(),
            final(self)@ == old(self)@.remove(*key),
            r == if old(self)@.contains_key(*key) {
                Some(old(self)@[*key])
            } else {
                None
            },
            removed(
                old(self).in_order(),
                *key,
                place_of(old(self).in_order(), *key),
                final(self).in_order(),
                r,
            ),
            !final(self)@.contains_key(*key),
            final(self).in_order().len() + if old(self)@.contains_key(*key) {
                1int
            } else {
                0int
            } == old(self).in_order().len(),
            final(self).levels() <= old(self).levels() <= final(self).levels() + 1,
            !has_key(old(self).in_order(), *key) ==> *final(self) == *old(self),
            !old(self)@.contains_key(*key) ==> *final(self) == *old(self),
    {
        proof {
            use_type_invariant(&*self);
        }
        let ghost s = self.in_order();
        let t = self.order;
        let mut root = Node::empty();
        proof {
            root.lemma_leaf();
        }
        std::mem::swap(&mut self.root, &mut root);
        let (out, Ghost(pos)) = root.remove(key, t);
        proof {
            lemma_place(s, *key, pos);
            if hit(s, *key, pos) {
                lemma_take(s, pos);
            } else {
                assert(as_map(s).remove(*key) =~= as_map(s));
            }
        }
        self.root = root;
        out
    }

    /// Removes the entry with the key `key` and returns its value; `None`,
    /// and no change in any node, if the tree holds no such entry. Once the
    /// key is found to be there, one descent from the root removes it:
    /// before the descent enters a child that holds the minimum number of
    /// entries, the child borrows an entry from a sibling or is merged with
    /// one, so that the listing stays as it is; a root that a merge leaves
    /// without entries gives way to its one child, which makes the tree one
    /// level lower. An entry of an inner node is replaced by its predecessor
    /// or successor, which is removed from the subtree it came from.
    pub fn remove_2(&mut self, key: &K) -> (r: Option<V>)
        requires
            lawful_order::<K>(),
        ensures
            old(self).wf(),
            final(self).wf(),
            final(self).degree() == old(self).degree(),
            final(self)@ == old(self)@.remove(*key),
            r == if old(self)@.contains_key(*key) {
                Some(old(self)@[*key])
            } else {
                None
            },
            removed(
                old(self).in_order(),
                *key,
                place_of(old(self).in_order(), *key),
                final(self).in_order(),
                r,
            ),
            !final(self)@.contains_key(*key),
            final(self).in_order().len() + if old(self)@.contains_key(*key) {
                1int
            } else {
                0int
            } == old(self).in_order().len(),
            final(self).levels() <= old(self).levels() <= final(self).levels() + 1,
            !has_key(old(self).in_order(), *key) ==> *final(self) == *old(self),
            !old(self)@.contains_key(*key) ==> *final(self) == *old(self),
    {
        proof {
            use_type_invariant(&*self);
        }
        if self.root.get(key, Ghost(self.order as nat)).is_none() {
            proof {
                self.remove_nothing(*key);
            }
            return None;
        }
        let ghost s = self.in_order();
        let t = self.order;
        let mut root = Node::empty();
        proof {
            root.lemma_leaf();
        }
        std::mem::swap(&mut self.root, &mut root);
        let (out, Ghost(pos)) = root.take_out(key, t);
        proof {
            lemma_place(s, *key, pos);
            lemma_take(s, pos);
        }
        self.root = root;
        out
    }

    /// A removal that finds no entry with the key leaves everything as it
    /// is.
    proof fn remove_nothing(&self, key: K)
        requires
            self.wf(),
            lawful_order::<K>(),
            !self@.contains_key(key),
        ensures
            self@ == self@.remove(key),
            removed(
                self.in_order(),
                key,
                place_of(self.in_order(), key),
                self.in_order(),
                None::<V>,
            ),
    {
        let s = self.in_order();
        assert(as_map(s).remove(key) =~= as_map(s));
        lemma_slot_exists(s, key);
        lemma_place(s, key, place_of(s, key));
    }
}

impl<K: Ord, V> Default for NaiveBTree<K, V> {
    /// An empty tree of minimum degree 2.
    fn default() -> (tree: Self)
        ensures
            tree.wf(),
            tree.degree() == 2,
            tree.in_order() == Seq::<Entry<K, V>>::empty(),
            tree.levels() == 1,
            tree.root_len() == 0,
    {
        NaiveBTree::new(2)
    }
}

} // verus!
