//! Walks over a whole subtree: the count of its entries and their
//! enumeration in order.

use crate::btree::entries::Entry;
use crate::btree::node::Node;
use vstd::prelude::*;

verus! {

/// The entries that a sequence of references refers to.
pub open spec fn referred<K, V>(s: Seq<&Entry<K, V>>) -> Seq<Entry<K, V>> {
    s.map_values(|e: &Entry<K, V>| *e)
}

impl<K: Ord, V> Node<K, V> {
    /// What leads up to the end of an inner node is its whole listing.
    pub(crate) proof fn lemma_lead_all(self)
        requires
            self.children.len() == self.keys.len() + 1,
        ensures
            self.lead(self.children.len() as int) == self.in_order(),
    {
        let last = self.keys.len() as int;
        self.lemma_span(last);
        self.lemma_lead_step(last);
        self.lemma_ends();
        assert(self.in_order() =~= self.lead(last) + self.children[last].in_order() + self.sep(
            last,
        ));
    }

    /// The number of entries in the subtree under this node.
    pub(crate) fn count(&self, Ghost(t): Ghost<nat>) -> (n: usize)
        requires
            self.shape(t),
            self.in_order().len() <= usize::MAX,
        ensures
            n == self.in_order().len(),
        decreases self.height(),
    {
        if self.children.len() == 0 {
            proof {
                self.lemma_leaf();
            }
            return self.keys.len();
        }
        proof {
            self.lemma_ends();
            self.lemma_lead_all();
        }
        let mut n: usize = 0;
        let mut i: usize = 0;
        while i < self.children.len()
            invariant
                self.shape(t),
                self.children.len() == self.keys.len() + 1,
                self.in_order().len() <= usize::MAX,
                self.lead(self.children.len() as int) == self.in_order(),
                0 <= i <= self.children.len(),
                n == self.lead(i as int).len(),
            decreases self.children.len() - i,
        {
            proof {
                self.lemma_lead_step(i as int);
                self.lemma_lead_grows(i + 1, self.children.len() as int);
                assert(self.children[i as int].shape(t));
            }
            n = n + self.children[i].count(Ghost(t));
            if i < self.keys.len() {
                n = n + 1;
            }
            i = i + 1;
        }
        n
    }

    /// Appends references to the entries of the subtree under this node to
    /// `out`, in order.
    pub(crate) fn collect<'a>(&'a self, out: &mut Vec<&'a Entry<K, V>>, Ghost(t): Ghost<nat>)
        requires
            self.shape(t),
        ensures
            referred(final(out)@) == referred(old(out)@) + self.in_order(),
        decreases self.height(),
    {
        let ghost start = referred(out@);
        if self.children.len() == 0 {
            proof {
                self.lemma_leaf();
            }
            let mut i: usize = 0;
            while i < self.keys.len()
                invariant
                    0 <= i <= self.keys.len(),
                    referred(out@) == start + self.keys@.subrange(0, i as int),
                decreases self.keys.len() - i,
            {
                let ghost prev = out@;
                out.push(&self.keys[i]);
                proof {
                    assert(referred(out@) =~= referred(prev).push(self.keys@[i as int]));
                    assert(start + self.keys@.subrange(0, i + 1) =~= (start + self.keys@.subrange(
                        0,
                        i as int,
                    )).push(self.keys@[i as int]));
                }
                i = i + 1;
            }
            proof {
                assert(self.keys@.subrange(0, self.keys.len() as int) =~= self.keys@);
            }
            return ;
        }
        proof {
            self.lemma_ends();
            self.lemma_lead_all();
            assert(referred(out@) =~= start + self.lead(0));
        }
        let mut i: usize = 0;
        while i < self.children.len()
            invariant
                self.shape(t),
                self.children.len() == self.keys.len() + 1,
                0 <= i <= self.children.len(),
                referred(out@) == start + self.lead(i as int),
            decreases self.children.len() - i,
        {
            proof {
                self.lemma_lead_step(i as int);
                assert(self.children[i as int].shape(t));
            }
            self.children[i].collect(out, Ghost(t));
            if i < self.keys.len() {
                let ghost prev = out@;
                out.push(&self.keys[i]);
                proof {
                    assert(referred(out@) =~= referred(prev).push(self.keys@[i as int]));
                }
            }
            proof {
                assert(referred(out@) =~= start + self.lead(i + 1));
            }
            i = i + 1;
        }
    }
}

} // verus!
