//! Lookup: binary search among the entries of a node, and the descent from a
//! node to the entry with a given key.

use crate::btree::entries::{ascending, has_key, index_of, lemma_as_map_at, slot_of};
use crate::btree::node::Node;
use crate::btree::order::{key_lt, lawful_order, lemma_order_laws, rank_of, Rank};
use vstd::prelude::*;

verus! {

impl<K: Ord, V> Node<K, V> {
    /// Binary search for `key` among the entries of this node. `Ok` holds
    /// the index of the entry with that key; `Err` holds the number of
    /// entries with a smaller key, which is the index of the child to go on
    /// with.
    pub(crate) fn find_key(&self, key: &K) -> (r: Result<usize, usize>)
        requires
            lawful_order::<K>(),
            ascending(self.keys@),
        ensures
            match r {
                Ok(i) => i < self.keys.len() && self.keys[i as int].key == *key && slot_of(
                    self.keys@,
                    *key,
                    i as int,
                ),
                Err(i) => slot_of(self.keys@, *key, i as int) && !has_key(self.keys@, *key),
            },
    {
        proof {
            lemma_order_laws::<K>();
        }
        let mut lo: usize = 0;
        let mut hi: usize = self.keys.len();
        while lo < hi
            invariant
                lawful_order::<K>(),
                ascending(self.keys@),
                0 <= lo <= hi <= self.keys.len(),
                forall|i: int| 0 <= i < lo ==> key_lt(#[trigger] self.keys@[i].key, *key),
                forall|i: int| hi <= i < self.keys.len() ==> key_lt(*key, #[trigger] self.keys@[i].key),
            decreases hi - lo,
        {
            proof {
                lemma_order_laws::<K>();
            }
            let mid: usize = lo + (hi - lo) / 2;
            match rank_of(&self.keys[mid].key, key) {
                Rank::Before => {
                    assert forall|i: int| 0 <= i < mid + 1 implies key_lt(
                        #[trigger] self.keys@[i].key,
                        *key,
                    ) by {
                        if i < mid {
                            assert(key_lt(self.keys@[i].key, self.keys@[mid as int].key));
                        }
                    }
                    lo = mid + 1;
                },
                Rank::Same => {
                    assert forall|i: int| 0 <= i < mid implies key_lt(
                        #[trigger] self.keys@[i].key,
                        *key,
                    ) by {
                        assert(key_lt(self.keys@[i].key, self.keys@[mid as int].key));
                    }
                    assert forall|i: int| mid <= i < self.keys.len() implies !key_lt(
                        #[trigger] self.keys@[i].key,
                        *key,
                    ) by {
                        if mid < i {
                            assert(key_lt(self.keys@[mid as int].key, self.keys@[i].key));
                        }
                    }
                    return Ok(mid);
                },
                Rank::After => {
                    assert forall|i: int| mid <= i < self.keys.len() implies key_lt(
                        *key,
                        #[trigger] self.keys@[i].key,
                    ) by {
                        if mid < i {
                            assert(key_lt(self.keys@[mid as int].key, self.keys@[i].key));
                        }
                    }
                    hi = mid;
                },
            }
        }
        proof {
            if has_key(self.keys@, *key) {
                let i = index_of(self.keys@, *key);
                if i < lo {
                    assert(key_lt(self.keys@[i].key, *key));
                } else {
                    assert(key_lt(*key, self.keys@[i].key));
                }
            }
        }
        Err(lo)
    }

    /// The value stored under `key` in this subtree, if there is one.
    pub(crate) fn get(&self, key: &K, Ghost(t): Ghost<nat>) -> (r: Option<&V>)
        requires
            lawful_order::<K>(),
            self.shape(t),
            ascending(self.in_order()),
        ensures
            has_key(self.in_order(), *key) ==> r == Some(
                &self.in_order()[index_of(self.in_order(), *key)].value,
            ),
            !has_key(self.in_order(), *key) ==> r.is_none(),
        decreases self.height(),
    {
        proof {
            lemma_order_laws::<K>();
            self.lemma_parts_ascending();
        }
        let ghost s = self.in_order();
        match self.find_key(key) {
            Ok(idx) => {
                proof {
                    if self.children.len() == 0 {
                        self.lemma_leaf();
                        lemma_as_map_at(s, idx as int);
                    } else {
                        self.lemma_key_place(idx as int);
                        lemma_as_map_at(s, self.key_at(idx as int));
                    }
                }
                Some(&self.keys[idx].value)
            },
            Err(idx) => {
                if self.children.len() == 0 {
                    proof {
                        self.lemma_leaf();
                    }
                    None
                } else {
                    let r = self.children[idx].get(key, Ghost(t));
                    proof {
                        let c = self.children[idx as int].in_order();
                        let off = self.lead(idx as int).len() as int;
                        self.lemma_route(idx as int, *key);
                        self.lemma_child_place(idx as int);
                        if has_key(c, *key) {
                            let p = index_of(c, *key);
                            assert(s[off + p] == c[p]);
                            lemma_as_map_at(s, off + p);
                        } else if has_key(s, *key) {
                            let q = index_of(s, *key);
                            if off <= q < off + c.len() {
                                assert(c[q - off] == s[q]);
                            }
                        }
                    }
                    r
                }
            },
        }
    }
}

} // verus!
