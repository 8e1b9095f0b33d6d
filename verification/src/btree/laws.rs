//! Laws that relate several operations of the tree to each other, stated
//! over the listing and the map in which the operations are specified.

use crate::btree::entries::{
    as_map, hit, lemma_key_once, lemma_place, lemma_put, lemma_slot_exists, place_of, put_at,
    slot_of, Entry,
};
use crate::btree::order::{key_lt, lawful_order, lemma_order_laws};
use crate::btree::tree::NaiveBTree;
use vstd::prelude::*;

verus! {

/// The map that `m` becomes when the entries of `ops` are inserted into it
/// one after the other, as `insert` does it.
pub open spec fn insert_all<K, V>(m: Map<K, V>, ops: Seq<Entry<K, V>>) -> Map<K, V>
    decreases ops.len(),
{
    if ops.len() == 0 {
        m
    } else {
        insert_all(m, ops.drop_last()).insert(ops.last().key, ops.last().value)
    }
}

/// `i` is the last position at which `ops` inserts the key `k`.
pub open spec fn last_insert_of<K, V>(ops: Seq<Entry<K, V>>, k: K, i: int) -> bool {
    &&& 0 <= i < ops.len()
    &&& ops[i].key == k
    &&& forall|j: int| i < j < ops.len() ==> (#[trigger] ops[j]).key != k
}

/// `ops` inserts the key `k` nowhere.
pub open spec fn never_inserted<K, V>(ops: Seq<Entry<K, V>>, k: K) -> bool {
    forall|j: int| 0 <= j < ops.len() ==> (#[trigger] ops[j]).key != k
}

impl<K: Ord, V> NaiveBTree<K, V> {
    /// Inserts the entries one after the other, the first one first.
    pub fn extend(&mut self, entries: Vec<Entry<K, V>>)
        requires
            lawful_order::<K>(),
        ensures
            final(self).wf(),
            final(self).degree() == old(self).degree(),
            final(self)@ == insert_all(old(self)@, entries@),
    {
        proof {
            use_type_invariant(&*self);
        }
        let ghost all = entries@;
        for entry in iter: entries
            invariant
                lawful_order::<K>(),
                self.wf(),
                self.degree() == old(self).degree(),
                iter.seq() == all,
                self@ == insert_all(old(self)@, all.take(iter.index())),
        {
            let ghost n = iter.index();
            let Entry { key, value } = entry;
            self.insert(key, value);
            proof {
                assert(all.take(n + 1).drop_last() =~= all.take(n));
                assert(all.take(n + 1).last() == entry);
            }
        }
        proof {
            assert(all.take(all.len() as int) =~= all);
        }
    }

    /// After a sequence of insertions, a lookup of a key gives the value
    /// that was inserted last under it, and a key that was never inserted is
    /// found only if the tree held it before, with the value it had.
    pub proof fn law_round_trip(&self, ops: Seq<Entry<K, V>>, k: K)
        ensures
            forall|i: int| #[trigger]
                last_insert_of(ops, k, i) ==> insert_all(self@, ops).contains_key(k) && insert_all(
                    self@,
                    ops,
                )[k] == ops[i].value,
            never_inserted(ops, k) ==> insert_all(self@, ops).contains_key(k)
                == self@.contains_key(k),
            never_inserted(ops, k) && self@.contains_key(k) ==> insert_all(self@, ops)[k]
                == self@[k],
        decreases ops.len(),
    {
        if ops.len() > 0 {
            let rest = ops.drop_last();
            self.law_round_trip(rest, k);
            if ops.last().key != k {
                assert forall|i: int| #[trigger] last_insert_of(ops, k, i) implies last_insert_of(
                    rest,
                    k,
                    i,
                ) by {
                    assert forall|j: int| i < j < rest.len() implies (#[trigger] rest[j]).key
                        != k by {
                        assert(rest[j] == ops[j]);
                    }
                }
            }
            if never_inserted(ops, k) {
                assert forall|j: int| 0 <= j < rest.len() implies (#[trigger] rest[j]).key != k by {
                    assert(rest[j] == ops[j]);
                }
            }
        }
    }

    /// Inserting a key twice, with two values, leaves one entry with that
    /// key, which holds the second value; the second insertion changes the
    /// number of entries by nothing, and the outcome is that of inserting
    /// the second value alone.
    pub proof fn law_insert_twice(&self, key: K, first: V, second: V)
        requires
            self.wf(),
            lawful_order::<K>(),
        ensures
            ({
                let s = self.in_order();
                let once = put_at(s, place_of(s, key), (Entry { key, value: first }));
                let twice = put_at(once, place_of(once, key), (Entry { key, value: second }));
                &&& twice.len() == once.len()
                &&& twice == put_at(s, place_of(s, key), (Entry { key, value: second }))
                &&& hit(twice, key, place_of(s, key))
                &&& twice[place_of(s, key)].value == second
                &&& forall|i: int| 0 <= i < twice.len() && i != place_of(s, key) ==> (
                #[trigger] twice[i]).key != key
                &&& as_map(twice) == self@.insert(key, second)
            }),
    {
        let s = self.in_order();
        let p = place_of(s, key);
        let e1 = Entry { key, value: first };
        let e2 = Entry { key, value: second };
        self.lemma_listing_ascends();
        lemma_slot_exists(s, key);
        lemma_put(s, p, e1);
        let once = put_at(s, p, e1);
        assert(once[p] == e1);
        lemma_order_laws::<K>();
        assert(slot_of(once, key, p)) by {
            assert forall|i: int| 0 <= i < p implies key_lt(
                #[trigger] once[i].key,
                key,
            ) by {
                assert(once[i] == s[i]);
            }
            assert forall|i: int| p <= i < once.len() implies !key_lt(
                #[trigger] once[i].key,
                key,
            ) by {
                if i > p {
                    assert(key_lt(once[p].key, once[i].key));
                }
            }
        }
        lemma_place(once, key, p);
        lemma_put(once, p, e2);
        let twice = put_at(once, p, e2);
        assert(twice =~= put_at(s, p, e2));
        assert forall|i: int| 0 <= i < twice.len() && i != p implies (#[trigger] twice[i]).key
            != key by {
            if twice[i].key == key {
                lemma_key_once(twice, i, p);
            }
        }
        assert(as_map(s).insert(key, first).insert(key, second) =~= as_map(s).insert(key, second));
    }
}

} // verus!
