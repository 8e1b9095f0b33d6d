//! Ascending sequences of entries, the model in which the tree's contents are
//! stated, and the facts about them that the tree's proofs rest on.

use crate::btree::order::{key_lt, lawful_order, lemma_order_laws};
use std::cmp::Ordering;
use vstd::prelude::*;
use vstd::std_specs::cmp::{PartialEqSpec, PartialEqSpecImpl, PartialOrdSpec, PartialOrdSpecImpl};

verus! {

/// One key with the value stored under it. Entries are ordered by key alone.
#[derive(Debug)]
pub struct Entry<K, V> {
    pub key: K,
    pub value: V,
}

impl<K: Ord, V> PartialEq for Entry<K, V> {
    /// Two entries are equal where their keys are.
    fn eq(&self, other: &Entry<K, V>) -> (r: bool) {
        self.key.eq(&other.key)
    }
}

impl<K: Ord, V> PartialEqSpecImpl for Entry<K, V> {
    open spec fn obeys_eq_spec() -> bool {
        K::obeys_eq_spec()
    }

    open spec fn eq_spec(&self, other: &Entry<K, V>) -> bool {
        self.key.eq_spec(&other.key)
    }
}

impl<K: Ord, V> PartialOrd for Entry<K, V> {
    /// Entries are ordered as their keys are.
    fn partial_cmp(&self, other: &Entry<K, V>) -> (r: Option<Ordering>) {
        self.key.partial_cmp(&other.key)
    }
}

impl<K: Ord, V> PartialOrdSpecImpl for Entry<K, V> {
    open spec fn obeys_partial_cmp_spec() -> bool {
        K::obeys_partial_cmp_spec()
    }

    open spec fn partial_cmp_spec(&self, other: &Entry<K, V>) -> Option<Ordering> {
        self.key.partial_cmp_spec(&other.key)
    }
}

/// The keys of `s` strictly increase from left to right.
pub open spec fn ascending<K: Ord, V>(s: Seq<Entry<K, V>>) -> bool {
    forall|i: int, j: int| 0 <= i < j < s.len() ==> key_lt(#[trigger] s[i].key, #[trigger] s[j].key)
}

/// Some entry of `s` has the key `k`.
pub open spec fn has_key<K, V>(s: Seq<Entry<K, V>>, k: K) -> bool {
    exists|i: int| 0 <= i < s.len() && #[trigger] s[i].key == k
}

/// The position of an entry of `s` with key `k`.
pub open spec fn index_of<K, V>(s: Seq<Entry<K, V>>, k: K) -> int {
    choose|i: int| 0 <= i < s.len() && #[trigger] s[i].key == k
}

/// The finite map that an ascending sequence of entries stands for.
pub open spec fn as_map<K, V>(s: Seq<Entry<K, V>>) -> Map<K, V> {
    Map::new(|k: K| has_key(s, k), |k: K| s[index_of(s, k)].value)
}

/// Every key before position `pos` is smaller than `k`, and no key from
/// `pos` on is: `pos` is where `k` stands, or would stand, in `s`.
pub open spec fn slot_of<K: Ord, V>(s: Seq<Entry<K, V>>, k: K, pos: int) -> bool {
    &&& 0 <= pos <= s.len()
    &&& forall|i: int| 0 <= i < pos ==> key_lt(#[trigger] s[i].key, k)
    &&& forall|i: int| pos <= i < s.len() ==> !key_lt(#[trigger] s[i].key, k)
}

/// `s` with `e` put at `pos`: over the entry there if that has `e`'s key,
/// in front of it otherwise.
pub open spec fn put_at<K, V>(s: Seq<Entry<K, V>>, pos: int, e: Entry<K, V>) -> Seq<Entry<K, V>> {
    if 0 <= pos < s.len() && s[pos].key == e.key {
        s.update(pos, e)
    } else {
        s.insert(pos, e)
    }
}

/// The place of the key `k` in `s`.
pub open spec fn place_of<K: Ord, V>(s: Seq<Entry<K, V>>, k: K) -> int {
    choose|pos: int| slot_of(s, k, pos)
}

/// `s` holds an entry with the key `key` at `pos`.
pub open spec fn hit<K, V>(s: Seq<Entry<K, V>>, key: K, pos: int) -> bool {
    0 <= pos < s.len() && s[pos].key == key
}

/// In an ascending sequence a key occurs at most once.
pub proof fn lemma_key_once<K: Ord, V>(s: Seq<Entry<K, V>>, i: int, j: int)
    requires
        lawful_order::<K>(),
        ascending(s),
        0 <= i < s.len(),
        0 <= j < s.len(),
        s[i].key == s[j].key,
    ensures
        i == j,
{
    lemma_order_laws::<K>();
    if i < j {
        assert(key_lt(s[i].key, s[j].key));
    } else if j < i {
        assert(key_lt(s[j].key, s[i].key));
    }
}

/// The map of an ascending sequence holds each entry under its key.
pub proof fn lemma_as_map_at<K: Ord, V>(s: Seq<Entry<K, V>>, i: int)
    requires
        lawful_order::<K>(),
        ascending(s),
        0 <= i < s.len(),
    ensures
        has_key(s, s[i].key),
        index_of(s, s[i].key) == i,
        as_map(s).contains_key(s[i].key),
        as_map(s)[s[i].key] == s[i].value,
{
    let k = s[i].key;
    assert(has_key(s, k));
    lemma_key_once(s, i, index_of(s, k));
}

/// Where a key stands in an ascending sequence is determined.
pub proof fn lemma_slot_unique<K: Ord, V>(s: Seq<Entry<K, V>>, k: K, p: int, q: int)
    requires
        lawful_order::<K>(),
        slot_of(s, k, p),
        slot_of(s, k, q),
    ensures
        p == q,
{
    if p < q {
        assert(key_lt(s[p].key, k));
    } else if q < p {
        assert(key_lt(s[q].key, k));
    }
}

/// At the place of a key in an ascending sequence stands the entry with that
/// key, if the sequence holds one.
pub proof fn lemma_place<K: Ord, V>(s: Seq<Entry<K, V>>, k: K, pos: int)
    requires
        lawful_order::<K>(),
        ascending(s),
        slot_of(s, k, pos),
    ensures
        place_of(s, k) == pos,
        has_key(s, k) <==> hit(s, k, pos),
        as_map(s).contains_key(k) <==> hit(s, k, pos),
        hit(s, k, pos) ==> as_map(s)[k] == s[pos].value,
{
    lemma_order_laws::<K>();
    lemma_slot_unique(s, k, pos, place_of(s, k));
    if has_key(s, k) {
        let i = index_of(s, k);
        if i < pos {
            assert(key_lt(s[i].key, k));
        } else if i > pos {
            assert(!key_lt(s[pos].key, k));
            assert(key_lt(s[pos].key, s[i].key));
        }
    }
    if hit(s, k, pos) {
        lemma_as_map_at(s, pos);
    }
}

/// Putting an entry at the place of its key keeps the sequence ascending and
/// adds the entry to its map.
pub proof fn lemma_put<K: Ord, V>(s: Seq<Entry<K, V>>, pos: int, e: Entry<K, V>)
    requires
        lawful_order::<K>(),
        ascending(s),
        slot_of(s, e.key, pos),
    ensures
        ascending(put_at(s, pos, e)),
        as_map(put_at(s, pos, e)) == as_map(s).insert(e.key, e.value),
        put_at(s, pos, e).len() == s.len() + if has_key(s, e.key) { 0int } else { 1int },
        has_key(s, e.key) <==> (pos < s.len() && s[pos].key == e.key),
{
    lemma_order_laws::<K>();
    let r = put_at(s, pos, e);
    let hit = 0 <= pos < s.len() && s[pos].key == e.key;
    if has_key(s, e.key) {
        let i = index_of(s, e.key);
        if i < pos {
            assert(key_lt(s[i].key, e.key));
        } else if i > pos {
            assert(!key_lt(s[pos].key, e.key));
            assert(key_lt(s[pos].key, s[i].key));
        }
        assert(hit);
    }
    if hit {
        assert(has_key(s, e.key));
    }
    assert forall|i: int, j: int| 0 <= i < j < r.len() implies key_lt(
        #[trigger] r[i].key,
        #[trigger] r[j].key,
    ) by {
        if hit {
            assert(r[i].key == s[i].key);
            assert(r[j].key == s[j].key);
        } else {
            let a = if i < pos { i } else { i - 1 };
            let b = if j < pos { j } else { j - 1 };
            if i != pos && j != pos {
                assert(r[i] == s[a]);
                assert(r[j] == s[b]);
                assert(key_lt(s[a].key, s[b].key));
            } else if i == pos {
                assert(r[j] == s[b]);
                assert(!key_lt(s[b].key, e.key));
                assert(s[b].key != e.key) by {
                    if s[b].key == e.key {
                        assert(has_key(s, e.key));
                    }
                }
            } else {
                assert(r[i] == s[a]);
            }
        }
    }
    assert forall|k: K| as_map(r).contains_key(k) <==> #[trigger] as_map(s).insert(
        e.key,
        e.value,
    ).contains_key(k) by {
        if has_key(r, k) {
            let i = index_of(r, k);
            if hit {
                assert(s[i].key == k);
            } else if i != pos {
                let a = if i < pos { i } else { i - 1 };
                assert(s[a].key == k);
            }
        }
        if has_key(s, k) {
            let i = index_of(s, k);
            if hit {
                assert(r[i].key == k);
            } else {
                let a = if i < pos { i } else { i + 1 };
                assert(r[a].key == k);
            }
        }
        if k == e.key {
            assert(r[pos].key == k);
        }
    }
    assert forall|k: K| as_map(r).contains_key(k) implies #[trigger] as_map(r)[k] == as_map(
        s,
    ).insert(e.key, e.value)[k] by {
        let i = index_of(r, k);
        lemma_as_map_at(r, i);
        if k == e.key {
            lemma_key_once(r, i, pos);
        } else if hit {
            assert(i != pos);
            assert(s[i].key == k);
            lemma_as_map_at(s, i);
        } else {
            assert(i != pos);
            let a = if i < pos { i } else { i - 1 };
            assert(s[a] == r[i]);
            lemma_as_map_at(s, a);
        }
    }
    assert(as_map(r) =~= as_map(s).insert(e.key, e.value));
}

/// Taking one entry out keeps the sequence ascending and removes its key
/// from the map.
pub proof fn lemma_take<K: Ord, V>(s: Seq<Entry<K, V>>, pos: int)
    requires
        lawful_order::<K>(),
        ascending(s),
        0 <= pos < s.len(),
    ensures
        ascending(s.remove(pos)),
        as_map(s.remove(pos)) == as_map(s).remove(s[pos].key),
        as_map(s).contains_key(s[pos].key),
        as_map(s)[s[pos].key] == s[pos].value,
{
    lemma_order_laws::<K>();
    let r = s.remove(pos);
    let gone = s[pos].key;
    lemma_as_map_at(s, pos);
    assert forall|i: int, j: int| 0 <= i < j < r.len() implies key_lt(
        #[trigger] r[i].key,
        #[trigger] r[j].key,
    ) by {
        let a = if i < pos { i } else { i + 1 };
        let b = if j < pos { j } else { j + 1 };
        assert(r[i] == s[a]);
        assert(r[j] == s[b]);
    }
    assert forall|k: K| as_map(r).contains_key(k) <==> #[trigger] as_map(s).remove(
        gone,
    ).contains_key(k) by {
        if has_key(r, k) {
            let i = index_of(r, k);
            let a = if i < pos { i } else { i + 1 };
            assert(s[a].key == k);
            if k == gone {
                lemma_key_once(s, a, pos);
            }
        }
        if has_key(s, k) && k != gone {
            let i = index_of(s, k);
            let a = if i < pos { i } else { i - 1 };
            assert(r[a].key == k);
        }
    }
    assert forall|k: K| as_map(r).contains_key(k) implies #[trigger] as_map(r)[k] == as_map(
        s,
    ).remove(gone)[k] by {
        let i = index_of(r, k);
        let a = if i < pos { i } else { i + 1 };
        assert(r[i] == s[a]);
        lemma_as_map_at(r, i);
        lemma_as_map_at(s, a);
    }
    assert(as_map(r) =~= as_map(s).remove(gone));
}

/// The map of an ascending sequence is finite and has one key for each entry.
pub proof fn lemma_map_len<K: Ord, V>(s: Seq<Entry<K, V>>)
    requires
        lawful_order::<K>(),
        ascending(s),
    ensures
        as_map(s).dom().finite(),
        as_map(s).dom().len() == s.len(),
    decreases s.len(),
{
    if s.len() == 0 {
        assert(as_map(s).dom() =~= Set::<K>::empty());
    } else {
        let last = s.len() - 1;
        let r = s.remove(last);
        lemma_take(s, last);
        lemma_map_len(r);
        assert(as_map(s).dom() =~= as_map(r).dom().insert(s[last].key));
        assert(!as_map(r).dom().contains(s[last].key));
    }
}

/// Every key has a place in an ascending sequence.
pub proof fn lemma_slot_exists<K: Ord, V>(s: Seq<Entry<K, V>>, key: K)
    requires
        lawful_order::<K>(),
        ascending(s),
    ensures
        slot_of(s, key, place_of(s, key)),
    decreases s.len(),
{
    lemma_order_laws::<K>();
    if s.len() == 0 {
        assert(slot_of(s, key, 0));
    } else {
        let last = s.len() - 1;
        if key_lt(s[last].key, key) {
            assert forall|i: int| 0 <= i < s.len() implies key_lt(
                #[trigger] s[i].key,
                key,
            ) by {
                if i < last {
                    assert(key_lt(s[i].key, s[last].key));
                }
            }
            assert(slot_of(s, key, s.len() as int));
        } else {
            let r = s.drop_last();
            assert forall|i: int, j: int| 0 <= i < j < r.len() implies key_lt(
                #[trigger] r[i].key,
                #[trigger] r[j].key,
            ) by {
                assert(r[i] == s[i]);
                assert(r[j] == s[j]);
            }
            lemma_slot_exists(r, key);
            let p = place_of(r, key);
            assert forall|i: int| 0 <= i < p implies key_lt(
                #[trigger] s[i].key,
                key,
            ) by {
                assert(r[i] == s[i]);
            }
            assert forall|i: int| p <= i < s.len() implies !key_lt(
                #[trigger] s[i].key,
                key,
            ) by {
                if i < last {
                    assert(r[i] == s[i]);
                }
            }
            assert(slot_of(s, key, p));
        }
    }
}

} // verus!
