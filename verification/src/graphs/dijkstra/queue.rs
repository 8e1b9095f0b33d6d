//! The queue of the search: an ordered set of pairs of a length and a node.

use std::collections::BTreeSet;
use vstd::laws_cmp::group_laws_cmp;
use vstd::laws_cmp::obeys_cmp;
use vstd::prelude::*;
use vstd::std_specs::btree::axiom_increasing_seq_meaning;
use vstd::std_specs::btree::group_btree_axioms;
use vstd::std_specs::btree::increasing_seq;
use vstd::std_specs::cmp::OrdSpec;
use vstd::std_specs::iter::IteratorSpec;

verus! {

/// The pair `a` does not come after the pair `b`: it has the smaller length,
/// or the same length and not the greater node.
pub open spec fn not_after(a: (u64, usize), b: (u64, usize)) -> bool {
    a.0 < b.0 || (a.0 == b.0 && a.1 <= b.1)
}

/// In an increasing sequence of pairs the first one comes after no other.
proof fn lemma_first_leads(items: Seq<&(u64, usize)>, j: int)
    requires
        increasing_seq(items),
        0 <= j < items.len(),
    ensures
        not_after(*items[0], *items[j]),
{
    broadcast use group_laws_cmp;
    broadcast use group_btree_axioms;

    if j > 0 {
        assert(obeys_cmp::<u64>());
        assert(obeys_cmp::<usize>());
        assert(obeys_cmp::<(u64, usize)>());
        assert(obeys_cmp::<&(u64, usize)>());
        axiom_increasing_seq_meaning(items);
        assert(OrdSpec::cmp_spec(&items[0], &items[j]) is Less);
    }
}

/// Takes the first pair out of the set: the one that comes after no other.
pub fn pop_first(set: &mut BTreeSet<(u64, usize)>) -> (first: (u64, usize))
    requires
        !old(set)@.is_empty(),
        old(set)@.finite(),
    ensures
        old(set)@.contains(first),
        forall|x: (u64, usize)| old(set)@.contains(x) ==> not_after(first, x),
        final(set)@ == old(set)@.remove(first),
{
    broadcast use group_laws_cmp;
    broadcast use group_btree_axioms;

    let mut first: (u64, usize) = (0, 0);
    let ghost items = set.iter().remaining();
    proof {
        assert(items.unref().to_set() == set@);
        assert(items.len() == set@.len());
        assert(set@.len() > 0) by {
            if set@.len() == 0 {
                assert(set@ =~= Set::empty());
            }
        }
    }
    for x in it: set.iter()
        invariant_except_break
            it.index() == 0,
        invariant
            it.seq() == items,
            items.len() > 0,
        ensures
            first == *items[0],
    {
        first = *x;
        break ;
    }
    proof {
        assert(first == *items[0]);
        assert(items.unref()[0] == first);
        assert(items.unref().to_set().contains(first));
        assert forall|x: (u64, usize)| set@.contains(x) implies not_after(first, x) by {
            assert(items.unref().to_set().contains(x));
            let j = choose|j: int| 0 <= j < items.unref().len() && items.unref()[j] == x;
            lemma_first_leads(items, j);
        }
    }
    set.remove(&first);
    first
}

/// Puts the pair into the set.
pub fn put(set: &mut BTreeSet<(u64, usize)>, item: (u64, usize))
    ensures
        final(set)@ == old(set)@.insert(item),
{
    broadcast use group_laws_cmp;
    broadcast use group_btree_axioms;

    assert(obeys_cmp::<u64>());
    assert(obeys_cmp::<usize>());
    assert(obeys_cmp::<(u64, usize)>());
    set.insert(item);
}

/// Takes the pair out of the set, if the set holds it.
pub fn take(set: &mut BTreeSet<(u64, usize)>, item: (u64, usize))
    ensures
        final(set)@ == old(set)@.remove(item),
{
    broadcast use group_laws_cmp;
    broadcast use group_btree_axioms;

    assert(obeys_cmp::<u64>());
    assert(obeys_cmp::<usize>());
    assert(obeys_cmp::<(u64, usize)>());
    set.remove(&item);
}

} // verus!
