//! The order of the keys: what the tree asks of it, and the one comparison
//! through which the tree reads it.

use std::cmp::Ordering;
use vstd::laws_cmp::obeys_cmp;
use vstd::laws_eq::obeys_concrete_eq;
use vstd::prelude::*;
use vstd::std_specs::cmp::OrdSpec;
use vstd::std_specs::cmp::PartialEqSpec;
use vstd::std_specs::cmp::PartialOrdSpec;

verus! {

/// The three outcomes of comparing two keys.
#[derive(Clone, Copy, Debug, PartialEq, Eq)]
pub enum Rank {
    Before,
    Same,
    After,
}

/// The order on `K` is one the tree can rely on: `cmp` is a total order, it
/// agrees with the other comparison operators, and two keys compare equal
/// exactly when they are the same value. The orders of the integer types
/// are lawful, and Verus knows it.
pub open spec fn lawful_order<K: Ord>() -> bool {
    &&& obeys_cmp::<K>()
    &&& obeys_concrete_eq::<K>()
}

/// `a` comes strictly before `b`.
pub open spec fn key_lt<K: Ord>(a: K, b: K) -> bool {
    a.cmp_spec(&b) == Ordering::Less
}

/// A lawful order is irreflexive, asymmetric, total and transitive.
pub proof fn lemma_order_laws<K: Ord>()
    requires
        lawful_order::<K>(),
    ensures
        forall|a: K| !#[trigger] key_lt(a, a),
        forall|a: K, b: K| #[trigger] key_lt(a, b) ==> !key_lt(b, a),
        forall|a: K, b: K| #[trigger] key_lt(a, b) || a == b || key_lt(b, a),
        forall|a: K, b: K, c: K| #[trigger] key_lt(a, b) && #[trigger] key_lt(b, c) ==> key_lt(a, c),
{
    reveal(vstd::laws_cmp::obeys_cmp_partial_ord);
    reveal(vstd::laws_cmp::obeys_cmp_ord);
    reveal(vstd::laws_cmp::obeys_partial_cmp_spec_properties);
    reveal(vstd::laws_eq::obeys_concrete_eq);
    reveal(vstd::laws_eq::obeys_eq_spec_properties);
    assert forall|a: K, b: K| #[trigger] key_lt(a, b) || a == b || key_lt(b, a) by {
        let p = a.partial_cmp_spec(&b);
        let q = b.partial_cmp_spec(&a);
        assert(p == Some(a.cmp_spec(&b)));
        assert(q == Some(b.cmp_spec(&a)));
    }
    assert forall|a: K, b: K| #[trigger] key_lt(a, b) implies !key_lt(b, a) by {
        let p = a.partial_cmp_spec(&b);
        let q = b.partial_cmp_spec(&a);
        assert(p == Some(a.cmp_spec(&b)));
        assert(q == Some(b.cmp_spec(&a)));
    }
    assert forall|a: K| !#[trigger] key_lt(a, a) by {
        let p = a.partial_cmp_spec(&a);
        assert(p == Some(a.cmp_spec(&a)));
        assert(a.eq_spec(&a));
    }
    assert forall|a: K, b: K, c: K| #[trigger] key_lt(a, b) && #[trigger] key_lt(b, c) implies key_lt(a, c) by {
        assert(a.partial_cmp_spec(&b) == Some(a.cmp_spec(&b)));
        assert(b.partial_cmp_spec(&c) == Some(b.cmp_spec(&c)));
        assert(a.partial_cmp_spec(&c) == Some(a.cmp_spec(&c)));
    }
}

/// Compares two keys.
pub fn rank_of<K: Ord>(a: &K, b: &K) -> (r: Rank)
    requires
        lawful_order::<K>(),
    ensures
        r == Rank::Before <==> key_lt(*a, *b),
        r == Rank::Same <==> *a == *b,
        r == Rank::After <==> key_lt(*b, *a),
{
    proof {
        lemma_order_laws::<K>();
        reveal(vstd::laws_cmp::obeys_cmp_partial_ord);
        reveal(vstd::laws_cmp::obeys_cmp_ord);
        reveal(vstd::laws_cmp::obeys_partial_cmp_spec_properties);
        reveal(vstd::laws_eq::obeys_concrete_eq);
        assert(a.partial_cmp_spec(b) == Some(a.cmp_spec(b)));
        assert(b.partial_cmp_spec(a) == Some(b.cmp_spec(a)));
    }
    match a.cmp(b) {
        Ordering::Less => Rank::Before,
        Ordering::Equal => Rank::Same,
        Ordering::Greater => Rank::After,
    }
}

} // verus!
