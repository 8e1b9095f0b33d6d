//! Sequences of pieces and what they flatten to.

use vstd::prelude::*;
use vstd::seq_lib::lemma_flatten_concat;

verus! {

/// A sequence of pieces, flattened, is what precedes piece `i`, then piece
/// `i`, then what follows it.
pub proof fn lemma_flatten_around<A>(g: Seq<Seq<A>>, i: int)
    requires
        0 <= i < g.len(),
    ensures
        g.flatten() == g.subrange(0, i).flatten() + g[i] + g.subrange(i + 1, g.len() as int).flatten(),
{
    let a = g.subrange(0, i);
    let b = seq![g[i]];
    let c = g.subrange(i + 1, g.len() as int);
    assert(g =~= a + b + c);
    lemma_flatten_concat(a + b, c);
    lemma_flatten_concat(a, b);
    b.lemma_flatten_one_element();
}

/// The flattening of the first `a` pieces begins the flattening of the first
/// `b`, for `a <= b`.
pub proof fn lemma_flatten_prefix<A>(g: Seq<Seq<A>>, a: int, b: int)
    requires
        0 <= a <= b <= g.len(),
    ensures
        g.subrange(0, b).flatten() == g.subrange(0, a).flatten() + g.subrange(a, b).flatten(),
{
    assert(g.subrange(0, b) =~= g.subrange(0, a) + g.subrange(a, b));
    lemma_flatten_concat(g.subrange(0, a), g.subrange(a, b));
}

/// Pieces `a` up to `b` of a sequence of pieces may be replaced by others
/// that flatten to the same: the whole then flattens to the same.
pub proof fn lemma_flatten_splice<A>(g: Seq<Seq<A>>, a: int, b: int, p: Seq<Seq<A>>)
    requires
        0 <= a <= b <= g.len(),
        p.flatten() == g.subrange(a, b).flatten(),
    ensures
        (g.subrange(0, a) + p + g.subrange(b, g.len() as int)).flatten() == g.flatten(),
{
    let x = g.subrange(0, a);
    let y = g.subrange(a, b);
    let z = g.subrange(b, g.len() as int);
    assert(g =~= x + y + z);
    lemma_flatten_concat(x + y, z);
    lemma_flatten_concat(x, y);
    lemma_flatten_concat(x + p, z);
    lemma_flatten_concat(x, p);
}

/// Two pieces flatten to the one after the other.
pub proof fn lemma_flatten_pair<A>(x: Seq<A>, y: Seq<A>)
    ensures
        seq![x, y].flatten() == x + y,
        seq![x].flatten() == x,
{
    seq![x].lemma_flatten_one_element();
    seq![y].lemma_flatten_one_element();
    assert(seq![x, y] =~= seq![x] + seq![y]);
    lemma_flatten_concat(seq![x], seq![y]);
}

} // verus!
