//! Directed graphs, walks in them, and what the searches report.

use vstd::prelude::*;

verus! {

/// A directed graph: `edges[u]` lists the nodes that `u` has an edge to.
#[derive(Debug)]
pub struct Graph {
    pub edges: Vec<Vec<usize>>,
}

/// How far one node is from another, in edges.
#[derive(Debug, Copy, Clone, PartialEq)]
pub enum Distance {
    Unreachable,
    Reachable(usize),
}

impl Distance {
    /// The distance one edge further on.
    pub fn increase(self) -> (r: Self)
        requires
            self is Reachable,
            self->0 < usize::MAX,
        ensures
            r == Distance::Reachable((self->0 + 1) as usize),
    {
        match self {
            Distance::Unreachable => Distance::Unreachable,
            Distance::Reachable(v) => Distance::Reachable(v + 1),
        }
    }
}

impl Graph {
    /// The number of nodes.
    pub open spec fn size(&self) -> int {
        self.edges.len() as int
    }

    /// Every edge leads to a node of the graph.
    pub open spec fn wf(&self) -> bool {
        forall|u: int, k: int|
            0 <= u < self.edges.len() && 0 <= k < self.edges[u].len() ==> #[trigger] self.edges[u][k]
                < self.edges.len()
    }

    /// Whether every edge leads to a node of the graph.
    pub fn is_wf(&self) -> (r: bool)
        ensures
            r == self.wf(),
    {
        let n = self.edges.len();
        let mut u: usize = 0;
        while u < n
            invariant
                n == self.edges.len(),
                0 <= u <= n,
                forall|a: int, k: int|
                    0 <= a < u && 0 <= k < self.edges[a].len() ==> #[trigger] self.edges[a][k] < n,
            decreases n - u,
        {
            let mut k: usize = 0;
            while k < self.edges[u].len()
                invariant
                    n == self.edges.len(),
                    0 <= u < n,
                    0 <= k <= self.edges[u as int].len(),
                    forall|j: int| 0 <= j < k ==> #[trigger] self.edges[u as int][j] < n,
                decreases self.edges[u as int].len() - k,
            {
                if self.edges[u][k] >= n {
                    return false;
                }
                k = k + 1;
            }
            u = u + 1;
        }
        true
    }

    /// The graph has an edge from `u` to `v`.
    pub open spec fn edge(&self, u: int, v: int) -> bool {
        &&& 0 <= u < self.edges.len()
        &&& exists|k: int| 0 <= k < self.edges[u].len() && #[trigger] self.edges[u][k] == v
    }

    /// `p` is a walk: a sequence of nodes, at least one, with an edge from
    /// each to the next.
    pub open spec fn walk(&self, p: Seq<int>) -> bool {
        &&& p.len() > 0
        &&& forall|i: int| 0 <= i < p.len() - 1 ==> self.edge(#[trigger] p[i], p[i + 1])
    }

    /// `p` is a walk that leads from `from` to `to`.
    pub open spec fn walk_between(&self, p: Seq<int>, from: int, to: int) -> bool {
        &&& self.walk(p)
        &&& p.first() == from
        &&& p.last() == to
    }

    /// A walk of exactly `n` edges leads from `from` to `v`.
    pub open spec fn reach_in(&self, from: int, v: int, n: nat) -> bool {
        exists|p: Seq<int>| #[trigger] self.walk_between(p, from, v) && p.len() == n + 1
    }

    /// Some walk leads from `from` to `v`.
    pub open spec fn reachable(&self, from: int, v: int) -> bool {
        exists|p: Seq<int>| #[trigger] self.walk_between(p, from, v)
    }

    /// A walk that is one edge longer: `p`, then `w`.
    pub proof fn lemma_walk_on(&self, p: Seq<int>, from: int, u: int, w: int)
        requires
            self.walk_between(p, from, u),
            self.edge(u, w),
        ensures
            self.walk_between(p.push(w), from, w),
            self.reach_in(from, w, p.len()),
    {
        let q = p.push(w);
        assert forall|i: int| 0 <= i < q.len() - 1 implies self.edge(#[trigger] q[i], q[i + 1]) by {
            if i < p.len() - 1 {
                assert(q[i] == p[i]);
                assert(self.edge(p[i], p[i + 1]));
            }
        }
        assert(self.walk_between(q, from, w));
    }

    /// A walk of more than one node is a walk to its last node but one, and
    /// an edge from there.
    pub proof fn lemma_walk_back(&self, p: Seq<int>, from: int, v: int)
        requires
            self.walk_between(p, from, v),
            p.len() > 1,
        ensures
            self.walk_between(p.drop_last(), from, p[p.len() - 2]),
            self.edge(p[p.len() - 2], v),
    {
        let q = p.drop_last();
        assert forall|i: int| 0 <= i < q.len() - 1 implies self.edge(#[trigger] q[i], q[i + 1]) by {
            assert(q[i] == p[i]);
            assert(self.edge(p[i], p[i + 1]));
        }
        assert(self.edge(p[p.len() - 2], p[p.len() - 2 + 1]));
    }

    /// The walk that stays at `from`.
    pub proof fn lemma_walk_none(&self, from: int)
        ensures
            self.walk_between(seq![from], from, from),
            self.reach_in(from, from, 0),
    {
        assert(self.walk_between(seq![from], from, from));
    }

    /// `n` is the number of edges of a shortest walk from `from` to `v`.
    pub open spec fn shortest(&self, from: int, v: int, n: nat) -> bool {
        &&& self.reach_in(from, v, n)
        &&& forall|m: nat| self.reach_in(from, v, m) ==> n <= m
    }
}

} // verus!
