//! Weighted graphs, walks in them and their lengths, and the distances that
//! the search reports.

use vstd::prelude::*;

verus! {

/// A directed graph with weighted edges: `edges[u]` lists, for each edge
/// that leaves `u`, the node it leads to and its weight.
#[derive(Debug)]
pub struct WeightedGraph {
    pub edges: Vec<Vec<(usize, u64)>>,
}

/// The length of a shortest walk to a node; `Infinity` where no walk leads
/// there. Every length comes before `Infinity`.
#[derive(Debug, Copy, Clone, PartialEq, PartialOrd, Ord, Eq)]
pub enum Distance {
    Reachable(u64),
    Infinity,
}

impl Distance {
    /// This distance comes before `other`: it is the smaller length, or it
    /// is a length and `other` is none.
    pub open spec fn before(self, other: Distance) -> bool {
        match (self, other) {
            (Distance::Reachable(a), Distance::Reachable(b)) => a < b,
            (Distance::Reachable(_), Distance::Infinity) => true,
            (Distance::Infinity, _) => false,
        }
    }

    /// Whether this distance comes before `other`.
    pub fn shorter_than(&self, other: &Distance) -> (r: bool)
        ensures
            r == self.before(*other),
    {
        match (self, other) {
            (Distance::Reachable(a), Distance::Reachable(b)) => *a < *b,
            (Distance::Reachable(_), Distance::Infinity) => true,
            (Distance::Infinity, _) => false,
        }
    }

    /// The distance `b` further on; `Infinity` stays what it is.
    pub open spec fn plus(self, b: u64) -> Distance {
        match self {
            Distance::Reachable(a) => Distance::Reachable((a + b) as u64),
            Distance::Infinity => Distance::Infinity,
        }
    }
}

impl std::ops::Add<u64> for Distance {
    type Output = Distance;

    /// The distance `b` further on.
    fn add(self, b: u64) -> (r: Distance) {
        match self {
            Distance::Reachable(a) => Distance::Reachable(a + b),
            Distance::Infinity => Distance::Infinity,
        }
    }
}

impl vstd::std_specs::ops::AddSpecImpl<u64> for Distance {
    open spec fn obeys_add_spec() -> bool {
        true
    }

    /// A length can be made `b` longer where the sum is one that a `u64`
    /// can hold.
    open spec fn add_req(self, b: u64) -> bool {
        self matches Distance::Reachable(a) ==> a + b <= u64::MAX
    }

    open spec fn add_spec(self, b: u64) -> Distance {
        self.plus(b)
    }
}

/// A node together with the distance at which the search has it so far.
/// Estimates are ordered by distance, then by node.
#[derive(Debug, PartialEq, Eq, PartialOrd, Ord, Clone, Copy)]
pub struct EstimateDistance {
    pub distance: Distance,
    pub node: usize,
}

impl EstimateDistance {
    /// The pair by which the queue of the search orders an estimate with a
    /// length: the length, then the node.
    pub fn key(&self) -> (r: Option<(u64, usize)>)
        ensures
            r == match self.distance {
                Distance::Reachable(d) => Some((d, self.node)),
                Distance::Infinity => None,
            },
    {
        match self.distance {
            Distance::Reachable(d) => Some((d, self.node)),
            Distance::Infinity => None,
        }
    }
}

/// One step of a walk: the edge with index `edge` among those that leave
/// `node`.
pub struct Hop {
    pub node: int,
    pub edge: int,
}

impl WeightedGraph {
    /// The number of nodes.
    pub open spec fn size(&self) -> int {
        self.edges.len() as int
    }

    /// Every edge leads to a node of the graph.
    pub open spec fn wf(&self) -> bool {
        forall|u: int, k: int|
            0 <= u < self.edges.len() && 0 <= k < self.edges[u].len() ==> (
            #[trigger] self.edges[u][k]).0 < self.edges.len()
    }

    /// Whether every edge leads to a node of the graph.
    pub fn is_wf(&self) -> (r: bool)
        ensures
            r == self.wf(),
    {
        let n = self.edges.len();
        let mut u: usize = 0;
        while u < n
            invariant
                n == self.edges.len(),
                0 <= u <= n,
                forall|a: int, k: int|
                    0 <= a < u && 0 <= k < self.edges[a].len() ==> (#[trigger] self.edges[a][k]).0
                        < n,
            decreases n - u,
        {
            let mut k: usize = 0;
            while k < self.edges[u].len()
                invariant
                    n == self.edges.len(),
                    0 <= u < n,
                    0 <= k <= self.edges[u as int].len(),
                    forall|j: int| 0 <= j < k ==> (#[trigger] self.edges[u as int][j]).0 < n,
                decreases self.edges[u as int].len() - k,
            {
                if self.edges[u][k].0 >= n {
                    return false;
                }
                k = k + 1;
            }
            u = u + 1;
        }
        true
    }

    /// `h` names an edge of the graph.
    pub open spec fn hop_ok(&self, h: Hop) -> bool {
        0 <= h.node < self.edges.len() && 0 <= h.edge < self.edges[h.node].len()
    }

    /// The node that the edge `h` leads to.
    pub open spec fn target(&self, h: Hop) -> int {
        self.edges[h.node][h.edge].0 as int
    }

    /// The weight of the edge `h`.
    pub open spec fn weight(&self, h: Hop) -> nat {
        self.edges[h.node][h.edge].1 as nat
    }

    /// `hops` is a walk from `start`: each hop is an edge that leaves the
    /// node that the hop before it leads to, the first one an edge that
    /// leaves `start`.
    pub open spec fn walk(&self, start: int, hops: Seq<Hop>) -> bool {
        forall|i: int|
            0 <= i < hops.len() ==> self.hop_ok(#[trigger] hops[i]) && hops[i].node == if i == 0 {
                start
            } else {
                self.target(hops[i - 1])
            }
    }

    /// The node at which the walk `hops` from `start` ends.
    pub open spec fn end_of(&self, start: int, hops: Seq<Hop>) -> int {
        if hops.len() == 0 {
            start
        } else {
            self.target(hops.last())
        }
    }

    /// The length of the walk: the sum of the weights of its edges.
    pub open spec fn length(&self, hops: Seq<Hop>) -> nat
        decreases hops.len(),
    {
        if hops.len() == 0 {
            0
        } else {
            self.length(hops.drop_last()) + self.weight(hops.last())
        }
    }

    /// `hops` is a walk from `start` to `v`.
    pub open spec fn walk_to(&self, start: int, v: int, hops: Seq<Hop>) -> bool {
        self.walk(start, hops) && self.end_of(start, hops) == v
    }

    /// Some walk leads from `start` to `v`.
    pub open spec fn reachable(&self, start: int, v: int) -> bool {
        exists|hops: Seq<Hop>| #[trigger] self.walk_to(start, v, hops)
    }

    /// A walk of length `d` leads from `start` to `v`.
    pub open spec fn reach_at(&self, start: int, v: int, d: nat) -> bool {
        exists|hops: Seq<Hop>| #[trigger] self.walk_to(start, v, hops) && self.length(hops) == d
    }

    /// `d` is the length of a shortest walk from `start` to `v`.
    pub open spec fn shortest(&self, start: int, v: int, d: nat) -> bool {
        &&& self.reach_at(start, v, d)
        &&& forall|hops: Seq<Hop>| #[trigger] self.walk_to(start, v, hops) ==> d <= self.length(hops)
    }

    /// No shortest walk from `start`, made one edge longer, is longer than
    /// a `u64` can say.
    pub open spec fn lengths_fit(&self, start: int) -> bool {
        forall|u: int, k: int, d: nat|
            0 <= u < self.edges.len() && 0 <= k < self.edges[u].len() && #[trigger] self.shortest(
                start,
                u,
                d,
            ) ==> d + (#[trigger] self.edges[u][k]).1 <= u64::MAX
    }

    /// A walk made one edge longer is a walk to where the edge leads, and
    /// longer by the weight of the edge.
    pub proof fn lemma_walk_on(&self, start: int, hops: Seq<Hop>, h: Hop)
        requires
            self.walk(start, hops),
            self.hop_ok(h),
            h.node == self.end_of(start, hops),
        ensures
            self.walk_to(start, self.target(h), hops.push(h)),
            self.length(hops.push(h)) == self.length(hops) + self.weight(h),
    {
        let more = hops.push(h);
        assert(more.drop_last() =~= hops);
        assert forall|i: int| 0 <= i < more.len() implies self.hop_ok(#[trigger] more[i])
            && more[i].node == if i == 0 {
            start
        } else {
            self.target(more[i - 1])
        } by {
            if i < hops.len() {
                assert(more[i] == hops[i]);
                if i > 0 {
                    assert(more[i - 1] == hops[i - 1]);
                }
            }
        }
    }

    /// A walk without its last edge is a walk to where that edge leaves.
    pub proof fn lemma_walk_back(&self, start: int, hops: Seq<Hop>)
        requires
            self.walk(start, hops),
            hops.len() > 0,
        ensures
            self.walk_to(start, hops.last().node, hops.drop_last()),
            self.hop_ok(hops.last()),
            self.length(hops) == self.length(hops.drop_last()) + self.weight(hops.last()),
    {
        let less = hops.drop_last();
        assert forall|i: int| 0 <= i < less.len() implies self.hop_ok(#[trigger] less[i])
            && less[i].node == if i == 0 {
            start
        } else {
            self.target(less[i - 1])
        } by {
            assert(less[i] == hops[i]);
            if i > 0 {
                assert(less[i - 1] == hops[i - 1]);
            }
        }
        assert(self.hop_ok(hops[hops.len() - 1]));
        if less.len() > 0 {
            assert(less.last() == hops[hops.len() - 2]);
        }
    }
}

} // verus!
