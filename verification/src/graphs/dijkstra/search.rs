//! Dijkstra's algorithm.

use crate::graphs::dijkstra::model::{Distance, EstimateDistance, Hop, WeightedGraph};
use crate::graphs::dijkstra::queue::{not_after, pop_first, put, take};
use std::collections::BTreeSet;
use vstd::prelude::*;
use vstd::set_lib::{lemma_int_range, lemma_len_subset, set_int_range};

verus! {

/// The state of the search from `start`: the distance at which each node is
/// known so far, the nodes whose distance is final, and the pairs of
/// distance and node that wait in the queue.
pub struct Frontier {
    pub start: int,
    pub far: Seq<Distance>,
    pub settled: Set<int>,
    pub waiting: Set<(u64, usize)>,
}

impl Frontier {
    /// The length at which node `v` is known.
    pub open spec fn at(&self, v: int) -> nat {
        match self.far[v] {
            Distance::Reachable(d) => d as nat,
            Distance::Infinity => 0,
        }
    }

    /// Every edge that leaves `u`, among its first `upto`, leads to a node
    /// that is known at no more than the length of `u` and the weight of the
    /// edge.
    pub open spec fn relaxed(&self, g: &WeightedGraph, u: int, upto: int) -> bool {
        forall|k: int|
            0 <= k < upto ==> {
                let e = #[trigger] g.edges[u][k];
                self.far[e.0 as int] is Reachable && self.at(e.0 as int) <= self.at(u) + e.1
            }
    }

    /// A walk of the known length leads from the start to each known node.
    #[verifier::opaque]
    pub open spec fn known(&self, g: &WeightedGraph) -> bool {
        forall|v: int|
            0 <= v < g.size() && #[trigger] self.far[v] is Reachable ==> g.reach_at(
                self.start,
                v,
                self.at(v),
            )
    }

    /// The settled nodes are known at their shortest distance, and their
    /// edges are relaxed.
    #[verifier::opaque]
    pub open spec fn finished(&self, g: &WeightedGraph) -> bool {
        forall|u: int| #[trigger]
            self.settled.contains(u) ==> self.far[u] is Reachable && g.shortest(
                self.start,
                u,
                self.at(u),
            ) && self.relaxed(g, u, g.edges[u].len() as int)
    }

    /// No settled node is known at a greater length than a known node that
    /// is not settled.
    #[verifier::opaque]
    pub open spec fn ordered(&self, g: &WeightedGraph) -> bool {
        forall|u: int, v: int|
            #![trigger self.settled.contains(u), self.far[v]]
            self.settled.contains(u) && 0 <= v < g.size() && !self.settled.contains(v)
                && self.far[v] is Reachable ==> self.at(u) <= self.at(v)
    }

    /// The queue holds exactly the known nodes that are neither settled nor
    /// `busy`, each with its length.
    #[verifier::opaque]
    pub open spec fn queued(&self, g: &WeightedGraph, busy: int) -> bool {
        forall|d: u64, v: usize| #[trigger]
            self.waiting.contains((d, v)) <==> (v < g.size() && v != busy && !self.settled.contains(
                v as int,
            ) && self.far[v as int] == Distance::Reachable(d))
    }

    /// The state fits the graph, apart from the node `busy` whose edges the
    /// search is at work on (none, if `busy` is no node).
    pub open spec fn sane(&self, g: &WeightedGraph, busy: int) -> bool {
        &&& self.far.len() == g.size()
        &&& 0 <= self.start < g.size()
        &&& self.far[self.start] == Distance::Reachable(0)
        &&& self.settled.finite()
        &&& self.settled.subset_of(set_int_range(0, g.size()))
        &&& self.waiting.finite()
        &&& self.known(g)
        &&& self.finished(g)
        &&& self.ordered(g)
        &&& self.queued(g, busy)
    }

    /// Every walk from the start ends at a settled node that is known at no
    /// more than the length of the walk, or is at least as long as the
    /// length at which some node is known that is not settled.
    pub proof fn lemma_bound(&self, g: &WeightedGraph, hops: Seq<Hop>)
        requires
            g.wf(),
            self.sane(g, -1),
            g.walk(self.start, hops),
        ensures
            ({
                let y = g.end_of(self.start, hops);
                ||| self.settled.contains(y) && self.at(y) <= g.length(hops)
                ||| exists|z: int|
                    0 <= z < g.size() && !self.settled.contains(z) && #[trigger] self.far[z]
                        is Reachable && self.at(z) <= g.length(hops)
            }),
        decreases hops.len(),
    {
        reveal(Frontier::finished);
        if hops.len() == 0 {
            if !self.settled.contains(self.start) {
                assert(self.far[self.start] is Reachable);
            }
        } else {
            let h = hops.last();
            let u = h.node;
            let y = g.target(h);
            g.lemma_walk_back(self.start, hops);
            self.lemma_bound(g, hops.drop_last());
            if self.settled.contains(u) && self.at(u) <= g.length(hops.drop_last()) {
                assert(self.relaxed(g, u, g.edges[u].len() as int));
                let e = g.edges[u][h.edge];
                assert(self.far[e.0 as int] is Reachable);
                if !self.settled.contains(y) {
                    assert(self.far[y] is Reachable);
                }
            } else {
                let z = choose|z: int|
                    0 <= z < g.size() && !self.settled.contains(z) && #[trigger] self.far[z]
                        is Reachable && self.at(z) <= g.length(hops.drop_last());
                assert(self.far[z] is Reachable);
            }
        }
    }

    /// The node that comes first in the queue is known at its shortest
    /// distance.
    pub proof fn lemma_first_is_final(&self, g: &WeightedGraph, d: u64, x: usize)
        requires
            g.wf(),
            self.sane(g, -1),
            self.waiting.contains((d, x)),
            forall|p: (u64, usize)| self.waiting.contains(p) ==> not_after((d, x), p),
        ensures
            g.shortest(self.start, x as int, d as nat),
            forall|v: int|
                0 <= v < g.size() && !self.settled.contains(v) && #[trigger] self.far[v]
                    is Reachable ==> d <= self.at(v),
            forall|u: int| #[trigger] self.settled.contains(u) ==> self.at(u) <= d,
    {
        reveal(Frontier::queued);
        reveal(Frontier::ordered);
        reveal(Frontier::known);
        assert(self.far[x as int] is Reachable);
        assert forall|v: int|
            0 <= v < g.size() && !self.settled.contains(v) && #[trigger] self.far[v]
                is Reachable implies d <= self.at(v) by {
            let dv = self.far[v]->0;
            assert(self.waiting.contains((dv, v as usize)));
        }
        assert forall|hops: Seq<Hop>| #[trigger]
            g.walk_to(self.start, x as int, hops) implies d <= g.length(hops) by {
            self.lemma_bound(g, hops);
        }
    }

    /// Once the queue is empty, every node is known at its shortest
    /// distance, and no walk leads to a node that is not known.
    pub proof fn lemma_done(&self, g: &WeightedGraph, v: int)
        requires
            g.wf(),
            self.sane(g, -1),
            self.waiting =~= Set::empty(),
            0 <= v < g.size(),
        ensures
            match self.far[v] {
                Distance::Reachable(d) => g.shortest(self.start, v, d as nat),
                Distance::Infinity => !g.reachable(self.start, v),
            },
    {
        reveal(Frontier::queued);
        reveal(Frontier::finished);
        assert forall|z: int| 0 <= z < g.size() && #[trigger] self.far[z] is Reachable implies self.settled.contains(
            z,
        ) by {
            let dz = self.far[z]->0;
            if !self.settled.contains(z) {
                assert(self.waiting.contains((dz, z as usize)));
            }
        }
        if self.far[v] is Infinity && g.reachable(self.start, v) {
            let hops = choose|hops: Seq<Hop>| #[trigger] g.walk_to(self.start, v, hops);
            self.lemma_bound(g, hops);
        }
    }
}

impl WeightedGraph {
    /// The length of a shortest walk from `start` to each node, `Infinity`
    /// for the nodes that no walk leads to.
    pub fn dijkstra(&self, start: usize) -> (distances: Vec<Distance>)
        requires
            self.wf(),
            start < self.edges.len(),
            self.lengths_fit(start as int),
        ensures
            distances.len() == self.edges.len(),
            forall|v: int|
                0 <= v < self.edges.len() ==> match #[trigger] distances[v] {
                    Distance::Reachable(d) => self.shortest(start as int, v, d as nat),
                    Distance::Infinity => !self.reachable(start as int, v),
                },
    {
        let n = self.edges.len();
        let mut distances = vec![Distance::Infinity; n];
        distances[start] = Distance::Reachable(0);

        let mut queue: BTreeSet<(u64, usize)> = BTreeSet::new();
        let first = EstimateDistance { node: start, distance: distances[start] };
        match first.key() {
            Some(pair) => {
                put(&mut queue, pair);
            },
            None => {},
        }
        let ghost mut settled: Set<int> = Set::empty();
        proof {
            let f = Frontier { start: start as int, far: distances@, settled, waiting: queue@ };
            f.lemma_begun(self);
        }
        while !queue.is_empty()
            invariant
                self.wf(),
                n == self.edges.len(),
                start < n,
                self.lengths_fit(start as int),
                distances.len() == n,
                (Frontier { start: start as int, far: distances@, settled, waiting: queue@ }).sane(
                    self,
                    -1,
                ),
            decreases n - settled.len(),
        {
            let ghost f0 = Frontier {
                start: start as int,
                far: distances@,
                settled,
                waiting: queue@,
            };
            let (near, node) = pop_first(&mut queue);
            proof {
                let f1 = Frontier { start: start as int, far: distances@, settled, waiting: queue@ };
                f0.lemma_popped(&f1, self, near, node);
            }
            let mut k: usize = 0;
            while k < self.edges[node].len()
                invariant
                    self.wf(),
                    n == self.edges.len(),
                    start < n,
                    node < n,
                    self.lengths_fit(start as int),
                    distances.len() == n,
                    0 <= k <= self.edges[node as int].len(),
                    !settled.contains(node as int),
                    distances@[node as int] == Distance::Reachable(near),
                    self.shortest(start as int, node as int, near as nat),
                    (Frontier {
                        start: start as int,
                        far: distances@,
                        settled,
                        waiting: queue@,
                    }).sane(self, node as int),
                    (Frontier {
                        start: start as int,
                        far: distances@,
                        settled,
                        waiting: queue@,
                    }).relaxed(self, node as int, k as int),
                    forall|v: int|
                        0 <= v < n && !settled.contains(v) && #[trigger] distances@[v]
                            is Reachable ==> near <= (Frontier {
                            start: start as int,
                            far: distances@,
                            settled,
                            waiting: queue@,
                        }).at(v),
                    forall|u: int| #[trigger]
                        settled.contains(u) ==> (Frontier {
                            start: start as int,
                            far: distances@,
                            settled,
                            waiting: queue@,
                        }).at(u) <= near,
                decreases self.edges[node as int].len() - k,
            {
                let ghost f1 = Frontier {
                    start: start as int,
                    far: distances@,
                    settled,
                    waiting: queue@,
                };
                let (to, len) = self.edges[node][k];
                proof {
                    assert(self.edges[node as int][k as int] == (to, len));
                    assert(near + len <= u64::MAX);
                }
                let new_distance = distances[node] + len;
                if new_distance.shorter_than(&distances[to]) {
                    let old = EstimateDistance { node: to, distance: distances[to] };
                    match old.key() {
                        Some(pair) => {
                            take(&mut queue, pair);
                        },
                        None => {},
                    }
                    distances[to] = new_distance;
                    let new = EstimateDistance { node: to, distance: new_distance };
                    match new.key() {
                        Some(pair) => {
                            put(&mut queue, pair);
                        },
                        None => {},
                    }
                    proof {
                        let f2 = Frontier {
                            start: start as int,
                            far: distances@,
                            settled,
                            waiting: queue@,
                        };
                        assert(f1.relaxes_into(&f2, self, node as int, k as int));
                        f1.lemma_relaxing(&f2, self, node as int, k as int);
                    }
                } else {
                    proof {
                        assert(f1.relaxed(self, node as int, k + 1)) by {
                            assert forall|j: int| 0 <= j < k + 1 implies {
                                let e = #[trigger] self.edges[node as int][j];
                                f1.far[e.0 as int] is Reachable && f1.at(e.0 as int) <= f1.at(
                                    node as int,
                                ) + e.1
                            } by {}
                        }
                    }
                }
                k = k + 1;
            }
            proof {
                let f3 = Frontier {
                    start: start as int,
                    far: distances@,
                    settled,
                    waiting: queue@,
                };
                settled = settled.insert(node as int);
                let f4 = Frontier {
                    start: start as int,
                    far: distances@,
                    settled,
                    waiting: queue@,
                };
                f3.lemma_settled(&f4, self, node as int);
            }
        }
        proof {
            let f = Frontier { start: start as int, far: distances@, settled, waiting: queue@ };
            assert forall|v: int| 0 <= v < self.edges.len() implies match #[trigger] distances[v] {
                Distance::Reachable(d) => self.shortest(start as int, v, d as nat),
                Distance::Infinity => !self.reachable(start as int, v),
            } by {
                f.lemma_done(self, v);
            }
        }
        distances
    }
}

impl Frontier {
    /// `after` is this state with edge `k` of the node `x` relaxed: the node
    /// that the edge leads to, which was known at a greater length or not at
    /// all, is known at the length of `x` and the weight of the edge, and
    /// waits in the queue with that length.
    pub open spec fn relaxes_into(&self, after: &Frontier, g: &WeightedGraph, x: int, k: int) -> bool {
        let to = g.edges[x][k].0;
        let new = (self.at(x) + g.edges[x][k].1) as u64;
        &&& 0 <= x < g.size()
        &&& 0 <= k < g.edges[x].len()
        &&& to < g.size()
        &&& !self.settled.contains(x)
        &&& self.far[x] is Reachable
        &&& self.at(x) + g.edges[x][k].1 <= u64::MAX
        &&& (Distance::Reachable(new)).before(self.far[to as int])
        &&& forall|u: int| #[trigger] self.settled.contains(u) ==> self.at(u) <= self.at(x)
        &&& after.start == self.start
        &&& after.settled == self.settled
        &&& after.far == self.far.update(to as int, Distance::Reachable(new))
        &&& after.waiting == (match self.far[to as int] {
            Distance::Reachable(d) => self.waiting.remove((d, to)),
            Distance::Infinity => self.waiting,
        }).insert((new, to))
    }

    /// A relaxation leaves the lengths of all nodes but one as they are.
    proof fn lemma_relax_frame(&self, after: &Frontier, g: &WeightedGraph, x: int, k: int)
        requires
            self.far.len() == g.size(),
            self.finished(g),
            self.relaxes_into(after, g, x, k),
        ensures
            !self.settled.contains(g.edges[x][k].0 as int),
            g.edges[x][k].0 != x,
            after.far[x] == self.far[x],
            after.far.len() == self.far.len(),
            after.at(g.edges[x][k].0 as int) == self.at(x) + g.edges[x][k].1,
            after.far[g.edges[x][k].0 as int] is Reachable,
            forall|v: int|
                0 <= v < g.size() && v != g.edges[x][k].0 ==> #[trigger] after.far[v]
                    == self.far[v],
            forall|v: int|
                0 <= v < g.size() && self.far[v] is Reachable ==> #[trigger] after.far[v]
                    is Reachable && after.at(v) <= self.at(v),
    {
        reveal(Frontier::finished);
        let to = g.edges[x][k].0;
        if self.settled.contains(to as int) {
            assert(self.at(to as int) <= self.at(x));
        }
    }

    /// A relaxation keeps every known node at the length of a walk to it.
    proof fn lemma_relax_known(&self, after: &Frontier, g: &WeightedGraph, x: int, k: int)
        requires
            self.far.len() == g.size(),
            self.known(g),
            self.finished(g),
            self.relaxes_into(after, g, x, k),
        ensures
            after.known(g),
    {
        reveal(Frontier::known);
        self.lemma_relax_frame(after, g, x, k);
        let to = g.edges[x][k].0;
        let hops = choose|hops: Seq<Hop>| #[trigger]
            g.walk_to(self.start, x, hops) && g.length(hops) == self.at(x);
        let h = Hop { node: x, edge: k };
        g.lemma_walk_on(self.start, hops, h);
        assert(g.reach_at(after.start, to as int, after.at(to as int)));
        assert forall|v: int| 0 <= v < g.size() && #[trigger] after.far[v] is Reachable implies g.reach_at(
            after.start,
            v,
            after.at(v),
        ) by {
            if v != to {
                assert(after.far[v] == self.far[v]);
            }
        }
    }

    /// A relaxation keeps the settled nodes finished.
    proof fn lemma_relax_finished(&self, after: &Frontier, g: &WeightedGraph, x: int, k: int)
        requires
            g.wf(),
            self.far.len() == g.size(),
            self.settled.subset_of(set_int_range(0, g.size())),
            self.finished(g),
            self.relaxes_into(after, g, x, k),
        ensures
            after.finished(g),
    {
        reveal(Frontier::finished);
        self.lemma_relax_frame(after, g, x, k);
        assert forall|u: int| #[trigger] after.settled.contains(u) implies after.far[u]
            is Reachable && g.shortest(after.start, u, after.at(u)) && after.relaxed(
            g,
            u,
            g.edges[u].len() as int,
        ) by {
            assert(self.settled.contains(u));
            assert(set_int_range(0, g.size()).contains(u));
            assert(after.far[u] == self.far[u]);
            assert(self.relaxed(g, u, g.edges[u].len() as int));
            assert forall|j: int| 0 <= j < g.edges[u].len() implies {
                let e = #[trigger] g.edges[u][j];
                after.far[e.0 as int] is Reachable && after.at(e.0 as int) <= after.at(u) + e.1
            } by {
                let e = g.edges[u][j];
                assert(self.far[e.0 as int] is Reachable);
                assert(after.far[e.0 as int] is Reachable);
            }
        }
    }

    /// A relaxation keeps the settled nodes no further than the others.
    proof fn lemma_relax_ordered(&self, after: &Frontier, g: &WeightedGraph, x: int, k: int)
        requires
            self.far.len() == g.size(),
            self.settled.subset_of(set_int_range(0, g.size())),
            self.finished(g),
            self.ordered(g),
            self.relaxes_into(after, g, x, k),
        ensures
            after.ordered(g),
    {
        reveal(Frontier::ordered);
        self.lemma_relax_frame(after, g, x, k);
        let to = g.edges[x][k].0;
        assert forall|u: int, v: int|
            #![trigger after.settled.contains(u), after.far[v]]
            after.settled.contains(u) && 0 <= v < g.size() && !after.settled.contains(v)
                && after.far[v] is Reachable implies after.at(u) <= after.at(v) by {
            assert(self.settled.contains(u));
            assert(set_int_range(0, g.size()).contains(u));
            assert(after.far[u] == self.far[u]);
            if v != to {
                assert(after.far[v] == self.far[v]);
            }
        }
    }

    /// A relaxation keeps the queue in step with the known lengths.
    proof fn lemma_relax_queued(&self, after: &Frontier, g: &WeightedGraph, x: int, k: int)
        requires
            self.far.len() == g.size(),
            self.finished(g),
            self.queued(g, x),
            self.relaxes_into(after, g, x, k),
        ensures
            after.queued(g, x),
    {
        reveal(Frontier::queued);
        self.lemma_relax_frame(after, g, x, k);
        let to = g.edges[x][k].0;
        assert forall|d: u64, v: usize| #[trigger]
            after.waiting.contains((d, v)) <==> (v < g.size() && v != x && !after.settled.contains(
                v as int,
            ) && after.far[v as int] == Distance::Reachable(d)) by {
            assert(self.waiting.contains((d, v)) <==> (v < g.size() && v != x
                && !self.settled.contains(v as int) && self.far[v as int] == Distance::Reachable(
                d,
            )));
            if v != to && v < g.size() {
                assert(after.far[v as int] == self.far[v as int]);
            }
        }
    }

    /// The relaxation of an edge of the node that the search is at work on
    /// keeps the state fitting.
    pub proof fn lemma_relaxing(&self, after: &Frontier, g: &WeightedGraph, x: int, k: int)
        requires
            g.wf(),
            self.sane(g, x),
            self.relaxed(g, x, k),
            self.relaxes_into(after, g, x, k),
            forall|v: int|
                0 <= v < g.size() && !self.settled.contains(v) && #[trigger] self.far[v]
                    is Reachable ==> self.at(x) <= self.at(v),
        ensures
            after.sane(g, x),
            after.relaxed(g, x, k + 1),
            after.far[x] == self.far[x],
            forall|v: int|
                0 <= v < g.size() && !after.settled.contains(v) && #[trigger] after.far[v]
                    is Reachable ==> after.at(x) <= after.at(v),
            forall|u: int| #[trigger] after.settled.contains(u) ==> after.at(u) <= after.at(x),
    {
        self.lemma_relax_frame(after, g, x, k);
        self.lemma_relax_known(after, g, x, k);
        self.lemma_relax_finished(after, g, x, k);
        self.lemma_relax_ordered(after, g, x, k);
        self.lemma_relax_queued(after, g, x, k);
        let to = g.edges[x][k].0;
        assert(after.relaxed(g, x, k + 1)) by {
            assert forall|j: int| 0 <= j < k + 1 implies {
                let e = #[trigger] g.edges[x][j];
                after.far[e.0 as int] is Reachable && after.at(e.0 as int) <= after.at(x) + e.1
            } by {
                let e = g.edges[x][j];
                if j < k {
                    assert(self.far[e.0 as int] is Reachable);
                    assert(after.far[e.0 as int] is Reachable);
                }
            }
        }
        assert forall|v: int|
            0 <= v < g.size() && !after.settled.contains(v) && #[trigger] after.far[v]
                is Reachable implies after.at(x) <= after.at(v) by {
            if v != to {
                assert(after.far[v] == self.far[v]);
            }
        }
        assert forall|u: int| #[trigger] after.settled.contains(u) implies after.at(u) <= after.at(
            x,
        ) by {
            assert(self.settled.contains(u));
            assert(set_int_range(0, g.size()).contains(u));
            assert(after.far[u] == self.far[u]);
        }
    }

    /// The state in which the search begins fits the graph: only the start
    /// is known, at the length 0, and it alone waits in the queue.
    pub proof fn lemma_begun(&self, g: &WeightedGraph)
        requires
            0 <= self.start < g.size(),
            self.far.len() == g.size(),
            self.far[self.start] == Distance::Reachable(0),
            forall|v: int| 0 <= v < g.size() && v != self.start ==> self.far[v] is Infinity,
            self.settled == Set::<int>::empty(),
            self.waiting == Set::<(u64, usize)>::empty().insert((0u64, self.start as usize)),
        ensures
            self.sane(g, -1),
    {
        reveal(Frontier::known);
        reveal(Frontier::finished);
        reveal(Frontier::ordered);
        reveal(Frontier::queued);
        assert(g.walk_to(self.start, self.start, Seq::<Hop>::empty()));
        assert(g.length(Seq::<Hop>::empty()) == 0);
    }

    /// The state from whose queue the first pair was taken fits the graph
    /// apart from the node of that pair, which is known at its shortest
    /// distance, the least among the nodes that are known and not settled,
    /// and no less than that of any settled node.
    pub proof fn lemma_popped(&self, after: &Frontier, g: &WeightedGraph, d: u64, x: usize)
        requires
            g.wf(),
            self.sane(g, -1),
            self.waiting.contains((d, x)),
            forall|p: (u64, usize)| self.waiting.contains(p) ==> not_after((d, x), p),
            after.start == self.start,
            after.far == self.far,
            after.settled == self.settled,
            after.waiting == self.waiting.remove((d, x)),
        ensures
            after.sane(g, x as int),
            x < g.size(),
            !self.settled.contains(x as int),
            self.far[x as int] == Distance::Reachable(d),
            g.shortest(self.start, x as int, d as nat),
            forall|v: int|
                0 <= v < g.size() && !self.settled.contains(v) && #[trigger] self.far[v]
                    is Reachable ==> d <= self.at(v),
            forall|u: int| #[trigger] self.settled.contains(u) ==> self.at(u) <= d,
            after.relaxed(g, x as int, 0),
    {
        self.lemma_first_is_final(g, d, x);
        reveal(Frontier::known);
        reveal(Frontier::finished);
        reveal(Frontier::ordered);
        reveal(Frontier::queued);
        assert forall|e: u64, v: usize| #[trigger]
            after.waiting.contains((e, v)) <==> (v < g.size() && v != x && !after.settled.contains(
                v as int,
            ) && after.far[v as int] == Distance::Reachable(e)) by {
            assert(self.waiting.contains((e, v)) <==> (v < g.size() && !self.settled.contains(
                v as int,
            ) && self.far[v as int] == Distance::Reachable(e)));
        }
    }

    /// Once all edges of the node that the search was at work on are
    /// relaxed, the state with the node settled fits the graph.
    pub proof fn lemma_settled(&self, after: &Frontier, g: &WeightedGraph, x: int)
        requires
            g.wf(),
            self.sane(g, x),
            0 <= x < g.size(),
            !self.settled.contains(x),
            self.far[x] is Reachable,
            g.shortest(self.start, x, self.at(x)),
            self.relaxed(g, x, g.edges[x].len() as int),
            forall|v: int|
                0 <= v < g.size() && !self.settled.contains(v) && #[trigger] self.far[v]
                    is Reachable ==> self.at(x) <= self.at(v),
            after.start == self.start,
            after.far == self.far,
            after.waiting == self.waiting,
            after.settled == self.settled.insert(x),
        ensures
            after.sane(g, -1),
            after.settled.len() == self.settled.len() + 1,
            after.settled.len() <= g.size(),
    {
        reveal(Frontier::known);
        reveal(Frontier::finished);
        reveal(Frontier::ordered);
        reveal(Frontier::queued);
        lemma_int_range(0, g.size());
        lemma_len_subset(after.settled, set_int_range(0, g.size()));
        assert forall|u: int| #[trigger] after.settled.contains(u) implies after.far[u]
            is Reachable && g.shortest(after.start, u, after.at(u)) && after.relaxed(
            g,
            u,
            g.edges[u].len() as int,
        ) by {
            if u != x {
                assert(self.settled.contains(u));
            }
        }
        assert forall|u: int, v: int|
            #![trigger after.settled.contains(u), after.far[v]]
            after.settled.contains(u) && 0 <= v < g.size() && !after.settled.contains(v)
                && after.far[v] is Reachable implies after.at(u) <= after.at(v) by {
            if u != x {
                assert(self.settled.contains(u));
            }
        }
        assert forall|d: u64, v: usize| #[trigger]
            after.waiting.contains((d, v)) <==> (v < g.size() && v != -1
                && !after.settled.contains(v as int) && after.far[v as int]
                == Distance::Reachable(d)) by {
            assert(self.waiting.contains((d, v)) <==> (v < g.size() && v != x
                && !self.settled.contains(v as int) && self.far[v as int] == Distance::Reachable(
                d,
            )));
        }
    }
}

} // verus!
