//! Breadth-first search.

use crate::graphs::model::{Distance, Graph};
use std::collections::VecDeque;
use vstd::prelude::*;
use vstd::set_lib::{lemma_int_range, lemma_len_subset, set_int_range};

verus! {

/// The state of a search from `from`: which nodes it has seen, and at which
/// distance.
pub struct Search {
    pub from: int,
    pub seen: Seq<bool>,
    pub far: Seq<Distance>,
}

impl Search {
    /// The distance at which node `v` was seen.
    pub open spec fn at(&self, v: int) -> int {
        match self.far[v] {
            Distance::Reachable(d) => d as int,
            Distance::Unreachable => -1,
        }
    }

    /// The state fits the graph: a node was seen exactly if a distance is
    /// recorded for it, and a walk of that many edges leads to it.
    pub open spec fn sane(&self, g: &Graph) -> bool {
        &&& self.seen.len() == g.size()
        &&& self.far.len() == g.size()
        &&& forall|v: int| 0 <= v < g.size() ==> (#[trigger] self.seen[v] <==> self.far[v] is Reachable)
        &&& forall|v: int|
            0 <= v < g.size() && #[trigger] self.seen[v] ==> g.reach_in(self.from, v, self.at(v) as nat)
    }

    /// The search is through with node `u`: every node that `u` has an edge
    /// to, among its first `upto`, was seen, at most one edge further away
    /// than `u`.
    pub open spec fn expanded(&self, g: &Graph, u: int, upto: int) -> bool {
        forall|k: int|
            0 <= k < upto ==> {
                let w = #[trigger] g.edges[u][k] as int;
                self.seen[w] && self.at(w) <= self.at(u) + 1
            }
    }

    /// The search is through with all of `done`.
    pub open spec fn closed(&self, g: &Graph, done: Set<int>) -> bool {
        forall|u: int| #[trigger]
            done.contains(u) ==> 0 <= u < g.size() && self.seen[u] && self.expanded(
                g,
                u,
                g.edges[u].len() as int,
            )
    }

    /// Once the search is through with every node it has seen, it has seen
    /// every node that a walk from the start leads to, at a distance that is
    /// no more than the walk is long.
    pub proof fn lemma_complete(&self, g: &Graph, done: Set<int>, v: int, n: nat)
        requires
            g.wf(),
            self.sane(g),
            self.closed(g, done),
            0 <= self.from < g.size(),
            self.seen[self.from],
            self.at(self.from) == 0,
            forall|u: int| 0 <= u < g.size() && #[trigger] self.seen[u] ==> done.contains(u),
            g.reach_in(self.from, v, n),
        ensures
            0 <= v < g.size(),
            self.seen[v],
            self.at(v) <= n,
        decreases n,
    {
        let p = choose|p: Seq<int>| #[trigger] g.walk_between(p, self.from, v) && p.len() == n + 1;
        if n > 0 {
            let u = p[n - 1];
            g.lemma_walk_back(p, self.from, v);
            assert(g.walk_between(p.drop_last(), self.from, u) && p.drop_last().len() == n);
            self.lemma_complete(g, done, u, (n - 1) as nat);
            let k = choose|k: int| 0 <= k < g.edges[u].len() && #[trigger] g.edges[u][k] == v;
            assert(done.contains(u));
            assert(self.expanded(g, u, g.edges[u].len() as int));
            assert(g.edges[u][k] as int == v);
        }
    }
}

impl Graph {
    /// The number of edges of a shortest walk from `from` to `to`, found by
    /// breadth-first search; `Unreachable` if no walk leads there.
    pub fn bfs(&self, from: usize, to: usize) -> (d: Distance)
        requires
            self.wf(),
            from < self.edges.len(),
            to < self.edges.len(),
        ensures
            match d {
                Distance::Reachable(n) => self.shortest(from as int, to as int, n as nat),
                Distance::Unreachable => !self.reachable(from as int, to as int),
            },
    {
        let n = self.edges.len();
        let mut distances = vec![Distance::Unreachable; n];
        let mut queue: VecDeque<usize> = VecDeque::new();
        let mut visited = vec![false; n];

        queue.push_back(from);
        distances[from] = Distance::Reachable(0);
        visited[from] = true;

        let ghost mut done: Set<int> = Set::empty();
        let ghost mut found: Set<int> = Set::empty().insert(from as int);
        proof {
            lemma_int_range(0, n as int);
            assert(found.subset_of(set_int_range(0, n as int)));
            lemma_len_subset(found, set_int_range(0, n as int));
            assert(queue@[0] == from);
            self.lemma_walk_none(from as int);
        }

        while queue.len() > 0
            invariant
                self.wf(),
                n == self.edges.len(),
                from < n,
                (Search { from: from as int, seen: visited@, far: distances@ }).sane(self),
                (Search { from: from as int, seen: visited@, far: distances@ }).closed(self, done),
                visited@[from as int],
                distances@[from as int] == Distance::Reachable(0),
                forall|i: int| 0 <= i < queue@.len() ==> #[trigger] queue@[i] < n && visited@[queue@[i] as int],
                forall|i: int, j: int|
                    0 <= i < j < queue@.len() ==> (Search {
                        from: from as int,
                        seen: visited@,
                        far: distances@,
                    }).at(#[trigger] queue@[i] as int) <= (Search {
                        from: from as int,
                        seen: visited@,
                        far: distances@,
                    }).at(#[trigger] queue@[j] as int),
                queue@.len() > 0 ==> forall|v: int|
                    0 <= v < n && #[trigger] visited@[v] ==> (Search {
                        from: from as int,
                        seen: visited@,
                        far: distances@,
                    }).at(v) <= (Search { from: from as int, seen: visited@, far: distances@ }).at(
                        queue@[0] as int,
                    ) + 1,
                forall|v: int|
                    0 <= v < n && #[trigger] visited@[v] ==> done.contains(v) || queue@.contains(
                        v as usize,
                    ),
                found.finite(),
                found.subset_of(set_int_range(0, n as int)),
                forall|v: int| 0 <= v < n ==> (#[trigger] visited@[v] <==> found.contains(v)),
                forall|v: int|
                    0 <= v < n && #[trigger] visited@[v] ==> (Search {
                        from: from as int,
                        seen: visited@,
                        far: distances@,
                    }).at(v) < found.len(),
                found.len() <= n,
            decreases (n - found.len()) + queue@.len(),
        {
            let ghost budget = (n - found.len()) + queue@.len();
            let ghost waiting = queue@;
            let node = queue.pop_front().unwrap();
            proof {
                assert forall|v: int| 0 <= v < n && #[trigger] visited@[v] implies done.contains(v)
                    || queue@.contains(v as usize) || v == node by {
                    if waiting.contains(v as usize) {
                        let i = choose|i: int| 0 <= i < waiting.len() && waiting[i] == v as usize;
                        if i > 0 {
                            assert(queue@[i - 1] == v as usize);
                        }
                    }
                }
                assert forall|i: int| 0 <= i < queue@.len() implies #[trigger] queue@[i] < n
                    && visited@[queue@[i] as int] by {
                    assert(queue@[i] == waiting[i + 1]);
                }
            }
            let ghost level = (Search { from: from as int, seen: visited@, far: distances@ }).at(
                node as int,
            );
            let mut k: usize = 0;
            while k < self.edges[node].len()
                invariant
                    self.wf(),
                    n == self.edges.len(),
                    from < n,
                    node < n,
                    0 <= k <= self.edges[node as int].len(),
                    (Search { from: from as int, seen: visited@, far: distances@ }).sane(self),
                    (Search { from: from as int, seen: visited@, far: distances@ }).closed(
                        self,
                        done,
                    ),
                    (Search { from: from as int, seen: visited@, far: distances@ }).expanded(
                        self,
                        node as int,
                        k as int,
                    ),
                    visited@[from as int],
                    distances@[from as int] == Distance::Reachable(0),
                    visited@[node as int],
                    level == (Search { from: from as int, seen: visited@, far: distances@ }).at(
                        node as int,
                    ),
                    forall|i: int|
                        0 <= i < queue@.len() ==> #[trigger] queue@[i] < n && visited@[queue@[i] as int],
                    forall|i: int, j: int|
                        0 <= i < j < queue@.len() ==> (Search {
                            from: from as int,
                            seen: visited@,
                            far: distances@,
                        }).at(#[trigger] queue@[i] as int) <= (Search {
                            from: from as int,
                            seen: visited@,
                            far: distances@,
                        }).at(#[trigger] queue@[j] as int),
                    forall|i: int|
                        0 <= i < queue@.len() ==> level <= (Search {
                            from: from as int,
                            seen: visited@,
                            far: distances@,
                        }).at(#[trigger] queue@[i] as int),
                    forall|v: int|
                        0 <= v < n && #[trigger] visited@[v] ==> (Search {
                            from: from as int,
                            seen: visited@,
                            far: distances@,
                        }).at(v) <= level + 1,
                    forall|v: int|
                        0 <= v < n && #[trigger] visited@[v] ==> done.contains(v)
                            || queue@.contains(v as usize) || v == node,
                    found.finite(),
                    found.subset_of(set_int_range(0, n as int)),
                    forall|v: int| 0 <= v < n ==> (#[trigger] visited@[v] <==> found.contains(v)),
                    forall|v: int|
                        0 <= v < n && #[trigger] visited@[v] ==> (Search {
                            from: from as int,
                            seen: visited@,
                            far: distances@,
                        }).at(v) < found.len(),
                    found.len() <= n,
                    (n - found.len()) + queue@.len() == budget - 1,
                decreases self.edges[node as int].len() - k,
            {
                let neighbor = self.edges[node][k];
                if !visited[neighbor] {
                    proof {
                        lemma_int_range(0, n as int);
                        lemma_len_subset(found, set_int_range(0, n as int));
                    }
                    let ghost before = Search {
                        from: from as int,
                        seen: visited@,
                        far: distances@,
                    };
                    let ghost queued = queue@;
                    distances[neighbor] = distances[node].increase();
                    visited[neighbor] = true;
                    queue.push_back(neighbor);
                    proof {
                        let after = Search { from: from as int, seen: visited@, far: distances@ };
                        found = found.insert(neighbor as int);
                        lemma_len_subset(found, set_int_range(0, n as int));
                        assert forall|v: int| 0 <= v < n && v != neighbor implies after.at(v)
                            == before.at(v) && after.seen[v] == before.seen[v] by {}
                        assert(after.at(neighbor as int) == level + 1);
                        assert(self.reach_in(from as int, neighbor as int, (level + 1) as nat)) by {
                            assert(before.seen[node as int]);
                            assert(self.reach_in(from as int, node as int, level as nat));
                            let p = choose|p: Seq<int>| #[trigger]
                                self.walk_between(p, from as int, node as int) && p.len() == level
                                    + 1;
                            assert(self.edges[node as int][k as int] == neighbor);
                            assert(self.edge(node as int, neighbor as int));
                            self.lemma_walk_on(p, from as int, node as int, neighbor as int);
                        }
                        assert(after.closed(self, done)) by {
                            assert forall|u: int| #[trigger] done.contains(u) implies 0 <= u < n
                                && after.seen[u] && after.expanded(
                                self,
                                u,
                                self.edges[u].len() as int,
                            ) by {
                                assert(before.expanded(self, u, self.edges[u].len() as int));
                                assert forall|j: int| 0 <= j < self.edges[u].len() implies {
                                    let w = #[trigger] self.edges[u][j] as int;
                                    after.seen[w] && after.at(w) <= after.at(u) + 1
                                } by {
                                    let w = self.edges[u][j] as int;
                                    assert(before.seen[w]);
                                }
                            }
                        }
                        assert(after.expanded(self, node as int, k + 1)) by {
                            assert forall|j: int| 0 <= j < k + 1 implies {
                                let w = #[trigger] self.edges[node as int][j] as int;
                                after.seen[w] && after.at(w) <= after.at(node as int) + 1
                            } by {
                                let w = self.edges[node as int][j] as int;
                                if j < k {
                                    assert(before.seen[w]);
                                }
                            }
                        }
                        assert forall|i: int| 0 <= i < queue@.len() implies #[trigger] queue@[i]
                            < n && visited@[queue@[i] as int] by {
                            if i < queued.len() {
                                assert(queue@[i] == queued[i]);
                            }
                        }
                        assert forall|i: int| 0 <= i < queue@.len() implies level <= after.at(
                            #[trigger] queue@[i] as int,
                        ) by {
                            if i < queued.len() {
                                assert(queue@[i] == queued[i]);
                                assert(visited@[queued[i] as int]);
                            }
                        }
                        assert forall|i: int, j: int| 0 <= i < j < queue@.len() implies after.at(
                            #[trigger] queue@[i] as int,
                        ) <= after.at(#[trigger] queue@[j] as int) by {
                            assert(queue@[i] == queued[i]);
                            assert(before.seen[queued[i] as int]);
                            if j < queued.len() {
                                assert(queue@[j] == queued[j]);
                                assert(before.seen[queued[j] as int]);
                            }
                        }
                        assert forall|v: int| 0 <= v < n && #[trigger] visited@[v] implies done.contains(
                            v,
                        ) || queue@.contains(v as usize) || v == node by {
                            if v == neighbor {
                                assert(queue@[queued.len() as int] == neighbor);
                            } else if queued.contains(v as usize) {
                                let i = choose|i: int| 0 <= i < queued.len() && queued[i] == v as usize;
                                assert(queue@[i] == v as usize);
                            }
                        }
                    }
                } else {
                    proof {
                        let now = Search { from: from as int, seen: visited@, far: distances@ };
                        assert forall|j: int| 0 <= j < k + 1 implies {
                            let w = #[trigger] self.edges[node as int][j] as int;
                            now.seen[w] && now.at(w) <= now.at(node as int) + 1
                        } by {}
                    }
                }
                k = k + 1;
            }
            proof {
                let now = Search { from: from as int, seen: visited@, far: distances@ };
                done = done.insert(node as int);
            }
        }
        proof {
            let last = Search { from: from as int, seen: visited@, far: distances@ };
            assert forall|m: nat| self.reach_in(from as int, to as int, m) implies visited@[to as int]
                && last.at(to as int) <= m by {
                last.lemma_complete(self, done, to as int, m);
            }
            if !visited@[to as int] && self.reachable(from as int, to as int) {
                let p = choose|p: Seq<int>| #[trigger] self.walk_between(p, from as int, to as int);
                assert(self.reach_in(from as int, to as int, (p.len() - 1) as nat));
            }
        }
        distances[to]
    }
}

} // verus!
