//! Depth-first search.

use crate::graphs::model::Graph;
use vstd::prelude::*;

verus! {

/// What a depth-first search knows of a node.
#[derive(Debug, Copy, Clone, PartialEq)]
pub enum NodeColor {
    /// Not visited yet.
    White,
    /// Being visited: the search is at work below it.
    Gray,
    /// Visited: the search is through with it.
    Black,
}

impl NodeColor {
    /// Whether the node was not visited yet.
    pub fn is_white(&self) -> (r: bool)
        ensures
            r == (*self == NodeColor::White),
    {
        match self {
            NodeColor::White => true,
            _ => false,
        }
    }
}

/// The number of nodes that are not visited yet.
pub open spec fn whites(color: Seq<NodeColor>) -> nat
    decreases color.len(),
{
    if color.len() == 0 {
        0
    } else {
        whites(color.drop_last()) + if color.last() == NodeColor::White {
            1nat
        } else {
            0nat
        }
    }
}

/// A node that leaves the unvisited ones makes them one fewer.
pub proof fn lemma_whites_visit(color: Seq<NodeColor>, v: int, c: NodeColor)
    requires
        0 <= v < color.len(),
        color[v] == NodeColor::White,
        c != NodeColor::White,
    ensures
        whites(color.update(v, c)) + 1 == whites(color),
    decreases color.len(),
{
    let after = color.update(v, c);
    if v == color.len() - 1 {
        assert(after.drop_last() =~= color.drop_last());
    } else {
        assert(after.drop_last() =~= color.drop_last().update(v, c));
        lemma_whites_visit(color.drop_last(), v, c);
    }
}

/// A change of colour among the visited nodes leaves the number of the
/// unvisited ones as it is.
pub proof fn lemma_whites_keep(color: Seq<NodeColor>, v: int, c: NodeColor)
    requires
        0 <= v < color.len(),
        color[v] != NodeColor::White,
        c != NodeColor::White,
    ensures
        whites(color.update(v, c)) == whites(color),
    decreases color.len(),
{
    let after = color.update(v, c);
    if v == color.len() - 1 {
        assert(after.drop_last() =~= color.drop_last());
    } else {
        assert(after.drop_last() =~= color.drop_last().update(v, c));
        lemma_whites_keep(color.drop_last(), v, c);
    }
}

/// The state of a depth-first search from `from`: the colour of each node,
/// and for each visited node the node from which the search came to it.
pub struct Trail {
    pub from: int,
    pub color: Seq<NodeColor>,
    pub prior: Seq<Option<usize>>,
}

impl Trail {
    /// From `v` back along the recorded nodes, each with an edge to the
    /// next, one comes to `from` within `n + 1` steps.
    pub open spec fn linked(&self, g: &Graph, v: int, n: nat) -> bool
        decreases n,
    {
        &&& 0 <= v < self.prior.len()
        &&& self.prior[v] matches Some(p) && g.edge(p as int, v) && (p == self.from || (n > 0
            && self.linked(g, p as int, (n - 1) as nat)))
    }

    /// The state fits the graph: exactly the visited nodes have a recorded
    /// node to come from, the way back from each of them ends at `from`, and
    /// every node that a finished node has an edge to is visited.
    pub open spec fn sane(&self, g: &Graph) -> bool {
        &&& self.color.len() == g.size()
        &&& self.prior.len() == g.size()
        &&& forall|v: int|
            0 <= v < g.size() ==> (#[trigger] self.color[v] == NodeColor::White <==> self.prior[v]
                is None)
        &&& forall|v: int|
            0 <= v < g.size() && #[trigger] self.color[v] != NodeColor::White ==> exists|n: nat|
                self.linked(g, v, n)
        &&& forall|u: int, k: int|
            0 <= u < g.size() && self.color[u] == NodeColor::Black && 0 <= k < g.edges[u].len()
                ==> self.color[#[trigger] g.edges[u][k] as int] != NodeColor::White
    }

    /// `later` comes after this state in one search: what was visited has
    /// the colour and the recorded node it had, but for nodes that were
    /// being visited and may be finished now.
    pub open spec fn before(&self, later: &Trail) -> bool {
        &&& later.from == self.from
        &&& later.color.len() == self.color.len()
        &&& later.prior.len() == self.prior.len()
        &&& forall|v: int|
            0 <= v < self.color.len() && #[trigger] self.color[v] != NodeColor::White ==> later.prior[v]
                == self.prior[v] && later.color[v] != NodeColor::White
    }

    /// The way back from a node stays what it was in a later state.
    pub proof fn lemma_linked_later(&self, later: &Trail, g: &Graph, v: int, n: nat)
        requires
            self.before(later),
            self.color.len() == self.prior.len(),
            forall|v: int|
                0 <= v < self.color.len() ==> (#[trigger] self.color[v] == NodeColor::White
                    <==> self.prior[v] is None),
            self.linked(g, v, n),
        ensures
            later.linked(g, v, n),
        decreases n,
    {
        let p = self.prior[v]->0;
        assert(self.color[v] != NodeColor::White);
        if p != self.from {
            self.lemma_linked_later(later, g, p as int, (n - 1) as nat);
        }
    }
}

impl Trail {
    /// `later` comes after this state by a visit that has ended: it left no
    /// node in the state of being visited that was not in it before, and it
    /// changed nothing about the nodes that were visited before.
    pub open spec fn settled_into(&self, later: &Trail) -> bool {
        &&& self.before(later)
        &&& forall|v: int|
            0 <= v < self.color.len() && #[trigger] self.color[v] != NodeColor::White ==> later.color[v]
                == self.color[v]
        &&& forall|v: int|
            0 <= v < self.color.len() && #[trigger] self.color[v] == NodeColor::White ==> later.color[v]
                != NodeColor::Gray
        &&& whites(later.color) <= whites(self.color)
    }

    /// The way back from every visited node still ends at `from` in a later
    /// state.
    pub proof fn lemma_ways_later(&self, later: &Trail, g: &Graph)
        requires
            self.sane(g),
            self.before(later),
        ensures
            forall|v: int|
                0 <= v < g.size() && #[trigger] self.color[v] != NodeColor::White ==> exists|n: nat|
                    later.linked(g, v, n),
    {
        assert forall|v: int|
            0 <= v < g.size() && #[trigger] self.color[v] != NodeColor::White implies exists|n: nat|
            later.linked(g, v, n) by {
            let n = choose|n: nat| self.linked(g, v, n);
            self.lemma_linked_later(later, g, v, n);
        }
    }

    /// Once no node is being visited and every node that `from` has an edge
    /// to was visited, every node on a walk from `from`, but for `from` at
    /// its start, was visited.
    pub proof fn lemma_walk_visited(&self, g: &Graph, p: Seq<int>, i: int)
        requires
            g.wf(),
            self.sane(g),
            0 <= self.from < g.size(),
            forall|v: int| 0 <= v < g.size() ==> #[trigger] self.color[v] != NodeColor::Gray,
            forall|k: int|
                0 <= k < g.edges[self.from].len() ==> self.color[#[trigger] g.edges[self.from][k] as int]
                    != NodeColor::White,
            g.walk(p),
            p.first() == self.from,
            1 <= i < p.len(),
        ensures
            0 <= p[i] < g.size(),
            self.color[p[i]] == NodeColor::Black,
        decreases i,
    {
        let u = p[i - 1];
        assert(g.edge(p[i - 1], p[i - 1 + 1]));
        let k = choose|k: int| 0 <= k < g.edges[u].len() && #[trigger] g.edges[u][k] == p[i];
        assert(g.edges[u][k] as int == p[i]);
        if i > 1 {
            self.lemma_walk_visited(g, p, i - 1);
        }
    }
}

impl Trail {
    /// The state in which a search from `from` in a graph of `n` nodes
    /// begins: no node is visited.
    pub open spec fn blank(from: int, n: nat) -> Trail {
        Trail {
            from,
            color: Seq::new(n, |i: int| NodeColor::White),
            prior: Seq::new(n, |i: int| None::<usize>),
        }
    }

    /// `p` is the way from `from` to `to` along the recorded nodes: it
    /// begins at `from`, ends at `to`, each of its nodes but the first is
    /// one to which the search came from the node before it, and between
    /// its ends it does not meet `from`.
    pub open spec fn leads_back(&self, to: int, p: Seq<int>) -> bool {
        &&& p.len() >= 2
        &&& p.first() == self.from
        &&& p.last() == to
        &&& forall|i: int| 1 <= i < p.len() ==> self.came_from(#[trigger] p[i], p[i - 1])
        &&& forall|i: int| 1 <= i < p.len() - 1 ==> #[trigger] p[i] != self.from
    }

    /// The search came to the node `v` from the node `u`.
    pub open spec fn came_from(&self, v: int, u: int) -> bool {
        &&& 0 <= v < self.prior.len()
        &&& self.prior[v] matches Some(w) && w == u
    }

    /// There is one way from `from` to `to` along the recorded nodes at
    /// most.
    pub proof fn lemma_one_way_back(&self, to: int, p: Seq<int>, q: Seq<int>)
        requires
            self.leads_back(to, p),
            self.leads_back(to, q),
        ensures
            p == q,
    {
        assert forall|k: int| 0 <= k < p.len() && k < q.len() implies #[trigger] from_end(p, k)
            == from_end(q, k) by {
            self.lemma_ways_agree(to, p, q, k);
        }
        if p.len() < q.len() {
            let k = p.len() - 1;
            assert(from_end(p, k) == from_end(q, k));
            assert(q[q.len() - 1 - k] != self.from);
        } else if q.len() < p.len() {
            let k = q.len() - 1;
            assert(from_end(p, k) == from_end(q, k));
            assert(p[p.len() - 1 - k] != self.from);
        }
        assert forall|i: int| 0 <= i < p.len() implies p[i] == q[i] by {
            let k = p.len() - 1 - i;
            assert(from_end(p, k) == from_end(q, k));
        }
        assert(p =~= q);
    }

    /// Two ways back to `to` agree at every distance from their end.
    proof fn lemma_ways_agree(&self, to: int, p: Seq<int>, q: Seq<int>, k: int)
        requires
            self.leads_back(to, p),
            self.leads_back(to, q),
            0 <= k < p.len(),
            k < q.len(),
        ensures
            from_end(p, k) == from_end(q, k),
        decreases k,
    {
        if k > 0 {
            self.lemma_ways_agree(to, p, q, k - 1);
            let i = p.len() - k;
            let j = q.len() - k;
            assert(from_end(p, k - 1) == p[i]);
            assert(from_end(q, k - 1) == q[j]);
            assert(self.came_from(p[i], p[i - 1]));
            assert(self.came_from(q[j], q[j - 1]));
        }
    }
}

/// The node of `p` that stands `k` places before its last.
pub open spec fn from_end(p: Seq<int>, k: int) -> int {
    p[p.len() - 1 - k]
}

impl Graph {
    /// What a visit of `node`, to which the search comes from `from`, makes
    /// of the state `t`: nothing, where the node was visited before; else
    /// the node is recorded as come to from `from`, the nodes it has an edge
    /// to are visited in the order in which the graph lists them, and the
    /// node is finished. `fuel` bounds how deep the visit goes; it is enough
    /// where it is the number of nodes that are not visited.
    pub open spec fn visit(&self, t: Trail, node: int, from: int, fuel: nat) -> Trail
        decreases fuel, 0nat,
    {
        if fuel == 0 || !(0 <= node < t.color.len()) || t.color[node] != NodeColor::White {
            t
        } else {
            let entered = Trail {
                from: t.from,
                color: t.color.update(node, NodeColor::Gray),
                prior: t.prior.update(node, Some(from as usize)),
            };
            let explored = self.visit_all(entered, node, 0, (fuel - 1) as nat);
            Trail {
                from: explored.from,
                color: explored.color.update(node, NodeColor::Black),
                prior: explored.prior,
            }
        }
    }

    /// What the visits of the nodes that `node` has an edge to, from the
    /// edge with index `k` on, make of the state `t`.
    pub open spec fn visit_all(&self, t: Trail, node: int, k: nat, fuel: nat) -> Trail
        decreases fuel, (if 0 <= node < self.edges.len() && k < self.edges[node].len() {
            self.edges[node].len() - k + 1
        } else {
            1
        }),
    {
        if 0 <= node < self.edges.len() && k < self.edges[node].len() {
            self.visit_all(
                self.visit(t, self.edges[node][k as int] as int, node, fuel),
                node,
                k + 1,
                fuel,
            )
        } else {
            t
        }
    }

    /// The state that a depth-first search from `from` leaves: every node
    /// that `from` has an edge to was visited, in the order in which the
    /// graph lists them.
    pub open spec fn searched(&self, from: int) -> Trail {
        self.visit_all(Trail::blank(from, self.edges.len() as nat), from, 0, self.edges.len() as nat)
    }
}

/// No more nodes are unvisited than there are nodes.
pub proof fn lemma_whites_bound(color: Seq<NodeColor>)
    ensures
        whites(color) <= color.len(),
    decreases color.len(),
{
    if color.len() > 0 {
        lemma_whites_bound(color.drop_last());
    }
}

/// The nodes of `path` as the model names them.
pub open spec fn nodes_of(path: Seq<usize>) -> Seq<int> {
    path.map_values(|v: usize| v as int)
}

/// The elements of `v` in reverse order.
pub fn reversed(v: &Vec<usize>) -> (out: Vec<usize>)
    ensures
        out@ == v@.reverse(),
{
    let mut out: Vec<usize> = Vec::new();
    let mut i: usize = v.len();
    while i > 0
        invariant
            0 <= i <= v.len(),
            out@.len() == v.len() - i,
            forall|j: int| 0 <= j < out@.len() ==> out@[j] == v@[v.len() - 1 - j],
        decreases i,
    {
        i = i - 1;
        out.push(v[i]);
    }
    assert(out@ =~= v@.reverse());
    out
}

impl Graph {
    /// Visits `node`, to which the search came from `from`, and everything
    /// that can be reached from it through nodes that are not visited yet;
    /// nothing, if `node` was visited before.
    pub fn do_dfs(
        &self,
        visited: &mut Vec<NodeColor>,
        prior: &mut Vec<Option<usize>>,
        node: usize,
        from: usize,
        Ghost(source): Ghost<int>,
    )
        requires
            self.wf(),
            node < self.edges.len(),
            self.edge(from as int, node as int),
            (Trail { from: source, color: old(visited)@, prior: old(prior)@ }).sane(self),
            from == source || old(visited)@[from as int] != NodeColor::White,
        ensures
            (Trail { from: source, color: final(visited)@, prior: final(prior)@ }).sane(self),
            (Trail { from: source, color: old(visited)@, prior: old(prior)@ }).settled_into(
                &(Trail { from: source, color: final(visited)@, prior: final(prior)@ }),
            ),
            final(visited)@[node as int] != NodeColor::White,
            forall|fuel: nat|
                fuel >= whites(old(visited)@) ==> (Trail {
                    from: source,
                    color: final(visited)@,
                    prior: final(prior)@,
                }) == #[trigger] self.visit(
                    (Trail { from: source, color: old(visited)@, prior: old(prior)@ }),
                    node as int,
                    from as int,
                    fuel,
                ),
        decreases whites(old(visited)@),
    {
        let ghost t0 = Trail { from: source, color: visited@, prior: prior@ };
        if !visited[node].is_white() {
            return ;
        }
        visited[node] = NodeColor::Gray;
        prior[node] = Some(from);
        let ghost t1 = Trail { from: source, color: visited@, prior: prior@ };
        proof {
            lemma_whites_visit(t0.color, node as int, NodeColor::Gray);
            t0.lemma_ways_later(&t1, self);
            if from != source {
                let n = choose|n: nat| t1.linked(self, from as int, n);
                assert(t1.linked(self, node as int, n + 1));
            } else {
                assert(t1.linked(self, node as int, 0));
            }
            assert(t1.sane(self));
        }
        let mut k: usize = 0;
        while k < self.edges[node].len()
            invariant
                self.wf(),
                node < self.edges.len(),
                0 <= k <= self.edges[node as int].len(),
                t0.sane(self),
                t0.color == old(visited)@,
                t0.color[node as int] == NodeColor::White,
                (Trail { from: source, color: visited@, prior: prior@ }).sane(self),
                t0.before(&(Trail { from: source, color: visited@, prior: prior@ })),
                forall|v: int|
                    0 <= v < t0.color.len() && #[trigger] t0.color[v] != NodeColor::White ==> visited@[v]
                        == t0.color[v],
                forall|v: int|
                    0 <= v < t0.color.len() && #[trigger] t0.color[v] == NodeColor::White && v
                        != node ==> visited@[v] != NodeColor::Gray,
                visited@[node as int] == NodeColor::Gray,
                forall|j: int|
                    0 <= j < k ==> visited@[#[trigger] self.edges[node as int][j] as int]
                        != NodeColor::White,
                whites(visited@) < whites(t0.color),
                whites(t1.color) + 1 == whites(t0.color),
                forall|fuel: nat|
                    fuel >= whites(t1.color) ==> #[trigger] self.visit_all(
                        t1,
                        node as int,
                        0,
                        fuel,
                    ) == self.visit_all(
                        (Trail { from: source, color: visited@, prior: prior@ }),
                        node as int,
                        k as nat,
                        fuel,
                    ),
            decreases self.edges[node as int].len() - k,
        {
            let ghost t2 = Trail { from: source, color: visited@, prior: prior@ };
            let neighbor = self.edges[node][k];
            proof {
                assert(self.edges[node as int][k as int] == neighbor);
                assert(self.edge(node as int, neighbor as int));
            }
            self.do_dfs(visited, prior, neighbor, node, Ghost(source));
            proof {
                let t3 = Trail { from: source, color: visited@, prior: prior@ };
                assert forall|fuel: nat| fuel >= whites(t1.color) implies #[trigger] self.visit_all(
                    t1,
                    node as int,
                    0,
                    fuel,
                ) == self.visit_all(t3, node as int, (k + 1) as nat, fuel) by {
                    assert(t3 == self.visit(t2, neighbor as int, node as int, fuel));
                }
            }
            proof {
                let t3 = Trail { from: source, color: visited@, prior: prior@ };
                assert forall|j: int| 0 <= j < k + 1 implies visited@[#[trigger] self.edges[node as int][j] as int]
                    != NodeColor::White by {
                    let w = self.edges[node as int][j] as int;
                    if j < k {
                        assert(t2.color[w] != NodeColor::White);
                    }
                }
                assert forall|v: int|
                    0 <= v < t0.color.len() && #[trigger] t0.color[v] == NodeColor::White && v
                        != node implies visited@[v] != NodeColor::Gray by {
                    if t2.color[v] == NodeColor::White {
                    } else {
                        assert(t3.color[v] == t2.color[v]);
                    }
                }
                assert forall|v: int|
                    0 <= v < t0.color.len() && #[trigger] t0.color[v] != NodeColor::White implies visited@[v]
                        == t0.color[v] && prior@[v] == t0.prior[v] by {
                    assert(t2.color[v] == t0.color[v]);
                    assert(t2.color[v] != NodeColor::White);
                }
            }
            k = k + 1;
        }
        let ghost t4 = Trail { from: source, color: visited@, prior: prior@ };
        visited[node] = NodeColor::Black;
        proof {
            let t5 = Trail { from: source, color: visited@, prior: prior@ };
            assert forall|fuel: nat| fuel >= whites(t0.color) implies t5 == #[trigger] self.visit(
                t0,
                node as int,
                from as int,
                fuel,
            ) by {
                let less = (fuel - 1) as nat;
                assert(self.visit_all(t1, node as int, 0, less) == self.visit_all(
                    t4,
                    node as int,
                    k as nat,
                    less,
                ));
                assert(t1.color =~= t0.color.update(node as int, NodeColor::Gray));
                assert(t1.prior =~= t0.prior.update(node as int, Some(from)));
                assert(t5.color =~= t4.color.update(node as int, NodeColor::Black));
            }
            lemma_whites_keep(t4.color, node as int, NodeColor::Black);
            t4.lemma_ways_later(&t5, self);
            assert forall|u: int, j: int|
                0 <= u < self.size() && t5.color[u] == NodeColor::Black && 0 <= j
                    < self.edges[u].len() implies t5.color[#[trigger] self.edges[u][j] as int]
                != NodeColor::White by {
                let w = self.edges[u][j] as int;
                if u != node {
                    assert(t4.color[u] == NodeColor::Black);
                    assert(t4.color[w] != NodeColor::White);
                }
            }
            assert(t5.sane(self));
        }
    }

    /// A walk of at least one edge from `from` to `to`, as depth-first
    /// search finds it, which tries the edges of each node in the order in
    /// which the graph lists them; `None` if no such walk leads there.
    pub fn dfs(&self, from: usize, to: usize) -> (r: Option<Vec<usize>>)
        requires
            self.wf(),
            from < self.edges.len(),
            to < self.edges.len(),
        ensures
            match r {
                Some(path) => {
                    &&& self.walk_between(nodes_of(path@), from as int, to as int)
                    &&& self.searched(from as int).leads_back(to as int, nodes_of(path@))
                },
                None => {
                    &&& forall|p: Seq<int>| #[trigger]
                        self.walk_between(p, from as int, to as int) ==> p.len() < 2
                    &&& self.searched(from as int).prior[to as int].is_none()
                },
            },
    {
        let n = self.edges.len();
        let mut visited = vec![NodeColor::White; n];
        let mut prior: Vec<Option<usize>> = vec![None; n];
        let ghost source = from as int;
        let ghost blank = Trail::blank(source, n as nat);
        proof {
            assert(visited@ =~= blank.color);
            assert(prior@ =~= blank.prior);
            lemma_whites_bound(blank.color);
        }
        let mut k: usize = 0;
        while k < self.edges[from].len()
            invariant
                self.wf(),
                n == self.edges.len(),
                from < n,
                source == from,
                0 <= k <= self.edges[from as int].len(),
                (Trail { from: source, color: visited@, prior: prior@ }).sane(self),
                forall|v: int| 0 <= v < n ==> #[trigger] visited@[v] != NodeColor::Gray,
                forall|j: int|
                    0 <= j < k ==> visited@[#[trigger] self.edges[from as int][j] as int]
                        != NodeColor::White,
                whites(visited@) <= n,
                self.searched(source) == self.visit_all(
                    (Trail { from: source, color: visited@, prior: prior@ }),
                    source,
                    k as nat,
                    n as nat,
                ),
            decreases self.edges[from as int].len() - k,
        {
            let ghost t2 = Trail { from: source, color: visited@, prior: prior@ };
            let neighbor = self.edges[from][k];
            proof {
                assert(self.edges[from as int][k as int] == neighbor);
                assert(self.edge(from as int, neighbor as int));
            }
            self.do_dfs(&mut visited, &mut prior, neighbor, from, Ghost(source));
            proof {
                let t3 = Trail { from: source, color: visited@, prior: prior@ };
                assert(t3 == self.visit(t2, neighbor as int, source, n as nat));
                assert forall|j: int| 0 <= j < k + 1 implies visited@[#[trigger] self.edges[from as int][j] as int]
                    != NodeColor::White by {
                    let w = self.edges[from as int][j] as int;
                    if j < k {
                        assert(t2.color[w] != NodeColor::White);
                    }
                }
                assert forall|v: int| 0 <= v < n implies #[trigger] visited@[v]
                    != NodeColor::Gray by {
                    if t2.color[v] == NodeColor::White {
                    } else {
                        assert(visited@[v] == t2.color[v]);
                    }
                }
            }
            k = k + 1;
        }
        let ghost trail = Trail { from: source, color: visited@, prior: prior@ };
        proof {
            assert(trail == self.searched(source));
            assert forall|p: Seq<int>| #[trigger]
                self.walk_between(p, from as int, to as int) && p.len() >= 2 implies visited@[to as int]
                == NodeColor::Black by {
                trail.lemma_walk_visited(self, p, p.len() - 1);
            }
        }
        let mut prev = match prior[to] {
            Some(p) => p,
            None => {
                return None;
            },
        };
        let mut path: Vec<usize> = Vec::new();
        path.push(prev);
        let ghost mut fuel: nat = 0;
        proof {
            assert(trail.color[to as int] != NodeColor::White);
            let n0 = choose|n0: nat| trail.linked(self, to as int, n0);
            if prev != from {
                fuel = (n0 - 1) as nat;
            }
            assert(self.walk_between(seq![prev as int, to as int], prev as int, to as int));
            assert(nodes_of(path@).reverse().push(to as int) =~= seq![prev as int, to as int]);
            assert(trail.came_from(to as int, prev as int));
        }
        while prev != from
            invariant
                self.wf(),
                to < self.edges.len(),
                from < self.edges.len(),
                trail.sane(self),
                trail.from == from,
                trail.prior == prior@,
                prev < self.edges.len(),
                prev == from || trail.linked(self, prev as int, fuel),
                path@.len() >= 1,
                self.walk_between(nodes_of(path@).reverse().push(to as int), prev as int, to as int),
                forall|i: int|
                    1 <= i < path@.len() + 1 ==> trail.came_from(
                        #[trigger] nodes_of(path@).reverse().push(to as int)[i],
                        nodes_of(path@).reverse().push(to as int)[i - 1],
                    ),
                forall|i: int|
                    1 <= i < path@.len() ==> #[trigger] nodes_of(path@).reverse().push(
                        to as int,
                    )[i] != from,
            decreases
                    (if prev == from {
                        0
                    } else {
                        fuel + 1
                    }),
        {
            let ghost walked = nodes_of(path@).reverse().push(to as int);
            let ghost last = prev;
            prev = match prior[prev] {
                Some(p) => p,
                None => {
                    return None;
                },
            };
            path.push(prev);
            proof {
                let now = nodes_of(path@).reverse().push(to as int);
                assert(now =~= seq![prev as int] + walked);
                assert(self.edge(prev as int, last as int));
                assert forall|i: int| 0 <= i < now.len() - 1 implies self.edge(
                    #[trigger] now[i],
                    now[i + 1],
                ) by {
                    if i > 0 {
                        assert(now[i] == walked[i - 1]);
                        assert(self.edge(walked[i - 1], walked[i - 1 + 1]));
                    }
                }
                if prev != from {
                    fuel = (fuel - 1) as nat;
                }
                assert(trail.came_from(last as int, prev as int));
                assert forall|i: int| 1 <= i < path@.len() + 1 implies trail.came_from(
                    #[trigger] now[i],
                    now[i - 1],
                ) by {
                    if i > 1 {
                        assert(now[i] == walked[i - 1]);
                        assert(now[i - 1] == walked[i - 2]);
                    }
                }
                assert forall|i: int| 1 <= i < path@.len() implies #[trigger] now[i] != from by {
                    if i > 1 {
                        assert(now[i] == walked[i - 1]);
                    }
                }
            }
        }
        let mut out = reversed(&path);
        out.push(to);
        proof {
            assert(nodes_of(out@) =~= nodes_of(path@).reverse().push(to as int));
        }
        Some(out)
    }
}

} // verus!
