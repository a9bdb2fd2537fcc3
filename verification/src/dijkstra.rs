//! Cost-annotated shortest-path search over the fabric graph.
//!
//! A single verified core runs a min-first relaxation over an adjacency
//! structure and keeps, for every reached node, an explicit witness path
//! whose congestion-aware cost equals the recorded distance.  `u64::MAX`
//! doubles as the "not reached" sentinel; costs saturate there, so the
//! search is total.

use vstd::prelude::*;

use crate::arith::sat_add;
use crate::arith::spec_sat_add;
use crate::fabric_graph::adj_ok;
use crate::fabric_graph::base_costs_ok;
use crate::fabric_graph::FabricGraph;
use crate::node::spec_calc_costs;
use crate::node::Costs;
use crate::node::Edge;
use crate::node::Node;
use crate::paths::adj_path_ok;
use crate::paths::edge_exists;
use crate::paths::graph_path_cost;
use crate::paths::graph_path_ok;
use crate::paths::lemma_path_cost_push;
use crate::paths::path_cost;

verus! {

/// Copy a path of node indices.
fn clone_path(p: &Vec<usize>) -> (r: Vec<usize>)
    ensures
        r@ == p@,
{
    let mut r: Vec<usize> = Vec::new();
    let mut i: usize = 0;
    while i < p.len()
        invariant
            i <= p@.len(),
            r@ == p@.subrange(0, i as int),
        decreases p@.len() - i,
    {
        r.push(p[i]);
        i += 1;
    }
    proof {
        assert(r@ =~= p@);
    }
    r
}

/// The settled set is closed under single-edge relaxation: following any
/// edge out of a settled node never improves on the recorded distance.
pub open spec fn relax_closed(
    costs: Seq<Costs>,
    adj: Seq<Vec<Edge>>,
    n: nat,
    dist: Seq<u64>,
    visited: Seq<bool>,
) -> bool {
    forall|u: int, k: int|
        0 <= u < n && visited[u] && 0 <= k < adj[u]@.len() ==> dist[(
        #[trigger] adj[u]@[k]).node_id as int] <= spec_sat_add(
            dist[u],
            spec_calc_costs(costs[adj[u]@[k].node_id as int], adj[u]@[k].cost),
        )
}

/// When the search has settled every reached node and the settled set is
/// relaxation-closed, the recorded distance of a node undercuts the cost of
/// every path to it.  This is the minimality half of the shortest-path
/// argument.
proof fn lemma_dist_lower_bound(
    nodes: Seq<Node>,
    costs: Seq<Costs>,
    adj: Seq<Vec<Edge>>,
    n: nat,
    dist: Seq<u64>,
    visited: Seq<bool>,
    p: Seq<usize>,
    s: usize,
    t: usize,
)
    requires
        nodes.len() == n,
        costs.len() == n,
        adj.len() == n,
        dist.len() == n,
        visited.len() == n,
        adj_ok(adj, n),
        base_costs_ok(adj, nodes),
        adj_path_ok(adj, n, p, s, t),
        dist[s as int] == 0,
        forall|v: int| 0 <= v < n && (#[trigger] dist[v]) < u64::MAX ==> visited[v],
        relax_closed(costs, adj, n, dist, visited),
    ensures
        dist[t as int] <= path_cost(nodes, costs, p),
    decreases p.len(),
{
    if p.len() == 1 {
        assert(t == s);
    } else {
        let q = p.drop_last();
        let t2 = p[p.len() - 2];
        assert(adj_path_ok(adj, n, q, s, t2)) by {
            assert(q[q.len() - 1] == t2);
            assert(forall|i: int| 0 <= i < q.len() ==> q[i] == p[i]);
        }
        lemma_dist_lower_bound(nodes, costs, adj, n, dist, visited, q, s, t2);
        let c2 = path_cost(nodes, costs, q);
        let step = crate::paths::step_cost(nodes, costs, t2 as int, t as int);
        assert(path_cost(nodes, costs, p) == crate::arith::spec_sat_add(c2, step));
        if c2 < u64::MAX {
            assert(visited[t2 as int]);
            assert(edge_exists(adj, t2 as int, t as int));
            let k = choose|k: int|
                0 <= k < adj[t2 as int]@.len() && (#[trigger] adj[t2 as int]@[k]).node_id == t;
            assert(adj[t2 as int]@[k].cost == crate::fabric_graph::spec_base_cost(
                nodes[t2 as int]@,
                nodes[t as int]@,
            ));
            assert(dist[t as int] <= crate::arith::spec_sat_add(dist[t2 as int], step));
        }
    }
}

/// Min-first relaxation from `start` over `adj`, weighting each step by the
/// congestion-aware cost of entering its destination node.
///
/// Returns the distance vector and, for every reached node, a witness path
/// realizing that distance; no path to a node costs less than its recorded
/// distance.
fn sp_search(nodes: &Vec<Node>, costs: &Vec<Costs>, adj: &Vec<Vec<Edge>>, start: usize) -> (res: (
    Vec<u64>,
    Vec<Vec<usize>>,
))
    requires
        costs@.len() == nodes@.len(),
        adj@.len() == nodes@.len(),
        adj_ok(adj@, nodes@.len()),
        base_costs_ok(adj@, nodes@),
        start < nodes@.len(),
    ensures
        res.0@.len() == nodes@.len(),
        res.1@.len() == nodes@.len(),
        res.0@[start as int] == 0,
        res.1@[start as int]@ == seq![start],
        forall|v: int|
            0 <= v < nodes@.len() && (#[trigger] res.0@[v]) < u64::MAX ==> {
                &&& adj_path_ok(adj@, nodes@.len(), res.1@[v]@, start, v as usize)
                &&& path_cost(nodes@, costs@, res.1@[v]@) == res.0@[v]
            },
        forall|v: int, p: Seq<usize>|
            #![trigger adj_path_ok(adj@, nodes@.len(), p, start, v as usize)]
            0 <= v < nodes@.len() && adj_path_ok(adj@, nodes@.len(), p, start, v as usize)
                ==> res.0@[v] <= path_cost(nodes@, costs@, p),
{
    let n = nodes.len();
    let mut dist: Vec<u64> = Vec::new();
    let mut paths: Vec<Vec<usize>> = Vec::new();
    let mut visited: Vec<bool> = Vec::new();
    let mut i: usize = 0;
    while i < n
        invariant
            i <= n,
            dist@.len() == i,
            paths@.len() == i,
            visited@.len() == i,
            forall|v: int| 0 <= v < i ==> (#[trigger] dist@[v]) == u64::MAX,
            forall|v: int| 0 <= v < i ==> !(#[trigger] visited@[v]),
        decreases n - i,
    {
        dist.push(u64::MAX);
        paths.push(Vec::new());
        visited.push(false);
        i += 1;
    }
    dist[start] = 0;
    let mut p0: Vec<usize> = Vec::new();
    p0.push(start);
    paths[start] = p0;

    let ghost inv_reached = |dist: Seq<u64>, paths: Seq<Vec<usize>>|
        forall|v: int|
            0 <= v < nodes@.len() && (#[trigger] dist[v]) < u64::MAX ==> {
                &&& adj_path_ok(adj@, nodes@.len(), paths[v]@, start, v as usize)
                &&& path_cost(nodes@, costs@, paths[v]@) == dist[v]
            };
    proof {
        assert(paths@[start as int]@ =~= seq![start]);
        assert(inv_reached(dist@, paths@));
        assert(visited@ =~= Seq::new(n as nat, |v: int| false));
        crate::validate::lemma_count_all_false(n as nat);
    }

    let mut round: usize = 0;
    loop
        invariant
            n == nodes@.len(),
            costs@.len() == n,
            adj@.len() == n,
            adj_ok(adj@, n as nat),
            base_costs_ok(adj@, nodes@),
            start < n,
            dist@.len() == n,
            paths@.len() == n,
            visited@.len() == n,
            dist@[start as int] == 0,
            paths@[start as int]@ == seq![start],
            inv_reached == (|dist: Seq<u64>, paths: Seq<Vec<usize>>|
                forall|v: int|
                    0 <= v < nodes@.len() && (#[trigger] dist[v]) < u64::MAX ==> {
                        &&& adj_path_ok(adj@, nodes@.len(), paths[v]@, start, v as usize)
                        &&& path_cost(nodes@, costs@, paths[v]@) == dist[v]
                    }),
            inv_reached(dist@, paths@),
            round == crate::validate::count_trues(visited@),
            round <= n,
            // settled distances never exceed unsettled ones
            forall|a: int, b: int|
                0 <= a < n && 0 <= b < n && visited@[a] && !visited@[b] ==> dist@[a] <= dist@[b],
            relax_closed(costs@, adj@, n as nat, dist@, visited@),
        ensures
            dist@.len() == n,
            paths@.len() == n,
            visited@.len() == n,
            dist@[start as int] == 0,
            paths@[start as int]@ == seq![start],
            inv_reached(dist@, paths@),
            forall|v: int| 0 <= v < n && (#[trigger] dist@[v]) < u64::MAX ==> visited@[v],
            relax_closed(costs@, adj@, n as nat, dist@, visited@),
        decreases n - round,
    {
        // pick the unvisited node with the smallest finite distance
        let mut best: usize = 0;
        let mut best_d: u64 = u64::MAX;
        let mut found = false;
        let mut v: usize = 0;
        while v < n
            invariant
                n == dist@.len(),
                n == visited@.len(),
                v <= n,
                found ==> best < n && !visited@[best as int] && dist@[best as int] == best_d,
                found ==> best_d < u64::MAX,
                !found ==> best_d == u64::MAX,
                !found ==> forall|j: int| 0 <= j < v ==> visited@[j] || dist@[j] == u64::MAX,
                found ==> forall|j: int|
                    0 <= j < v && !visited@[j] ==> best_d <= (#[trigger] dist@[j]),
            decreases n - v,
        {
            if !visited[v] && dist[v] < best_d {
                found = true;
                best = v;
                best_d = dist[v];
            }
            v += 1;
        }
        if !found {
            break ;
        }
        let u = best;
        let ghost prev_visited = visited@;
        visited[u] = true;
        proof {
            crate::validate::lemma_count_trues_update(prev_visited, u as int);
            crate::validate::lemma_count_trues_bound(visited@);
            // every settled distance is bounded by the fresh minimum
            assert forall|a: int| 0 <= a < n && visited@[a] implies dist@[a] <= best_d by {
                if a != u as int {
                    assert(prev_visited[a] && !prev_visited[u as int]);
                }
            }
            assert forall|a: int, b: int|
                0 <= a < n && 0 <= b < n && visited@[a] && !visited@[b] implies dist@[a]
                <= dist@[b] by {
                if a == u as int {
                    assert(!prev_visited[b]);
                } else {
                    assert(prev_visited[a] && !prev_visited[b]);
                }
            }
        }

        let edges_len = adj[u].len();
        let mut k: usize = 0;
        while k < edges_len
            invariant
                n == nodes@.len(),
                costs@.len() == n,
                adj@.len() == n,
                adj_ok(adj@, n as nat),
                base_costs_ok(adj@, nodes@),
                start < n,
                u < n,
                edges_len == adj@[u as int]@.len(),
                k <= edges_len,
                dist@.len() == n,
                paths@.len() == n,
                visited@.len() == n,
                dist@[start as int] == 0,
                paths@[start as int]@ == seq![start],
                dist@[u as int] == best_d,
                best_d < u64::MAX,
                visited@[u as int],
                forall|a: int| 0 <= a < n && visited@[a] ==> (#[trigger] dist@[a]) <= best_d,
                forall|a: int, b: int|
                    0 <= a < n && 0 <= b < n && visited@[a] && !visited@[b] ==> dist@[a]
                        <= dist@[b],
                // previously settled nodes stay relaxation-closed
                forall|u2: int, k2: int|
                    0 <= u2 < n && visited@[u2] && u2 != u as int && 0 <= k2 < adj@[u2]@.len()
                        ==> dist@[(#[trigger] adj@[u2]@[k2]).node_id as int] <= spec_sat_add(
                        dist@[u2],
                        spec_calc_costs(costs@[adj@[u2]@[k2].node_id as int], adj@[u2]@[k2].cost),
                    ),
                // the edges of the fresh node processed so far are relaxed
                forall|k2: int|
                    0 <= k2 < k ==> dist@[(#[trigger] adj@[u as int]@[k2]).node_id as int]
                        <= spec_sat_add(
                        best_d,
                        spec_calc_costs(
                            costs@[adj@[u as int]@[k2].node_id as int],
                            adj@[u as int]@[k2].cost,
                        ),
                    ),
                inv_reached == (|dist: Seq<u64>, paths: Seq<Vec<usize>>|
                    forall|v: int|
                        0 <= v < nodes@.len() && (#[trigger] dist[v]) < u64::MAX ==> {
                            &&& adj_path_ok(adj@, nodes@.len(), paths[v]@, start, v as usize)
                            &&& path_cost(nodes@, costs@, paths[v]@) == dist[v]
                        }),
                inv_reached(dist@, paths@),
            decreases edges_len - k,
        {
            let row = &adj[u];
            let e_node: usize = row[k].node_id;
            let e_cost: u64 = row[k].cost;
            assert(e_node < n);
            let w_cost = costs[e_node].calc_costs(e_cost);
            let nc = sat_add(dist[u], w_cost);
            if nc < dist[e_node] {
                proof {
                    // a settled node is never undercut: its distance already
                    // sits at or below the fresh minimum
                    assert(!visited@[e_node as int]);
                    assert(nc >= best_d);
                }
                let mut np = clone_path(&paths[u]);
                proof {
                    assert(dist@[u as int] < u64::MAX);
                    assert(adj_path_ok(adj@, n as nat, paths@[u as int]@, start, u));
                    assert(np@[np@.len() - 1] == u);
                    lemma_path_cost_push(nodes@, costs@, np@, e_node);
                    assert(edge_exists(adj@, u as int, e_node as int)) by {
                        assert(adj@[u as int]@[k as int].node_id == e_node);
                    }
                }
                np.push(e_node);
                proof {
                    let q = paths@[u as int]@.push(e_node);
                    assert(np@ =~= q);
                    assert(q[0] == start);
                    assert(q[q.len() - 1] == e_node);
                    assert forall|j: int| 0 <= j < q.len() implies (#[trigger] q[j]) < n by {
                        if j < q.len() - 1 {
                            assert(q[j] == paths@[u as int]@[j]);
                        }
                    }
                    assert forall|j: int| 0 <= j < q.len() - 1 implies edge_exists(
                        adj@,
                        #[trigger] q[j] as int,
                        q[j + 1] as int,
                    ) by {
                        if j < q.len() - 2 {
                            assert(q[j] == paths@[u as int]@[j]);
                            assert(q[j + 1] == paths@[u as int]@[j + 1]);
                        } else {
                            assert(q[j] == u);
                            assert(q[j + 1] == e_node);
                        }
                    }
                    assert(adj_path_ok(adj@, n as nat, q, start, e_node));
                }
                dist[e_node] = nc;
                paths[e_node] = np;
                proof {
                    assert(e_node != start) by {
                        // a relaxation can never undercut the start distance of zero
                        assert(nc >= 0);
                        if e_node == start {
                            assert(dist@[start as int] == nc);
                        }
                    }
                    assert(inv_reached(dist@, paths@));
                }
            }
            k += 1;
        }
        proof {
            // the fresh node is now fully relaxed as well
            assert forall|u2: int, k2: int|
                0 <= u2 < n && visited@[u2] && 0 <= k2 < adj@[u2]@.len() implies dist@[(
            #[trigger] adj@[u2]@[k2]).node_id as int] <= spec_sat_add(
                dist@[u2],
                spec_calc_costs(costs@[adj@[u2]@[k2].node_id as int], adj@[u2]@[k2].cost),
            ) by {
                if u2 == u as int {
                    assert(dist@[u2] == best_d);
                }
            }
        }
        round += 1;
    }
    proof {
        assert(dist@[start as int] < u64::MAX);
        assert forall|v: int, p: Seq<usize>|
            #![trigger adj_path_ok(adj@, nodes@.len(), p, start, v as usize)]
            0 <= v < n && adj_path_ok(adj@, n as nat, p, start, v as usize) implies dist@[v]
            <= path_cost(nodes@, costs@, p) by {
            lemma_dist_lower_bound(
                nodes@,
                costs@,
                adj@,
                n as nat,
                dist@,
                visited@,
                p,
                start,
                v as usize,
            );
        }
    }
    (dist, paths)
}

impl FabricGraph {
    /// Shortest path from `start` to `end` under the congestion-aware cost.
    ///
    /// On success the returned path starts at `start`, ends at `end`,
    /// follows forward edges, and its cost is exactly the returned value.
    /// `start == end` always succeeds with the one-node path of cost zero.
    pub fn dijkstra(&self, start: usize, end: usize) -> (r: Option<(Vec<usize>, u64)>)
        requires
            self.wf(),
            start < self.n(),
            end < self.n(),
        ensures
            match r {
                Some(pc) => {
                    &&& graph_path_ok(*self, pc.0@, start, end)
                    &&& pc.1 == graph_path_cost(*self, pc.0@)
                    &&& pc.1 < u64::MAX
                    // no path is strictly cheaper than the returned one
                    &&& forall|q: Seq<usize>|
                        #[trigger] graph_path_ok(*self, q, start, end) ==> pc.1
                            <= graph_path_cost(*self, q)
                },
                None => start != end,
            },
            // on failure every path saturates the cost range
            r is None ==> forall|q: Seq<usize>|
                #[trigger] graph_path_ok(*self, q, start, end) ==> graph_path_cost(*self, q)
                    == u64::MAX,
            // success comes exactly when some path has a finite cost
            r is Some <==> crate::paths::finitely_reachable(*self, start, end),
            start == end ==> (r matches Some(pc) && pc.0@ == seq![start] && pc.1 == 0),
    {
        let (dist, paths) = sp_search(&self.nodes, &self.costs, &self.map, start);
        if dist[end] < u64::MAX {
            let p = clone_path(&paths[end]);
            proof {
                assert(crate::paths::finitely_reachable(*self, start, end)) by {
                    assert(adj_path_ok(self.map@, self.n(), p@, start, end) && path_cost(
                        self.nodes@,
                        self.costs@,
                        p@,
                    ) < u64::MAX);
                }
            }
            Some((p, dist[end]))
        } else {
            proof {
                if crate::paths::finitely_reachable(*self, start, end) {
                    let q = choose|q: Seq<usize>|
                        adj_path_ok(self.map@, self.n(), q, start, end) && path_cost(
                            self.nodes@,
                            self.costs@,
                            q,
                        ) < u64::MAX;
                    assert(dist@[end as int] <= path_cost(self.nodes@, self.costs@, q));
                }
            }
            None
        }
    }

    /// Distances from every node to `start`, computed by relaxation over the
    /// reversed map.  Entry `start` is zero; every finite entry is realized
    /// by a reversed-map path from `start` to that node, and no reversed-map
    /// path costs less than its node's entry.
    pub fn dijkstra_all(&self, start: usize) -> (r: Vec<u64>)
        requires
            self.wf(),
            start < self.n(),
        ensures
            r@.len() == self.n(),
            r@[start as int] == 0,
            forall|v: int|
                0 <= v < self.n() && (#[trigger] r@[v]) < u64::MAX ==> exists|q: Seq<usize>|
                    adj_path_ok(self.map_reversed@, self.n(), q, start, v as usize) && path_cost(
                        self.nodes@,
                        self.costs@,
                        q,
                    ) == r@[v],
            forall|v: int, q: Seq<usize>|
                #![trigger adj_path_ok(self.map_reversed@, self.n(), q, start, v as usize)]
                0 <= v < self.n() && adj_path_ok(self.map_reversed@, self.n(), q, start, v as usize)
                    ==> r@[v] <= path_cost(self.nodes@, self.costs@, q),
    {
        proof {
            self.lemma_rev_base_costs();
        }
        let (dist, paths) = sp_search(&self.nodes, &self.costs, &self.map_reversed, start);
        proof {
            assert forall|v: int|
                0 <= v < self.n() && (#[trigger] dist@[v]) < u64::MAX implies exists|q: Seq<usize>|
                adj_path_ok(self.map_reversed@, self.n(), q, start, v as usize) && path_cost(
                    self.nodes@,
                    self.costs@,
                    q,
                ) == dist@[v] by {
                let q = paths@[v]@;
                assert(adj_path_ok(self.map_reversed@, self.n(), q, start, v as usize));
            }
        }
        dist
    }

    /// The reversed map inherits the base-cost formula from the forward map,
    /// because the Manhattan distance is symmetric.
    pub proof fn lemma_rev_base_costs(self)
        requires
            self.wf(),
        ensures
            base_costs_ok(self.map_reversed@, self.nodes@),
    {
        assert forall|u: int, k: int|
            0 <= u < self.map_reversed@.len() && 0 <= k < self.map_reversed@[u]@.len() implies (
        #[trigger] self.map_reversed@[u]@[k]).cost == crate::fabric_graph::spec_base_cost(
            self.nodes@[u]@,
            self.nodes@[self.map_reversed@[u]@[k].node_id as int]@,
        ) by {
            let e = self.map_reversed@[u]@[k];
            assert(self.nodes@.len() <= usize::MAX) by {
                assert(self.nodes.len() == self.nodes@.len());
            }
            assert((u as usize) as int == u);
            assert(crate::fabric_graph::has_edge(self.map@, e.node_id as int, u as usize, e.cost));
            let j = choose|j: int|
                0 <= j < self.map@[e.node_id as int]@.len() && (#[trigger] self.map@[e.node_id as int]@[j]).node_id
                    == u as usize && self.map@[e.node_id as int]@[j].cost == e.cost;
            assert(self.map@[e.node_id as int]@[j].cost == crate::fabric_graph::spec_base_cost(
                self.nodes@[e.node_id as int]@,
                self.nodes@[u]@,
            ));
        }
    }
}

} // verus!
