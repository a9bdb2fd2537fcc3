//! Specification of paths through an adjacency structure and their
//! congestion-aware costs, with the lemmas the solvers need to stitch
//! paths together.

use vstd::prelude::*;

use crate::arith::spec_sat_add;
use crate::fabric_graph::spec_base_cost;
use crate::fabric_graph::FabricGraph;
use crate::node::spec_calc_costs;
use crate::node::Costs;
use crate::node::Edge;
use crate::node::Node;

verus! {

/// `adj` has at least one edge from `u` to `v`.
pub open spec fn edge_exists(adj: Seq<Vec<Edge>>, u: int, v: int) -> bool {
    exists|k: int| 0 <= k < adj[u]@.len() && (#[trigger] adj[u]@[k]).node_id == v
}

/// `p` is a path from `s` to `t` along edges of `adj`, all indices below `n`.
pub open spec fn adj_path_ok(adj: Seq<Vec<Edge>>, n: nat, p: Seq<usize>, s: usize, t: usize) -> bool {
    &&& p.len() >= 1
    &&& p[0] == s
    &&& p[p.len() - 1] == t
    &&& forall|i: int| 0 <= i < p.len() ==> (#[trigger] p[i]) < n
    &&& forall|i: int|
        0 <= i < p.len() - 1 ==> edge_exists(adj, #[trigger] p[i] as int, p[i + 1] as int)
}

/// Congestion-aware weight of the step `u -> v`: the cost of entering `v`
/// over an edge with the Manhattan base cost between the two nodes.
pub open spec fn step_cost(nodes: Seq<Node>, costs: Seq<Costs>, u: int, v: int) -> u64 {
    spec_calc_costs(costs[v], spec_base_cost(nodes[u]@, nodes[v]@))
}

/// Total congestion-aware cost of a path: the saturating sum of its step
/// costs.
pub open spec fn path_cost(nodes: Seq<Node>, costs: Seq<Costs>, p: Seq<usize>) -> u64
    decreases p.len(),
{
    if p.len() <= 1 {
        0
    } else {
        spec_sat_add(
            path_cost(nodes, costs, p.drop_last()),
            step_cost(nodes, costs, p[p.len() - 2] as int, p[p.len() - 1] as int),
        )
    }
}

/// `p` is a path from `s` to `t` along the forward map of `g`.
pub open spec fn graph_path_ok(g: FabricGraph, p: Seq<usize>, s: usize, t: usize) -> bool {
    adj_path_ok(g.map@, g.n(), p, s, t)
}

/// Some forward path from `s` to `t` has a cost below the saturation
/// sentinel; this is exactly when the shortest-path search succeeds.
pub open spec fn finitely_reachable(g: FabricGraph, s: usize, t: usize) -> bool {
    exists|q: Seq<usize>|
        adj_path_ok(g.map@, g.n(), q, s, t) && path_cost(g.nodes@, g.costs@, q) < u64::MAX
}

/// Cost of a path under the current congestion state of `g`.
pub open spec fn graph_path_cost(g: FabricGraph, p: Seq<usize>) -> u64 {
    path_cost(g.nodes@, g.costs@, p)
}

/// Appending one more step adds that step's cost.
pub proof fn lemma_path_cost_push(nodes: Seq<Node>, costs: Seq<Costs>, p: Seq<usize>, v: usize)
    requires
        p.len() >= 1,
    ensures
        path_cost(nodes, costs, p.push(v)) == spec_sat_add(
            path_cost(nodes, costs, p),
            step_cost(nodes, costs, p[p.len() - 1] as int, v as int),
        ),
{
    let q = p.push(v);
    assert(q.drop_last() =~= p);
}

/// Joining a path into `m` with a path out of `m` (dropping the shared
/// seam node once) yields a path.
pub proof fn lemma_path_ok_concat(
    adj: Seq<Vec<Edge>>,
    n: nat,
    p1: Seq<usize>,
    p2: Seq<usize>,
    s: usize,
    m: usize,
    t: usize,
)
    requires
        adj_path_ok(adj, n, p1, s, m),
        adj_path_ok(adj, n, p2, m, t),
    ensures
        adj_path_ok(adj, n, p1 + p2.subrange(1, p2.len() as int), s, t),
{
    let tail = p2.subrange(1, p2.len() as int);
    let q = p1 + tail;
    assert(q.len() == p1.len() + p2.len() - 1);
    assert(q[0] == s);
    if tail.len() == 0 {
        assert(q =~= p1);
    } else {
        assert(q[q.len() - 1] == tail[tail.len() - 1]);
        assert(tail[tail.len() - 1] == p2[p2.len() - 1]);
        assert forall|i: int| 0 <= i < q.len() implies (#[trigger] q[i]) < n by {
            if i < p1.len() {
                assert(q[i] == p1[i]);
            } else {
                assert(q[i] == p2[i - p1.len() + 1]);
            }
        }
        assert forall|i: int| 0 <= i < q.len() - 1 implies edge_exists(
            adj,
            #[trigger] q[i] as int,
            q[i + 1] as int,
        ) by {
            if i < p1.len() - 1 {
                assert(q[i] == p1[i]);
                assert(q[i + 1] == p1[i + 1]);
            } else if i == p1.len() - 1 {
                assert(q[i] == p1[p1.len() - 1]);
                assert(q[i + 1] == p2[1]);
                assert(p1[p1.len() - 1] == m == p2[0]);
                assert(edge_exists(adj, p2[0] as int, p2[1] as int));
            } else {
                let j = i - p1.len() + 1;
                assert(q[i] == p2[j]);
                assert(q[i + 1] == p2[j + 1]);
                assert(edge_exists(adj, p2[j] as int, p2[j + 1] as int));
            }
        }
    }
}

/// One stitching step: a partial path reaching anchor `a`, extended by a
/// segment from `a` to `b` with the segment's last node held back, reaches
/// `b`.
pub proof fn lemma_stitch_step(
    adj: Seq<Vec<Edge>>,
    n: nat,
    pb: Seq<usize>,
    seg: Seq<usize>,
    signal: usize,
    a: usize,
    b: usize,
)
    requires
        adj_path_ok(adj, n, pb.push(a), signal, a),
        adj_path_ok(adj, n, seg, a, b),
    ensures
        adj_path_ok(adj, n, (pb + seg.drop_last()).push(b), signal, b),
{
    let prev = pb.push(a);
    lemma_path_ok_concat(adj, n, prev, seg, signal, a, b);
    let lhs = (pb + seg.drop_last()).push(b);
    let rhs = prev + seg.subrange(1, seg.len() as int);
    assert(lhs.len() == rhs.len());
    assert forall|i: int| 0 <= i < lhs.len() implies lhs[i] == rhs[i] by {
        if i < pb.len() {
            assert(lhs[i] == pb[i]);
            assert(rhs[i] == prev[i]);
        } else if i == pb.len() {
            assert(rhs[i] == a);
            if seg.len() >= 2 {
                assert(lhs[i] == seg.drop_last()[0]);
                assert(seg[0] == a);
            } else {
                assert(lhs[i] == b);
                assert(seg[0] == a && seg[seg.len() - 1] == b);
            }
        } else if i < lhs.len() - 1 {
            assert(lhs[i] == seg.drop_last()[i - pb.len()]);
            assert(rhs[i] == seg.subrange(1, seg.len() as int)[i - prev.len()]);
            assert(seg.drop_last()[i - pb.len()] == seg[i - pb.len()]);
            assert(seg.subrange(1, seg.len() as int)[i - prev.len()] == seg[i - pb.len()]);
        } else {
            assert(lhs[i] == b);
            assert(rhs[i] == seg.subrange(1, seg.len() as int)[seg.len() - 2]);
            assert(seg[seg.len() - 1] == b);
        }
    }
    assert(lhs =~= rhs);
}

} // verus!
