//! The three route-solution strategies: per-sink shortest paths, the
//! two-level Steiner heuristic, and the pre-planned Steiner walker.

use vstd::prelude::*;

use crate::fabric_graph::FabricGraph;
use crate::fabric_graph::Routing;
use crate::fabric_graph::RoutingResult;
use crate::paths::adj_path_ok;
use crate::paths::finitely_reachable;
use crate::paths::path_cost;
use crate::plan::in_some_path;
use crate::plan::lemma_in_some_path_push;
use crate::plan::net_in_range;
use crate::plan::nodup;
use crate::plan::result_wf;
use crate::plan::routing_solved;
use crate::plan::steiner_wf;

verus! {

/// Why a solver could not route a net.
#[derive(Clone, Debug, PartialEq, Eq, Structural)]
pub enum SolveError {
    /// No path exists from the signal to the named sink.
    UnreachableSink { signal: usize, sink: usize },
    /// The pre-planned solver was invoked on a net without a pre-plan.
    MissingPrePlan,
}

/// Per-sink independent shortest paths, unioned into one tree.
#[derive(Clone, Copy, Debug, PartialEq, Eq, Structural)]
pub struct SimpleSolver;

/// Two-level Steiner heuristic: pick the best trunk sink, then graft every
/// other sink at its cheapest join point.
#[derive(Clone, Copy, Debug, PartialEq, Eq, Structural)]
pub struct SteinerSolver;

/// Walks a pre-planned anchor skeleton, stitching each segment with a fresh
/// shortest path.
#[derive(Clone, Copy, Debug, PartialEq, Eq, Structural)]
pub struct SimpleSteinerSolver;

/// The closed set of solvers.
#[derive(Clone, Copy, Debug, PartialEq, Eq, Structural)]
pub enum Solver {
    Simple(SimpleSolver),
    Steiner(SteinerSolver),
    SimpleSteiner(SimpleSteinerSolver),
}

/// Linear membership test on a node list.
pub fn contains_node(v: &Vec<usize>, x: usize) -> (r: bool)
    ensures
        r == v@.contains(x),
{
    let mut i: usize = 0;
    while i < v.len()
        invariant
            i <= v@.len(),
            forall|j: int| 0 <= j < i ==> v@[j] != x,
        decreases v@.len() - i,
    {
        if v[i] == x {
            return true;
        }
        i += 1;
    }
    false
}

/// Appending one element keeps membership and adds the new one.
proof fn lemma_contains_push(s: Seq<usize>, e: usize, x: usize)
    ensures
        s.push(e).contains(x) == (s.contains(x) || x == e),
{
    if s.contains(x) {
        let k = choose|k: int| 0 <= k < s.len() && s[k] == x;
        assert(s.push(e)[k] == x);
    }
    if x == e {
        assert(s.push(e)[s.len() as int] == x);
    }
    if s.push(e).contains(x) {
        let k = choose|k: int| 0 <= k < s.push(e).len() && s.push(e)[k] == x;
        if k < s.len() {
            assert(s[k] == x);
        }
    }
}

/// Add every node of `path` that is not yet present.
pub fn push_unique_all(nodes: &mut Vec<usize>, path: &Vec<usize>)
    requires
        nodup(old(nodes)@),
    ensures
        nodup(final(nodes)@),
        forall|x: usize| old(nodes)@.contains(x) ==> final(nodes)@.contains(x),
        forall|j: int| 0 <= j < path@.len() ==> final(nodes)@.contains(#[trigger] path@[j]),
        forall|x: usize| final(nodes)@.contains(x) ==> old(nodes)@.contains(x) || path@.contains(x),
{
    let mut i: usize = 0;
    while i < path.len()
        invariant
            i <= path@.len(),
            nodup(nodes@),
            forall|x: usize| old(nodes)@.contains(x) ==> nodes@.contains(x),
            forall|j: int| 0 <= j < i ==> nodes@.contains(#[trigger] path@[j]),
            forall|x: usize| nodes@.contains(x) ==> old(nodes)@.contains(x) || path@.contains(x),
        decreases path@.len() - i,
    {
        let x = path[i];
        if !contains_node(nodes, x) {
            let ghost before = nodes@;
            nodes.push(x);
            proof {
                assert(forall|y: usize|
                    nodes@.contains(y) == (before.contains(y) || y == x)) by {
                    assert forall|y: usize|
                        nodes@.contains(y) == (before.contains(y) || y == x) by {
                        lemma_contains_push(before, x, y);
                    }
                }
                assert(path@.contains(x)) by {
                    assert(path@[i as int] == x);
                }
                assert(nodup(nodes@)) by {
                    assert forall|a: int, b: int|
                        0 <= a < b < nodes@.len() implies nodes@[a] != nodes@[b] by {
                        if b == nodes@.len() - 1 {
                            assert(!before.contains(x));
                            assert(before[a] == nodes@[a]);
                        }
                    }
                }
            }
        } else {
            proof {
                assert(path@.contains(x)) by {
                    assert(path@[i as int] == x);
                }
            }
        }
        i += 1;
    }
}

/// Record one more sink path in a result under construction: the path is
/// appended and its nodes are merged, keeping `nodes` the duplicate-free
/// union of all recorded paths.
fn add_net_path(
    paths: &mut Vec<(usize, Vec<usize>)>,
    nodes: &mut Vec<usize>,
    sink: usize,
    path: Vec<usize>,
)
    requires
        nodup(old(nodes)@),
        forall|k: int|
            0 <= k < old(nodes)@.len() ==> in_some_path(old(paths)@, #[trigger] old(nodes)@[k]),
        forall|j: int, k: int|
            0 <= j < old(paths)@.len() && 0 <= k < old(paths)@[j].1@.len() ==> old(
                nodes,
            )@.contains(#[trigger] old(paths)@[j].1@[k]),
    ensures
        final(paths)@ == old(paths)@.push((sink, path)),
        nodup(final(nodes)@),
        forall|k: int|
            0 <= k < final(nodes)@.len()
                ==> in_some_path(final(paths)@, #[trigger] final(nodes)@[k]),
        forall|j: int, k: int|
            0 <= j < final(paths)@.len() && 0 <= k < final(paths)@[j].1@.len()
                ==> final(nodes)@.contains(#[trigger] final(paths)@[j].1@[k]),
{
    let ghost old_nodes = nodes@;
    let ghost old_paths = paths@;
    push_unique_all(nodes, &path);
    paths.push((sink, path));
    proof {
        let li = old_paths.len() as int;
        assert forall|k: int| 0 <= k < nodes@.len() implies in_some_path(
            paths@,
            #[trigger] nodes@[k],
        ) by {
            let x = nodes@[k];
            assert(old_nodes.contains(x) || paths@[li].1@.contains(x));
            lemma_in_some_path_push(old_paths, paths@[li], x);
            assert(paths@ =~= old_paths.push(paths@[li]));
        }
        assert forall|j: int, k: int|
            0 <= j < paths@.len() && 0 <= k < paths@[j].1@.len() implies nodes@.contains(
            #[trigger] paths@[j].1@[k],
        ) by {
            if j < li {
                assert(paths@[j] == old_paths[j]);
                assert(old_nodes.contains(old_paths[j].1@[k]));
            }
        }
    }
}

/// Concatenate two paths that share their seam node, keeping it once.
fn stitch_paths(p1: Vec<usize>, p2: &Vec<usize>) -> (r: Vec<usize>)
    requires
        p2@.len() >= 1,
    ensures
        r@ == p1@ + p2@.subrange(1, p2@.len() as int),
{
    let mut r = p1;
    proof {
        assert(r@ =~= p1@ + p2@.subrange(1, 1));
    }
    let mut j: usize = 1;
    while j < p2.len()
        invariant
            1 <= j <= p2@.len(),
            r@ == p1@ + p2@.subrange(1, j as int),
        decreases p2@.len() - j,
    {
        r.push(p2[j]);
        proof {
            assert(r@ =~= p1@ + p2@.subrange(1, j + 1));
        }
        j += 1;
    }
    proof {
        assert(r@ =~= p1@ + p2@.subrange(1, p2@.len() as int));
    }
    r
}

impl SimpleSolver {
    /// Route each sink independently by a shortest path from the signal and
    /// union the paths.  Fails with the first sink that has no path.
    pub fn solve(&self, graph: &FabricGraph, routing: &mut Routing) -> (r: Result<(), SolveError>)
        requires
            graph.wf(),
            net_in_range(graph.n(), *old(routing)),
        ensures
            final(routing).signal == old(routing).signal,
            final(routing).sinks == old(routing).sinks,
            final(routing).steiner_tree == old(routing).steiner_tree,
            r is Ok ==> routing_solved(graph.map@, graph.n(), *final(routing)),
            r is Err ==> *final(routing) == *old(routing),
            // a failure names a genuinely unreachable sink of the net
            r matches Err(e) ==> (e matches SolveError::UnreachableSink { signal, sink }
                && signal == old(routing).signal && old(routing).sinks@.contains(sink)
                && !finitely_reachable(*graph, signal, sink)),
            // success is owed when every sink is reachable
            (forall|j: int|
                0 <= j < old(routing).sinks@.len() ==> finitely_reachable(
                    *graph,
                    old(routing).signal,
                    #[trigger] old(routing).sinks@[j],
                )) ==> r is Ok,
            // each returned path is a cheapest signal-to-sink path
            r is Ok ==> forall|j: int, q: Seq<usize>|
                #![trigger adj_path_ok(graph.map@, graph.n(), q, old(routing).signal, old(routing).sinks@[j])]
                0 <= j < old(routing).sinks@.len() && adj_path_ok(
                    graph.map@,
                    graph.n(),
                    q,
                    old(routing).signal,
                    old(routing).sinks@[j],
                ) ==> path_cost(
                    graph.nodes@,
                    graph.costs@,
                    final(routing).result->Some_0.paths@[j].1@,
                ) <= path_cost(graph.nodes@, graph.costs@, q),
    {
        let signal = routing.signal;
        let n_sinks = routing.sinks.len();
        let mut paths: Vec<(usize, Vec<usize>)> = Vec::new();
        let mut nodes: Vec<usize> = Vec::new();
        let mut i: usize = 0;
        while i < n_sinks
            invariant
                graph.wf(),
                net_in_range(graph.n(), *routing),
                routing == old(routing),
                signal == routing.signal,
                n_sinks == routing.sinks@.len(),
                i <= n_sinks,
                paths@.len() == i,
                forall|j: int| 0 <= j < i ==> (#[trigger] paths@[j]).0 == routing.sinks@[j],
                forall|j: int|
                    0 <= j < i ==> crate::paths::adj_path_ok(
                        graph.map@,
                        graph.n(),
                        (#[trigger] paths@[j]).1@,
                        signal,
                        routing.sinks@[j],
                    ),
                nodup(nodes@),
                // nodes is exactly the union of the paths collected so far
                forall|j: int, k: int|
                    0 <= j < i && 0 <= k < paths@[j].1@.len() ==> nodes@.contains(
                        #[trigger] paths@[j].1@[k],
                    ),
                forall|k: int|
                    0 <= k < nodes@.len() ==> in_some_path(paths@, #[trigger] nodes@[k]),
                forall|j: int, q: Seq<usize>|
                    #![trigger adj_path_ok(graph.map@, graph.n(), q, signal, routing.sinks@[j])]
                    0 <= j < i && adj_path_ok(graph.map@, graph.n(), q, signal, routing.sinks@[j])
                        ==> path_cost(graph.nodes@, graph.costs@, paths@[j].1@) <= path_cost(
                        graph.nodes@,
                        graph.costs@,
                        q,
                    ),
            decreases n_sinks - i,
        {
            let sink = routing.sinks[i];
            match graph.dijkstra(signal, sink) {
                Some((path, cost)) => {
                    proof {
                        assert forall|q: Seq<usize>|
                            adj_path_ok(graph.map@, graph.n(), q, signal, sink) implies path_cost(
                            graph.nodes@,
                            graph.costs@,
                            path@,
                        ) <= path_cost(graph.nodes@, graph.costs@, q) by {
                            assert(crate::paths::graph_path_ok(*graph, q, signal, sink));
                            assert(cost <= crate::paths::graph_path_cost(*graph, q));
                        }
                    }
                    add_net_path(&mut paths, &mut nodes, sink, path);
                }
                None => {
                    proof {
                        assert(routing.sinks@[i as int] == sink);
                        assert(!finitely_reachable(*graph, signal, sink));
                    }
                    return Err(SolveError::UnreachableSink { signal, sink });
                }
            }
            i += 1;
        }
        let rr = RoutingResult { paths, nodes };
        proof {
            assert(result_wf(graph.map@, graph.n(), signal, routing.sinks@, rr));
        }
        routing.result = Some(rr);
        Ok(())
    }

    /// Human-readable name of this solver.
    pub fn identifier(&self) -> &'static str {
        "Simple Solver"
    }
}

impl SteinerSolver {
    /// Two-level Steiner heuristic.  Every sink is treated in turn as the
    /// trunk: other sinks join the trunk path at their cheapest join point,
    /// the candidate of least total cost wins, and the winner's tree is
    /// materialized by stitching shortest paths through the join points.
    pub fn solve(&self, graph: &FabricGraph, routing: &mut Routing) -> (r: Result<(), SolveError>)
        requires
            graph.wf(),
            net_in_range(graph.n(), *old(routing)),
            old(routing).sinks@.len() >= 1,
        ensures
            final(routing).signal == old(routing).signal,
            final(routing).sinks == old(routing).sinks,
            final(routing).steiner_tree == old(routing).steiner_tree,
            r is Ok ==> routing_solved(graph.map@, graph.n(), *final(routing)),
            // a failing net keeps its prior result, except that a net with
            // no reachable trunk at all has its result wiped
            r is Err ==> (final(routing).result is None || final(routing).result == old(
                routing,
            ).result),
            // a failure names a genuinely unreachable leg of the attempt
            r matches Err(e) ==> (e matches SolveError::UnreachableSink { signal, sink }
                && signal < graph.n() && sink < graph.n() && !finitely_reachable(
                *graph,
                signal,
                sink,
            )),
            // with every trunk candidate unreachable the solve fails and the
            // net's result is cleared
            (forall|j: int|
                0 <= j < old(routing).sinks@.len() ==> !finitely_reachable(
                    *graph,
                    old(routing).signal,
                    #[trigger] old(routing).sinks@[j],
                )) ==> (r is Err && final(routing).result is None),
    {
        let ghost map = graph.map@;
        let ghost gn = graph.n();
        let signal = routing.signal;
        let n_sinks = routing.sinks.len();
        let n = graph.nodes.len();

        // distances from every node to each sink, over the reversed map
        let mut dists: Vec<Vec<u64>> = Vec::new();
        let mut i: usize = 0;
        while i < n_sinks
            invariant
                graph.wf(),
                net_in_range(graph.n(), *routing),
                routing == old(routing),
                n == graph.nodes@.len(),
                n_sinks == routing.sinks@.len(),
                i <= n_sinks,
                dists@.len() == i,
                forall|j: int| 0 <= j < i ==> (#[trigger] dists@[j])@.len() == n,
            decreases n_sinks - i,
        {
            dists.push(graph.dijkstra_all(routing.sinks[i]));
            i += 1;
        }

        // pick the cheapest trunk candidate
        let mut have_best = false;
        let mut best_cost: u64 = 0;
        let mut best_mids: Vec<usize> = Vec::new();
        let mut have_fail = false;
        let mut fail_sink: usize = 0;
        let mut t: usize = 0;
        while t < n_sinks
            invariant
                graph.wf(),
                net_in_range(graph.n(), *routing),
                routing == old(routing),
                signal == routing.signal,
                n == graph.nodes@.len(),
                n_sinks == routing.sinks@.len(),
                dists@.len() == n_sinks,
                forall|j: int| 0 <= j < n_sinks ==> (#[trigger] dists@[j])@.len() == n,
                t <= n_sinks,
                have_best ==> best_mids@.len() == n_sinks,
                have_best ==> forall|j: int| 0 <= j < n_sinks ==> (#[trigger] best_mids@[j]) < n,
                t > 0 ==> have_best || have_fail,
                have_fail ==> routing.sinks@.contains(fail_sink) && fail_sink < n
                    && !finitely_reachable(*graph, signal, fail_sink),
                have_best ==> exists|j: int|
                    0 <= j < n_sinks && finitely_reachable(
                        *graph,
                        signal,
                        #[trigger] routing.sinks@[j],
                    ),
            decreases n_sinks - t,
        {
            let base_sink = routing.sinks[t];
            match graph.dijkstra(signal, base_sink) {
                None => {
                    if !have_fail {
                        have_fail = true;
                        fail_sink = base_sink;
                        proof {
                            assert(routing.sinks@[t as int] == base_sink);
                        }
                    }
                }
                Some((base_path, base_cost)) => {
                    let mut cand_cost = base_cost;
                    let mut mids: Vec<usize> = Vec::new();
                    let mut si: usize = 0;
                    while si < n_sinks
                        invariant
                            graph.wf(),
                            n == graph.nodes@.len(),
                            n_sinks == routing.sinks@.len(),
                            dists@.len() == n_sinks,
                            forall|j: int| 0 <= j < n_sinks ==> (#[trigger] dists@[j])@.len() == n,
                            si <= n_sinks,
                            mids@.len() == si,
                            forall|j: int| 0 <= j < si ==> (#[trigger] mids@[j]) < n,
                            base_path@.len() >= 1,
                            forall|j: int|
                                0 <= j < base_path@.len() ==> (#[trigger] base_path@[j]) < n,
                        decreases n_sinks - si,
                    {
                        let drow = &dists[si];
                        let mut mn = base_path[0];
                        let mut md = drow[mn];
                        let mut b: usize = 1;
                        while b < base_path.len()
                            invariant
                                n == graph.nodes@.len(),
                                drow@.len() == n,
                                base_path@.len() >= 1,
                                forall|j: int|
                                    0 <= j < base_path@.len() ==> (#[trigger] base_path@[j]) < n,
                                1 <= b <= base_path@.len(),
                                mn < n,
                            decreases base_path@.len() - b,
                        {
                            let nd = base_path[b];
                            let d = drow[nd];
                            if d < md {
                                mn = nd;
                                md = d;
                            }
                            b += 1;
                        }
                        cand_cost = crate::arith::sat_add(cand_cost, md);
                        mids.push(mn);
                        si += 1;
                    }
                    if !have_best || cand_cost < best_cost {
                        have_best = true;
                        best_cost = cand_cost;
                        best_mids = mids;
                    }
                    proof {
                        assert(routing.sinks@[t as int] == base_sink);
                        assert(finitely_reachable(*graph, signal, base_sink));
                    }
                }
            }
            t += 1;
        }
        if !have_best {
            // no trunk candidate was reachable: drop any stale result
            routing.result = None;
            return Err(SolveError::UnreachableSink { signal, sink: fail_sink });
        }

        // materialize the winning tree
        let mut paths: Vec<(usize, Vec<usize>)> = Vec::new();
        let mut nodes: Vec<usize> = Vec::new();
        let mut i: usize = 0;
        while i < n_sinks
            invariant
                graph.wf(),
                map == graph.map@,
                gn == graph.n(),
                net_in_range(graph.n(), *routing),
                routing == old(routing),
                signal == routing.signal,
                n == graph.nodes@.len(),
                n_sinks == routing.sinks@.len(),
                best_mids@.len() == n_sinks,
                forall|j: int| 0 <= j < n_sinks ==> (#[trigger] best_mids@[j]) < n,
                exists|j: int|
                    0 <= j < n_sinks && finitely_reachable(
                        *graph,
                        signal,
                        #[trigger] routing.sinks@[j],
                    ),
                i <= n_sinks,
                paths@.len() == i,
                forall|j: int| 0 <= j < i ==> (#[trigger] paths@[j]).0 == routing.sinks@[j],
                forall|j: int|
                    0 <= j < i ==> crate::paths::adj_path_ok(
                        map,
                        gn,
                        (#[trigger] paths@[j]).1@,
                        signal,
                        routing.sinks@[j],
                    ),
                nodup(nodes@),
                forall|j: int, k: int|
                    0 <= j < i && 0 <= k < paths@[j].1@.len() ==> nodes@.contains(
                        #[trigger] paths@[j].1@[k],
                    ),
                forall|k: int|
                    0 <= k < nodes@.len() ==> in_some_path(paths@, #[trigger] nodes@[k]),
            decreases n_sinks - i,
        {
            let sink = routing.sinks[i];
            let mid = best_mids[i];
            let p1 = match graph.dijkstra(signal, mid) {
                Some(pc) => pc.0,
                None => {
                    return Err(SolveError::UnreachableSink { signal, sink: mid });
                }
            };
            let p2 = match graph.dijkstra(mid, sink) {
                Some(pc) => pc.0,
                None => {
                    proof {
                        assert(routing.sinks@[i as int] == sink);
                    }
                    return Err(SolveError::UnreachableSink { signal: mid, sink });
                }
            };
            proof {
                crate::paths::lemma_path_ok_concat(map, gn, p1@, p2@, signal, mid, sink);
            }
            let stitched = stitch_paths(p1, &p2);
            add_net_path(&mut paths, &mut nodes, sink, stitched);
            i += 1;
        }
        let rr = RoutingResult { paths, nodes };
        proof {
            assert(result_wf(map, gn, signal, routing.sinks@, rr));
        }
        routing.result = Some(rr);
        Ok(())
    }

    /// Human-readable name of this solver.
    pub fn identifier(&self) -> &'static str {
        "Steiner Solver"
    }
}

impl SimpleSteinerSolver {
    /// Walk the pre-planned anchor skeleton of each sink, stitching every
    /// consecutive anchor pair with a fresh shortest path, so the pip-level
    /// route adapts to current congestion while the geometry stays fixed.
    /// Fails when pre-planning has not run.
    #[verifier::rlimit(100)]
    pub fn solve(&self, graph: &FabricGraph, routing: &mut Routing) -> (r: Result<(), SolveError>)
        requires
            graph.wf(),
            net_in_range(graph.n(), *old(routing)),
            old(routing).steiner_tree matches Some(st) ==> steiner_wf(
                graph.n(),
                old(routing).signal,
                old(routing).sinks@,
                st,
            ),
        ensures
            final(routing).signal == old(routing).signal,
            final(routing).sinks == old(routing).sinks,
            final(routing).steiner_tree == old(routing).steiner_tree,
            r is Ok ==> routing_solved(graph.map@, graph.n(), *final(routing)),
            r is Err ==> *final(routing) == *old(routing),
            (r matches Err(SolveError::MissingPrePlan)) <==> old(routing).steiner_tree is None,
            // a stitch failure names a consecutive anchor pair of the
            // skeleton whose leg is genuinely unreachable
            r matches Err(SolveError::UnreachableSink { signal: a, sink: b }) ==> {
                &&& old(routing).steiner_tree is Some
                &&& crate::plan::consecutive_anchors(old(routing).steiner_tree->Some_0, a, b)
                &&& a < graph.n() && b < graph.n()
                &&& !finitely_reachable(*graph, a, b)
            },
            // with a pre-plan whose every anchor leg is reachable, success is owed
            (old(routing).steiner_tree matches Some(st) && (forall|a: usize, b: usize|
                #[trigger] crate::plan::consecutive_anchors(st, a, b) ==> finitely_reachable(
                    *graph,
                    a,
                    b,
                ))) ==> r is Ok,
    {
        let ghost map = graph.map@;
        let ghost gn = graph.n();
        let signal = routing.signal;
        let n = graph.nodes.len();
        let mut paths: Vec<(usize, Vec<usize>)> = Vec::new();
        let mut nodes: Vec<usize> = Vec::new();
        match &routing.steiner_tree {
            None => {
                return Err(SolveError::MissingPrePlan);
            }
            Some(st) => {
                let n_sinks = st.steiner_nodes.len();
                proof {
                    assert(n_sinks == routing.sinks@.len());
                }
                let mut i: usize = 0;
                while i < n_sinks
                    invariant
                        graph.wf(),
                        map == graph.map@,
                        gn == graph.n(),
                        net_in_range(graph.n(), *routing),
                        routing == old(routing),
                        signal == routing.signal,
                        routing.steiner_tree is Some,
                        *st == routing.steiner_tree->Some_0,
                        steiner_wf(gn, signal, routing.sinks@, *st),
                        n == graph.nodes@.len(),
                        n_sinks == routing.sinks@.len(),
                        n_sinks == st.steiner_nodes@.len(),
                        i <= n_sinks,
                        paths@.len() == i,
                        forall|j: int| 0 <= j < i ==> (#[trigger] paths@[j]).0 == routing.sinks@[j],
                        forall|j: int|
                            0 <= j < i ==> crate::paths::adj_path_ok(
                                map,
                                gn,
                                (#[trigger] paths@[j]).1@,
                                signal,
                                routing.sinks@[j],
                            ),
                        nodup(nodes@),
                        forall|j: int, k: int|
                            0 <= j < i && 0 <= k < paths@[j].1@.len() ==> nodes@.contains(
                                #[trigger] paths@[j].1@[k],
                            ),
                        forall|k: int|
                            0 <= k < nodes@.len() ==> in_some_path(paths@, #[trigger] nodes@[k]),
                    decreases n_sinks - i,
                {
                    let sink = st.steiner_nodes[i].0;
                    let route = &st.steiner_nodes[i].1;
                    let ghost skel = route@;
                    proof {
                        assert(skel.len() >= 1);
                        assert(skel[0] == signal);
                        assert(skel[skel.len() - 1] == sink);
                    }
                    let mut path: Vec<usize> = Vec::new();
                    let mut j: usize = 0;
                    while j < route.len() - 1
                        invariant
                            graph.wf(),
                            map == graph.map@,
                            gn == graph.n(),
                            n == graph.nodes@.len(),
                            routing == old(routing),
                            routing.steiner_tree is Some,
                            *st == routing.steiner_tree->Some_0,
                            i < n_sinks,
                            n_sinks == st.steiner_nodes@.len(),
                            skel == st.steiner_nodes@[i as int].1@,
                            skel == route@,
                            skel.len() >= 1,
                            skel[0] == signal,
                            forall|q: int| 0 <= q < skel.len() ==> (#[trigger] skel[q]) < n,
                            signal < n,
                            j <= skel.len() - 1,
                            crate::paths::adj_path_ok(
                                map,
                                gn,
                                path@.push(route@[j as int]),
                                signal,
                                route@[j as int],
                            ),
                        decreases skel.len() - 1 - j,
                    {
                        let a = route[j];
                        let b = route[j + 1];
                        let seg = match graph.dijkstra(a, b) {
                            Some(pc) => pc.0,
                            None => {
                                proof {
                                    assert(crate::plan::consecutive_anchors(
                                        routing.steiner_tree->Some_0,
                                        a,
                                        b,
                                    )) by {
                                        assert((#[trigger] st.steiner_nodes@[i as int]).1@[j as int]
                                            == a);
                                        assert(st.steiner_nodes@[i as int].1@[j + 1] == b);
                                    }
                                    assert(!finitely_reachable(*graph, a, b));
                                }
                                return Err(SolveError::UnreachableSink { signal: a, sink: b });
                            }
                        };
                        let ghost path_before = path@;
                        // append the segment, holding back its final node
                        let mut q: usize = 0;
                        while q < seg.len() - 1
                            invariant
                                seg@.len() >= 1,
                                q <= seg@.len() - 1,
                                path@ == path_before + seg@.subrange(0, q as int),
                            decreases seg@.len() - 1 - q,
                        {
                            path.push(seg[q]);
                            proof {
                                assert(path@ =~= path_before + seg@.subrange(0, q + 1));
                            }
                            q += 1;
                        }
                        proof {
                            assert(path@ =~= path_before + seg@.drop_last()) by {
                                assert(seg@.subrange(0, seg@.len() - 1) =~= seg@.drop_last());
                            }
                            crate::paths::lemma_stitch_step(
                                map,
                                gn,
                                path_before,
                                seg@,
                                signal,
                                route@[j as int],
                                route@[j + 1],
                            );
                            assert(path@.push(route@[j + 1]) =~= (path_before
                                + seg@.drop_last()).push(route@[j + 1]));
                        }
                        j += 1;
                    }
                    let ghost path_done = path@;
                    path.push(sink);
                    proof {
                        assert(route@[j as int] == sink);
                        assert(path@ =~= path_done.push(route@[j as int]));
                        assert(crate::paths::adj_path_ok(map, gn, path@, signal, sink));
                        assert(routing.sinks@[i as int] == sink);
                    }
                    add_net_path(&mut paths, &mut nodes, sink, path);
                    i += 1;
                }
            }
        }
        let rr = RoutingResult { paths, nodes };
        proof {
            assert(result_wf(map, gn, signal, routing.sinks@, rr));
        }
        routing.result = Some(rr);
        Ok(())
    }

    /// Human-readable name of this solver.
    pub fn identifier(&self) -> &'static str {
        "SimpleSteinerSolver"
    }
}

} // verus!
