//! The iterative congestion-negotiation driver and its surroundings: run
//! configuration, per-iteration metrics, the logging capability, and the
//! pre-planner for the pre-planned Steiner solver.

use vstd::prelude::*;

use crate::arith::sat_add;
use crate::arith::sat_mul;
use crate::arith::spec_sat_add;
use crate::arith::spec_sat_mul;
use crate::fabric_graph::spec_base_cost;
use crate::fabric_graph::FabricGraph;
use crate::fabric_graph::Routing;
use crate::fabric_graph::SteinerTree;
use crate::node::Node;
use crate::plan::count_users_upto;
use crate::plan::in_prefix;
use crate::plan::lemma_count_users_upto_agree;
use crate::plan::lemma_count_users_upto_bound;
use crate::plan::lemma_count_users_upto_full;
use crate::plan::lemma_counts_give_exclusivity;
use crate::plan::lemma_result_nodes_in_range;
use crate::plan::net_in_range;
use crate::plan::nodup;
use crate::plan::plan_exclusive;
use crate::plan::plan_in_range;
use crate::plan::plan_solved;
use crate::plan::plan_steiner_wf;
use crate::plan::same_cost_frame;
use crate::plan::spec_conflict_count;
use crate::plan::same_structure;
use crate::plan::steiner_wf;
use crate::plan::uses_node;
use crate::solver::contains_node;
use crate::solver::SolveError;
use crate::solver::Solver;
use crate::validate::ValidationError;

verus! {

/// Parameters of one routing run.
///
/// `hist_factor` is in milli-units: 100 stands for a historic-cost factor of
/// one tenth per unit of overuse.
#[derive(Clone, Copy, Debug, PartialEq, Eq, Structural)]
pub struct Config {
    /// Caller-assigned identifier of the run
    pub id: u64,
    /// Historic-cost factor for congestion handling, in milli-units
    pub hist_factor: u64,
    /// The solver to use
    pub solver: Solver,
    /// Iteration cap before the run is declared unresolved
    pub max_iterations: usize,
}

impl Config {
    /// Assemble a configuration.
    pub fn new(id: u64, hist_factor: u64, solver: Solver, max_iterations: usize) -> (r: Config)
        ensures
            r.id == id,
            r.hist_factor == hist_factor,
            r.solver == solver,
            r.max_iterations == max_iterations,
    {
        Config { id, hist_factor, solver, max_iterations }
    }
}

impl Default for Config {
    /// Historic factor one tenth, simple solver, one thousand iterations.
    fn default() -> (r: Config)
        ensures
            r.id == 0,
            r.hist_factor == 100,
            r.solver == Solver::Simple(crate::solver::SimpleSolver),
            r.max_iterations == 1000,
    {
        Config {
            id: 0,
            hist_factor: 100,
            solver: Solver::Simple(crate::solver::SimpleSolver),
            max_iterations: 1000,
        }
    }
}

/// Telemetry of one routing iteration.  All costs are in milli-units.
#[derive(Clone, Copy, Debug)]
pub struct IterationResult {
    /// Index of the iteration this record describes
    pub iteration: usize,
    /// The configuration of the run
    pub test_case: Config,
    /// Number of nodes that were over capacity in this iteration
    pub conflicts: usize,
    /// Signal and sink of the costliest path, by base cost
    pub longest_path: (usize, usize),
    /// Base cost of that path
    pub longest_path_cost: u64,
    /// Sum over nets of the size of their claimed node set
    pub total_wire_use: u64,
    /// Mean over nets of times-used per distinct node, in milli-units
    pub wire_reuse_milli: u64,
    /// Wall-clock duration of the iteration, in microseconds
    pub duration_micros: u64,
}

/// A capability for receiving one `IterationResult` per iteration.
pub trait Logging {
    /// Record one iteration's telemetry.
    fn log(&mut self, log_instance: &IterationResult);
}

/// A logging sink that keeps every record in memory.
#[derive(Debug)]
pub struct MemoryLog {
    /// The records received so far, in order
    pub entries: Vec<IterationResult>,
}

impl MemoryLog {
    /// An empty log.
    pub fn new() -> (r: MemoryLog)
        ensures
            r.entries@.len() == 0,
    {
        MemoryLog { entries: Vec::new() }
    }
}

impl Logging for MemoryLog {
    fn log(&mut self, log_instance: &IterationResult) {
        self.entries.push(log_instance.clone());
    }
}

/// A logging sink that drops every record.
#[derive(Debug)]
pub struct NoLog;

impl Logging for NoLog {
    fn log(&mut self, _log_instance: &IterationResult) {
    }
}

/// Why a routing run failed.
#[derive(Clone, Debug)]
pub enum RouteError {
    /// A solver could not route the named net; fatal to the run.
    Solver { net: usize, err: SolveError },
    /// Pre-planning could not plan the named net; fatal to the run.
    PrePlan { net: usize, err: SolveError },
    /// Pre-planning chose a join node already reserved for another net.
    OverlappingPrePlan { net: usize, node: usize },
    /// The iteration cap was reached with conflicts remaining; the final
    /// iteration's telemetry is attached.
    Unresolved(IterationResult),
}

/// The chosen join node lies on the trunk path.
pub open spec fn mid_on_trunk(trunk: Seq<usize>, mid: usize) -> bool {
    exists|b: int| 0 <= b < trunk.len() && trunk[b] == mid
}

/// One of the first `m` nets' pre-planned trees reserves node `x`.
pub open spec fn reserved_before(plan: Seq<Routing>, m: int, x: usize) -> bool {
    exists|j: int|
        0 <= j < m && (#[trigger] plan[j]).steiner_tree is Some
            && plan[j].steiner_tree->Some_0.nodes@.contains(x)
}

/// Relies on std::time::SystemTime::now for a wall-clock reading in
/// microseconds since the Unix epoch; nothing is assumed about its value.
#[verifier::external_body]
fn now_micros() -> u64 {
    match std::time::SystemTime::now().duration_since(std::time::UNIX_EPOCH) {
        Ok(d) => d.as_micros() as u64,
        Err(_) => 0,
    }
}

impl Routing {
    /// Pre-compute this net's fixed Steiner skeleton.
    ///
    /// Replays the trunk selection of the Steiner heuristic, except that
    /// join candidates already marked used in this pre-pass lose to unused
    /// ones regardless of distance.  The winner's join nodes are written
    /// back into the graph as `usage = 1` so later nets of the same pre-pass
    /// avoid them.  The graph is unchanged on failure.
    #[verifier::loop_isolation(false)]
    pub fn pre_calc_steiner_tree(&self, graph: &mut FabricGraph) -> (r: Result<
        SteinerTree,
        SolveError,
    >)
        requires
            old(graph).wf(),
            net_in_range(old(graph).n(), *self),
            self.sinks@.len() >= 1,
        ensures
            final(graph).wf(),
            final(graph).nodes == old(graph).nodes,
            final(graph).map == old(graph).map,
            final(graph).map_reversed == old(graph).map_reversed,
            final(graph).costs@.len() == old(graph).costs@.len(),
            forall|i: int|
                0 <= i < final(graph).costs@.len() ==> {
                    &&& (#[trigger] final(graph).costs@[i]).historic_cost
                        == old(graph).costs@[i].historic_cost
                    &&& final(graph).costs@[i].capacity == old(graph).costs@[i].capacity
                    &&& (final(graph).costs@[i].usage == old(graph).costs@[i].usage
                        || final(graph).costs@[i].usage == 1)
                },
            r matches Ok(st) ==> {
                &&& steiner_wf(old(graph).n(), self.signal, self.sinks@, st)
                // exactly the returned join nodes are written back as used
                &&& forall|j: int|
                    0 <= j < st.nodes@.len() ==> final(graph).costs@[(
                    #[trigger] st.nodes@[j]) as int].usage == 1
                &&& forall|v: int|
                    0 <= v < final(graph).costs@.len() && !st.nodes@.contains(v as usize) ==> (
                    #[trigger] final(graph).costs@[v]).usage == old(graph).costs@[v].usage
            },
            r is Err ==> *final(graph) == *old(graph),
            r matches Err(e) ==> (e matches SolveError::UnreachableSink { signal, sink }
                && signal == self.signal && self.sinks@.contains(sink)),
            // planning fails exactly when no sink offers a reachable trunk
            r is Err <==> (forall|j: int|
                0 <= j < self.sinks@.len() ==> !crate::paths::finitely_reachable(
                    *old(graph),
                    self.signal,
                    #[trigger] self.sinks@[j],
                )),
    {
        let signal = self.signal;
        let n_sinks = self.sinks.len();
        let n = graph.nodes.len();

        // distances from every node to each sink, over the reversed map
        let mut dists: Vec<Vec<u64>> = Vec::new();
        let mut i: usize = 0;
        while i < n_sinks
            invariant
                graph == old(graph),
                graph.wf(),
                net_in_range(graph.n(), *self),
                n == graph.nodes@.len(),
                n_sinks == self.sinks@.len(),
                i <= n_sinks,
                dists@.len() == i,
                forall|j: int| 0 <= j < i ==> (#[trigger] dists@[j])@.len() == n,
            decreases n_sinks - i,
        {
            dists.push(graph.dijkstra_all(self.sinks[i]));
            i += 1;
        }

        // pick the cheapest trunk candidate, preferring unused join nodes
        let mut have_best = false;
        let mut best_cost: u64 = 0;
        let mut best_base_path: Vec<usize> = Vec::new();
        let mut best_mids: Vec<usize> = Vec::new();
        let mut best_mids_set: Vec<usize> = Vec::new();
        let mut have_fail = false;
        let mut fail_sink: usize = 0;
        let mut t: usize = 0;
        while t < n_sinks
            invariant
                graph == old(graph),
                graph.wf(),
                net_in_range(graph.n(), *self),
                signal == self.signal,
                n == graph.nodes@.len(),
                n_sinks == self.sinks@.len(),
                dists@.len() == n_sinks,
                forall|j: int| 0 <= j < n_sinks ==> (#[trigger] dists@[j])@.len() == n,
                t <= n_sinks,
                have_best ==> {
                    &&& best_mids@.len() == n_sinks
                    &&& forall|j: int| 0 <= j < n_sinks ==> (#[trigger] best_mids@[j]) < n
                    &&& best_base_path@.len() >= 1
                    &&& forall|j: int|
                        0 <= j < best_base_path@.len() ==> (#[trigger] best_base_path@[j]) < n
                    &&& forall|j: int|
                        0 <= j < n_sinks ==> mid_on_trunk(best_base_path@, #[trigger] best_mids@[j])
                    &&& nodup(best_mids_set@)
                    &&& forall|j: int| 0 <= j < best_mids_set@.len() ==> (#[trigger] best_mids_set@[j]) < n
                },
                t > 0 ==> have_best || have_fail,
                have_fail ==> self.sinks@.contains(fail_sink),
                !have_best ==> forall|j: int|
                    0 <= j < t ==> !crate::paths::finitely_reachable(
                        *graph,
                        signal,
                        #[trigger] self.sinks@[j],
                    ),
                have_best ==> exists|j: int|
                    0 <= j < n_sinks && crate::paths::finitely_reachable(
                        *graph,
                        signal,
                        #[trigger] self.sinks@[j],
                    ),
            decreases n_sinks - t,
        {
            let base_sink = self.sinks[t];
            match graph.dijkstra(signal, base_sink) {
                None => {
                    if !have_fail {
                        have_fail = true;
                        fail_sink = base_sink;
                    }
                    proof {
                        assert(self.sinks@[t as int] == base_sink);
                        assert(!crate::paths::finitely_reachable(*graph, signal, base_sink));
                    }
                }
                Some(pc) => {
                    proof {
                        assert(self.sinks@[t as int] == base_sink);
                        assert(crate::paths::finitely_reachable(*graph, signal, base_sink));
                    }
                    let base_path = pc.0;
                    let mut cand_cost = pc.1;
                    let mut mids: Vec<usize> = Vec::new();
                    let mut mids_set: Vec<usize> = Vec::new();
                    let mut si: usize = 0;
                    while si < n_sinks
                        invariant
                            graph == old(graph),
                            graph.wf(),
                            n == graph.nodes@.len(),
                            n_sinks == self.sinks@.len(),
                            dists@.len() == n_sinks,
                            forall|j: int| 0 <= j < n_sinks ==> (#[trigger] dists@[j])@.len() == n,
                            si <= n_sinks,
                            mids@.len() == si,
                            forall|j: int| 0 <= j < si ==> (#[trigger] mids@[j]) < n,
                            base_path@.len() >= 1,
                            forall|j: int|
                                0 <= j < base_path@.len() ==> (#[trigger] base_path@[j]) < n,
                            forall|j: int|
                                0 <= j < si ==> mid_on_trunk(base_path@, #[trigger] mids@[j]),
                            nodup(mids_set@),
                            forall|j: int| 0 <= j < mids_set@.len() ==> (#[trigger] mids_set@[j]) < n,
                        decreases n_sinks - si,
                    {
                        let drow = &dists[si];
                        let mut mn = base_path[0];
                        let mut md = drow[mn];
                        let mut mn_used = graph.costs[mn].usage > 0;
                        let ghost bp = base_path@;
                        proof {
                            assert(bp[0] == mn);
                            assert(mid_on_trunk(bp, mn));
                        }
                        let mut b: usize = 1;
                        while b < base_path.len()
                            invariant
                                graph == old(graph),
                                graph.wf(),
                                n == graph.nodes@.len(),
                                drow@.len() == n,
                                bp == base_path@,
                                bp.len() >= 1,
                                forall|j: int| 0 <= j < bp.len() ==> (#[trigger] bp[j]) < n,
                                1 <= b <= bp.len(),
                                mn < n,
                                mid_on_trunk(bp, mn),
                            decreases bp.len() - b,
                        {
                            let nd = base_path[b];
                            let d = drow[nd];
                            let nd_used = graph.costs[nd].usage > 0;
                            // a used node loses to any unused one; otherwise
                            // the smaller distance wins, first on ties
                            if (!nd_used && mn_used) || (nd_used == mn_used && d < md) {
                                mn = nd;
                                md = d;
                                mn_used = nd_used;
                                proof {
                                    assert(bp[b as int] == nd);
                                    assert(mid_on_trunk(bp, nd));
                                }
                            }
                            b += 1;
                        }
                        cand_cost = sat_add(cand_cost, md);
                        mids.push(mn);
                        if !contains_node(&mids_set, mn) {
                            let ghost before = mids_set@;
                            mids_set.push(mn);
                            proof {
                                assert forall|a: int, c: int|
                                    0 <= a < c < mids_set@.len() implies mids_set@[a]
                                    != mids_set@[c] by {
                                    if c == mids_set@.len() - 1 {
                                        assert(before[a] == mids_set@[a]);
                                        assert(!before.contains(mn));
                                    }
                                }
                            }
                        }
                        si += 1;
                    }
                    if !have_best || cand_cost < best_cost {
                        let ghost g_path = base_path@;
                        let ghost g_mids = mids@;
                        have_best = true;
                        best_cost = cand_cost;
                        best_base_path = base_path;
                        best_mids = mids;
                        best_mids_set = mids_set;
                        proof {
                            assert forall|j: int| 0 <= j < n_sinks implies mid_on_trunk(
                                best_base_path@,
                                #[trigger] best_mids@[j],
                            ) by {
                                assert(mid_on_trunk(g_path, g_mids[j]));
                            }
                        }
                    }
                }
            }
            t += 1;
        }
        if !have_best {
            return Err(SolveError::UnreachableSink { signal, sink: fail_sink });
        }

        // build the anchor skeleton of every sink along the winning trunk
        let mut steiner_nodes: Vec<(usize, Vec<usize>)> = Vec::new();
        let mut i: usize = 0;
        while i < n_sinks
            invariant
                graph == old(graph),
                graph.wf(),
                net_in_range(graph.n(), *self),
                signal == self.signal,
                n == graph.nodes@.len(),
                n_sinks == self.sinks@.len(),
                best_mids@.len() == n_sinks,
                forall|j: int| 0 <= j < n_sinks ==> (#[trigger] best_mids@[j]) < n,
                best_base_path@.len() >= 1,
                forall|j: int|
                    0 <= j < best_base_path@.len() ==> (#[trigger] best_base_path@[j]) < n,
                forall|j: int|
                    0 <= j < n_sinks ==> mid_on_trunk(best_base_path@, #[trigger] best_mids@[j]),
                i <= n_sinks,
                steiner_nodes@.len() == i,
                forall|j: int|
                    0 <= j < i ==> (#[trigger] steiner_nodes@[j]).0 == self.sinks@[j],
                forall|j: int|
                    0 <= j < i ==> {
                        let skel = (#[trigger] steiner_nodes@[j]).1@;
                        &&& skel.len() >= 1
                        &&& skel[0] == signal
                        &&& skel[skel.len() - 1] == self.sinks@[j]
                        &&& forall|q: int| 0 <= q < skel.len() ==> (#[trigger] skel[q]) < n
                        &&& forall|q: int|
                            0 <= q < skel.len() ==> (#[trigger] skel[q]) == signal
                                || best_mids_set@.contains(skel[q]) || self.sinks@.contains(
                                skel[q],
                            )
                        &&& forall|a2: int, b2: int|
                            0 <= a2 < b2 < skel.len() ==> skel[a2] != skel[b2]
                    },
            decreases n_sinks - i,
        {
            let sink = self.sinks[i];
            let mid = best_mids[i];
            let mut skel: Vec<usize> = Vec::new();
            skel.push(signal);
            // a sink equal to the signal keeps the one-anchor skeleton
            if sink != signal {
                let mut done = false;
                let mut b: usize = 0;
                while b < best_base_path.len() && !done
                    invariant
                        n == graph.nodes@.len(),
                        signal < n,
                        sink < n,
                        mid < n,
                        sink != signal,
                        best_base_path@.len() >= 1,
                        forall|j: int|
                            0 <= j < best_base_path@.len() ==> (#[trigger] best_base_path@[j]) < n,
                        forall|j: int| 0 <= j < best_mids_set@.len() ==> (#[trigger] best_mids_set@[j]) < n,
                        b <= best_base_path@.len(),
                        !done ==> forall|j: int| 0 <= j < b ==> best_base_path@[j] != mid,
                        skel@.len() >= 1,
                        skel@[0] == signal,
                        forall|q: int| 0 <= q < skel@.len() ==> (#[trigger] skel@[q]) < n,
                        forall|q: int|
                            0 <= q < skel@.len() ==> (#[trigger] skel@[q]) == signal
                                || best_mids_set@.contains(skel@[q]),
                        forall|q: int| 0 <= q < skel@.len() ==> (#[trigger] skel@[q]) != sink,
                        forall|a2: int, b2: int|
                            0 <= a2 < b2 < skel@.len() ==> skel@[a2] != skel@[b2],
                    decreases best_base_path@.len() - b, (if done { 0int } else { 1int }),
                {
                    let nd = best_base_path[b];
                    if nd == mid {
                        done = true;
                    } else {
                        if nd != sink && contains_node(&best_mids_set, nd) && !contains_node(
                            &skel,
                            nd,
                        ) {
                            let ghost before = skel@;
                            skel.push(nd);
                            proof {
                                assert forall|a2: int, b2: int|
                                    0 <= a2 < b2 < skel@.len() implies skel@[a2] != skel@[b2] by {
                                    if b2 == skel@.len() - 1 {
                                        assert(before[a2] == skel@[a2]);
                                        assert(!before.contains(nd));
                                    }
                                }
                            }
                        }
                        b += 1;
                    }
                }
                proof {
                    if !done {
                        // the chosen join point always lies on the trunk
                        assert(mid_on_trunk(best_base_path@, best_mids@[i as int]));
                        let w = choose|w: int|
                            0 <= w < best_base_path@.len() && best_base_path@[w]
                                == best_mids@[i as int];
                        assert(false);
                    }
                }
                let ghost before = skel@;
                skel.push(sink);
                proof {
                    assert forall|a2: int, b2: int|
                        0 <= a2 < b2 < skel@.len() implies skel@[a2] != skel@[b2] by {
                        if b2 == skel@.len() - 1 {
                            assert(before[a2] == skel@[a2]);
                        }
                    }
                }
            }
            steiner_nodes.push((sink, skel));
            proof {
                assert(self.sinks@[i as int] == sink);
                assert(self.sinks@.contains(sink));
            }
            i += 1;
        }

        // reserve the winning join nodes for this net
        let mut k: usize = 0;
        while k < best_mids_set.len()
            invariant
                graph.wf(),
                graph.nodes == old(graph).nodes,
                graph.map == old(graph).map,
                graph.map_reversed == old(graph).map_reversed,
                graph.costs@.len() == old(graph).costs@.len(),
                n == graph.nodes@.len(),
                forall|j: int| 0 <= j < best_mids_set@.len() ==> (#[trigger] best_mids_set@[j]) < n,
                k <= best_mids_set@.len(),
                forall|v: int|
                    0 <= v < graph.costs@.len() ==> {
                        &&& (#[trigger] graph.costs@[v]).historic_cost
                            == old(graph).costs@[v].historic_cost
                        &&& graph.costs@[v].capacity == old(graph).costs@[v].capacity
                        &&& graph.costs@[v].usage == (if in_prefix(
                            best_mids_set@,
                            k as int,
                            v as usize,
                        ) {
                            1u32
                        } else {
                            old(graph).costs@[v].usage
                        })
                    },
            decreases best_mids_set@.len() - k,
        {
            let x = best_mids_set[k];
            graph.costs[x].usage = 1;
            proof {
                assert(in_prefix(best_mids_set@, k + 1, x)) by {
                    assert(best_mids_set@[k as int] == x);
                }
                assert(graph.costs@.len() <= usize::MAX) by {
                    assert(graph.costs.len() == graph.costs@.len());
                }
                assert forall|v: int|
                    0 <= v < graph.costs@.len() implies (#[trigger] graph.costs@[v]).usage == (
                if in_prefix(best_mids_set@, k + 1, v as usize) {
                    1u32
                } else {
                    old(graph).costs@[v].usage
                }) by {
                    assert((v as usize) as int == v);
                    if v != x as int && in_prefix(best_mids_set@, k + 1, v as usize) {
                        let a = choose|a: int|
                            0 <= a < k + 1 && best_mids_set@[a] == v as usize;
                        if a == k {
                            assert(best_mids_set@[k as int] == x);
                        }
                        assert(a < k);
                    }
                }
            }
            k += 1;
        }

        let st = SteinerTree { steiner_nodes, nodes: best_mids_set };
        proof {
            assert(steiner_wf(old(graph).n(), self.signal, self.sinks@, st));
            assert forall|v: int|
                0 <= v < graph.costs@.len() && !st.nodes@.contains(v as usize) implies (
            #[trigger] graph.costs@[v]).usage == old(graph).costs@[v].usage by {
                if in_prefix(st.nodes@, st.nodes@.len() as int, v as usize) {
                    assert(st.nodes@.contains(v as usize));
                }
            }
            assert forall|j: int|
                0 <= j < st.nodes@.len() implies graph.costs@[(#[trigger] st.nodes@[j]) as int].usage
                == 1 by {
                assert(in_prefix(st.nodes@, st.nodes@.len() as int, st.nodes@[j]));
            }
        }
        Ok(st)
    }
}

/// Pre-plan every net's Steiner skeleton, in order.  Each net's reserved
/// join nodes are checked against all earlier nets' reservations; an overlap
/// is a fatal planning error.  The usage marks of the pre-pass are wiped
/// before the function returns.
#[verifier::loop_isolation(false)]
#[verifier::rlimit(100)]
pub fn pre_process(graph: &mut FabricGraph, route_plan: &mut Vec<Routing>) -> (r: Result<
    (),
    RouteError,
>)
    requires
        old(graph).wf(),
        plan_in_range(old(graph).n(), old(route_plan)@),
        plan_steiner_wf(old(graph).n(), old(route_plan)@),
    ensures
        final(graph).wf(),
        final(graph).nodes == old(graph).nodes,
        final(graph).map == old(graph).map,
        final(graph).map_reversed == old(graph).map_reversed,
        final(graph).costs@.len() == old(graph).costs@.len(),
        forall|i: int|
            0 <= i < final(graph).costs@.len() ==> {
                &&& (#[trigger] final(graph).costs@[i]).historic_cost
                    == old(graph).costs@[i].historic_cost
                &&& final(graph).costs@[i].capacity == old(graph).costs@[i].capacity
            },
        r is Ok ==> final(graph).usage_clear(),
        final(route_plan)@.len() == old(route_plan)@.len(),
        forall|i: int|
            0 <= i < final(route_plan)@.len() ==> {
                &&& (#[trigger] final(route_plan)@[i]).signal == old(route_plan)@[i].signal
                &&& final(route_plan)@[i].sinks == old(route_plan)@[i].sinks
                &&& final(route_plan)@[i].result == old(route_plan)@[i].result
            },
        r is Ok ==> forall|i: int|
            0 <= i < final(route_plan)@.len() ==> (#[trigger] final(route_plan)@[i]).steiner_tree
                is Some,
        plan_steiner_wf(old(graph).n(), final(route_plan)@),
        r matches Err(e) ==> (e matches RouteError::PrePlan { net, err }
            || e matches RouteError::OverlappingPrePlan { net, node }),
        // a planning failure names the failing net, whose sinks were all
        // unreachable under the pre-pass usage marks of that moment
        r matches Err(RouteError::PrePlan { net, err }) ==> {
            &&& net < old(route_plan)@.len()
            &&& err matches SolveError::UnreachableSink { signal, sink } && signal == old(
                route_plan,
            )@[net as int].signal && old(route_plan)@[net as int].sinks@.contains(sink)
            &&& exists|g: FabricGraph|
                #[trigger] same_cost_frame(g, *old(graph)) && (forall|j: int|
                    0 <= j < old(route_plan)@[net as int].sinks@.len()
                        ==> !crate::paths::finitely_reachable(
                        g,
                        old(route_plan)@[net as int].signal,
                        #[trigger] old(route_plan)@[net as int].sinks@[j],
                    ))
        },
        // an overlap names a node already reserved by an earlier net's tree
        r matches Err(RouteError::OverlappingPrePlan { net, node }) ==> {
            &&& net < old(route_plan)@.len()
            &&& node < old(graph).n()
            &&& reserved_before(final(route_plan)@, net as int, node)
        },
{
    let ghost n_spec = old(graph).n();
    let n = graph.nodes.len();
    let mut claimed: Vec<bool> = Vec::new();
    let mut z: usize = 0;
    while z < n
        invariant
            z <= n,
            claimed@.len() == z,
            forall|v: int| 0 <= v < z ==> !(#[trigger] claimed@[v]),
        decreases n - z,
    {
        claimed.push(false);
        z += 1;
    }
    let mut i: usize = 0;
    while i < route_plan.len()
        invariant
            graph.wf(),
            n_spec == graph.n(),
            graph.nodes == old(graph).nodes,
            graph.map == old(graph).map,
            graph.map_reversed == old(graph).map_reversed,
            graph.costs@.len() == old(graph).costs@.len(),
            n == graph.nodes@.len(),
            claimed@.len() == n,
            plan_in_range(n_spec, route_plan@),
            i <= route_plan@.len(),
            route_plan@.len() == old(route_plan)@.len(),
            forall|j: int|
                0 <= j < route_plan@.len() ==> {
                    &&& (#[trigger] route_plan@[j]).signal == old(route_plan)@[j].signal
                    &&& route_plan@[j].sinks == old(route_plan)@[j].sinks
                    &&& route_plan@[j].result == old(route_plan)@[j].result
                },
            forall|j: int|
                i <= j < route_plan@.len() ==> (#[trigger] route_plan@[j]).steiner_tree
                    == old(route_plan)@[j].steiner_tree,
            forall|j: int|
                0 <= j < i ==> (#[trigger] route_plan@[j]).steiner_tree is Some && steiner_wf(
                    n_spec,
                    route_plan@[j].signal,
                    route_plan@[j].sinks@,
                    route_plan@[j].steiner_tree->Some_0,
                ),
            plan_steiner_wf(n_spec, route_plan@),
            forall|v: int|
                0 <= v < graph.costs@.len() ==> {
                    &&& (#[trigger] graph.costs@[v]).historic_cost
                        == old(graph).costs@[v].historic_cost
                    &&& graph.costs@[v].capacity == old(graph).costs@[v].capacity
                },
            forall|x: int|
                0 <= x < n ==> ((#[trigger] claimed@[x]) <==> reserved_before(
                    route_plan@,
                    i as int,
                    x as usize,
                )),
        decreases route_plan@.len() - i,
    {
        let ghost g_before = *graph;
        let st = match route_plan[i].pre_calc_steiner_tree(graph) {
            Ok(st) => st,
            Err(e) => {
                proof {
                    assert(same_cost_frame(g_before, *old(graph)));
                    assert(route_plan@[i as int].signal == old(route_plan)@[i as int].signal);
                    assert(route_plan@[i as int].sinks == old(route_plan)@[i as int].sinks);
                }
                graph.reset_usage();
                return Err(RouteError::PrePlan { net: i, err: e });
            }
        };
        // reject any join node already reserved for an earlier net
        let ghost graph_now = *graph;
        let mut k: usize = 0;
        while k < st.nodes.len()
            invariant
                *graph == graph_now,
                n == claimed@.len(),
                forall|j: int| 0 <= j < st.nodes@.len() ==> (#[trigger] st.nodes@[j]) < n,
                k <= st.nodes@.len(),
            decreases st.nodes@.len() - k,
        {
            let x = st.nodes[k];
            if claimed[x] {
                proof {
                    assert(reserved_before(route_plan@, i as int, x));
                }
                graph.reset_usage();
                return Err(RouteError::OverlappingPrePlan { net: i, node: x });
            }
            k += 1;
        }
        let ghost claimed0 = claimed@;
        k = 0;
        while k < st.nodes.len()
            invariant
                n == claimed@.len(),
                claimed0.len() == n,
                forall|j: int| 0 <= j < st.nodes@.len() ==> (#[trigger] st.nodes@[j]) < n,
                k <= st.nodes@.len(),
                forall|x: int|
                    0 <= x < n ==> ((#[trigger] claimed@[x]) <==> (claimed0[x] || in_prefix(
                        st.nodes@,
                        k as int,
                        x as usize,
                    ))),
            decreases st.nodes@.len() - k,
        {
            let x = st.nodes[k];
            claimed[x] = true;
            proof {
                assert(n <= usize::MAX) by {
                    assert(claimed.len() == claimed@.len());
                }
                assert forall|x2: int|
                    0 <= x2 < n implies ((#[trigger] claimed@[x2]) <==> (claimed0[x2] || in_prefix(
                    st.nodes@,
                    k + 1,
                    x2 as usize,
                ))) by {
                    assert((x2 as usize) as int == x2);
                    if x2 == x as int {
                        assert(in_prefix(st.nodes@, k + 1, x)) by {
                            assert(st.nodes@[k as int] == x);
                        }
                    } else if in_prefix(st.nodes@, k + 1, x2 as usize) {
                        let a = choose|a: int| 0 <= a < k + 1 && st.nodes@[a] == x2 as usize;
                        if a == k {
                            assert(st.nodes@[k as int] == x);
                        }
                        assert(a < k);
                    }
                }
            }
            k += 1;
        }
        let ghost st_ghost = st;
        let ghost plan_before = route_plan@;
        route_plan[i].steiner_tree = Some(st);
        proof {
            assert(route_plan@[i as int].steiner_tree == Some(st_ghost));
            assert forall|j: int|
                0 <= j <= i implies (#[trigger] route_plan@[j]).steiner_tree is Some && steiner_wf(
                n_spec,
                route_plan@[j].signal,
                route_plan@[j].sinks@,
                route_plan@[j].steiner_tree->Some_0,
            ) by {}
            // the mask now reflects the first i + 1 nets' reservations
            assert forall|x: int|
                0 <= x < n implies ((#[trigger] claimed@[x]) <==> reserved_before(
                route_plan@,
                i + 1,
                x as usize,
            )) by {
                assert((x as usize) as int == x);
                if claimed@[x] {
                    if claimed0[x] {
                        assert(reserved_before(plan_before, i as int, x as usize));
                        let j = choose|j: int|
                            0 <= j < i && (#[trigger] plan_before[j]).steiner_tree is Some
                                && plan_before[j].steiner_tree->Some_0.nodes@.contains(x as usize);
                        assert(route_plan@[j] == plan_before[j]);
                        assert(reserved_before(route_plan@, i + 1, x as usize));
                    } else {
                        assert(in_prefix(st_ghost.nodes@, st_ghost.nodes@.len() as int, x as usize));
                        assert(st_ghost.nodes@.contains(x as usize));
                        assert(route_plan@[i as int].steiner_tree->Some_0.nodes@.contains(
                            x as usize,
                        ));
                        assert(reserved_before(route_plan@, i + 1, x as usize));
                    }
                }
                if reserved_before(route_plan@, i + 1, x as usize) {
                    let j = choose|j: int|
                        0 <= j < i + 1 && (#[trigger] route_plan@[j]).steiner_tree is Some
                            && route_plan@[j].steiner_tree->Some_0.nodes@.contains(x as usize);
                    if j < i {
                        assert(plan_before[j] == route_plan@[j]);
                        assert(reserved_before(plan_before, i as int, x as usize));
                        assert(claimed0[x]);
                    } else {
                        assert(st_ghost.nodes@.contains(x as usize));
                        let a = choose|a: int|
                            0 <= a < st_ghost.nodes@.len() && st_ghost.nodes@[a] == x as usize;
                        assert(in_prefix(st_ghost.nodes@, st_ghost.nodes@.len() as int, x as usize));
                    }
                }
            }
        }
        i += 1;
    }
    graph.reset_usage();
    Ok(())
}

/// Sum over nets of the size of their claimed node set, saturating.
pub open spec fn spec_total_wire_use(plan: Seq<Routing>) -> u64
    decreases plan.len(),
{
    if plan.len() == 0 {
        0
    } else {
        spec_sat_add(
            spec_total_wire_use(plan.drop_last()),
            if plan.last().result is Some {
                plan.last().result->Some_0.nodes@.len() as u64
            } else {
                0
            },
        )
    }
}

/// Total number of path entries of one net's result, saturating.
pub open spec fn spec_net_visits(paths: Seq<(usize, Vec<usize>)>) -> u64
    decreases paths.len(),
{
    if paths.len() == 0 {
        0
    } else {
        spec_sat_add(spec_net_visits(paths.drop_last()), paths.last().1@.len() as u64)
    }
}

/// Times-used per distinct node of one net, in milli-units.
pub open spec fn spec_net_reuse_milli(r: Routing) -> u64 {
    match r.result {
        Some(rr) => if rr.nodes@.len() > 0 {
            spec_sat_mul(spec_net_visits(rr.paths@), 1000) / (rr.nodes@.len() as u64)
        } else {
            0
        },
        None => 0,
    }
}

/// Saturating sum of the nets' reuse ratios.
pub open spec fn spec_reuse_sum(plan: Seq<Routing>) -> u64
    decreases plan.len(),
{
    if plan.len() == 0 {
        0
    } else {
        spec_sat_add(spec_reuse_sum(plan.drop_last()), spec_net_reuse_milli(plan.last()))
    }
}

/// Mean over nets of times-used per distinct node, in milli-units.
pub open spec fn spec_wire_reuse_milli(plan: Seq<Routing>) -> u64 {
    if plan.len() == 0 {
        0
    } else {
        spec_reuse_sum(plan) / (plan.len() as u64)
    }
}

/// Base cost of a path: the saturating sum of its edges' Manhattan costs,
/// independent of congestion.
pub open spec fn spec_base_path_cost(nodes: Seq<Node>, p: Seq<usize>) -> u64
    decreases p.len(),
{
    if p.len() <= 1 {
        0
    } else {
        spec_sat_add(
            spec_base_path_cost(nodes, p.drop_last()),
            spec_base_cost(nodes[p[p.len() - 2] as int]@, nodes[p[p.len() - 1] as int]@),
        )
    }
}

proof fn lemma_base_cost_push(nodes: Seq<Node>, q: Seq<usize>, v: usize)
    requires
        q.len() >= 1,
    ensures
        spec_base_path_cost(nodes, q.push(v)) == spec_sat_add(
            spec_base_path_cost(nodes, q),
            spec_base_cost(nodes[q[q.len() - 1] as int]@, nodes[v as int]@),
        ),
{
    assert(q.push(v).drop_last() =~= q);
}

/// Base cost of one path under the graph's node coordinates.
#[verifier::loop_isolation(false)]
fn base_path_cost(graph: &FabricGraph, p: &Vec<usize>) -> (c: u64)
    requires
        graph.wf(),
        forall|k: int| 0 <= k < p@.len() ==> (#[trigger] p@[k]) < graph.n(),
    ensures
        c == spec_base_path_cost(graph.nodes@, p@),
{
    let mut c: u64 = 0;
    if p.len() <= 1 {
        return c;
    }
    let mut j: usize = 1;
    while j < p.len()
        invariant
            1 <= j <= p@.len(),
            c == spec_base_path_cost(graph.nodes@, p@.subrange(0, j as int)),
        decreases p@.len() - j,
    {
        let a = p[j - 1];
        let b = p[j];
        let w = FabricGraph::distance(&graph.nodes[a], &graph.nodes[b]);
        proof {
            let pre = p@.subrange(0, j as int);
            lemma_base_cost_push(graph.nodes@, pre, p@[j as int]);
            assert(p@.subrange(0, j + 1) =~= pre.push(p@[j as int]));
            assert(pre[pre.len() - 1] == p@[j - 1]);
        }
        c = sat_add(c, w);
        j += 1;
    }
    proof {
        assert(p@.subrange(0, p@.len() as int) =~= p@);
    }
    c
}

/// The base cost of every path of the net is bounded by `c`.
pub open spec fn net_bound(nodes: Seq<Node>, net: Routing, c: u64) -> bool {
    forall|j: int|
        0 <= j < net.result->Some_0.paths@.len() ==> #[trigger] spec_base_path_cost(
            nodes,
            net.result->Some_0.paths@[j].1@,
        ) <= c
}

/// Some path of the net has base cost `c`, and `pr` is its signal and sink.
pub open spec fn net_wit(nodes: Seq<Node>, net: Routing, c: u64, pr: (usize, usize)) -> bool {
    exists|j: int|
        0 <= j < net.result->Some_0.paths@.len() && #[trigger] spec_base_path_cost(
            nodes,
            net.result->Some_0.paths@[j].1@,
        ) == c && pr == (net.signal, net.result->Some_0.paths@[j].0)
}

/// One more net extends both running metric sums by its own term.
proof fn lemma_metrics_push(plan: Seq<Routing>, i: int)
    requires
        0 <= i < plan.len(),
    ensures
        spec_total_wire_use(plan.subrange(0, i + 1)) == spec_sat_add(
            spec_total_wire_use(plan.subrange(0, i)),
            if plan[i].result is Some {
                plan[i].result->Some_0.nodes@.len() as u64
            } else {
                0
            },
        ),
        spec_reuse_sum(plan.subrange(0, i + 1)) == spec_sat_add(
            spec_reuse_sum(plan.subrange(0, i)),
            spec_net_reuse_milli(plan[i]),
        ),
{
    assert(plan.subrange(0, i + 1).drop_last() =~= plan.subrange(0, i));
    assert(plan.subrange(0, i + 1).last() == plan[i]);
}

/// Per-net telemetry: the total path length and the costliest path by base
/// cost, with its signal and sink.
#[verifier::rlimit(100)]
fn net_metrics(graph: &FabricGraph, net: &Routing) -> (r: (u64, u64, (usize, usize)))
    requires
        graph.wf(),
        net.result is Some,
        forall|j: int, k: int|
            0 <= j < net.result->Some_0.paths@.len() && 0 <= k
                < net.result->Some_0.paths@[j].1@.len() ==> (
            #[trigger] net.result->Some_0.paths@[j].1@[k]) < graph.n(),
    ensures
        r.0 == spec_net_visits(net.result->Some_0.paths@),
        net_bound(graph.nodes@, *net, r.1),
        r.1 > 0 ==> net_wit(graph.nodes@, *net, r.1, r.2),
{
    let rr = match &net.result {
        Some(rr) => rr,
        None => {
            proof {
                assert(false);
            }
            return (0, 0, (0, 0));
        }
    };
    let mut visits: u64 = 0;
    let mut best_cost: u64 = 0;
    let mut best_pair: (usize, usize) = (0, 0);
    let mut j: usize = 0;
    while j < rr.paths.len()
        invariant
            graph.wf(),
            net.result is Some,
            *rr == net.result->Some_0,
            forall|j2: int, k: int|
                0 <= j2 < rr.paths@.len() && 0 <= k < rr.paths@[j2].1@.len() ==> (
                #[trigger] rr.paths@[j2].1@[k]) < graph.n(),
            j <= rr.paths@.len(),
            visits == spec_net_visits(rr.paths@.subrange(0, j as int)),
            forall|j2: int|
                0 <= j2 < j ==> #[trigger] spec_base_path_cost(
                    graph.nodes@,
                    rr.paths@[j2].1@,
                ) <= best_cost,
            best_cost > 0 ==> net_wit(graph.nodes@, *net, best_cost, best_pair),
        decreases rr.paths@.len() - j,
    {
        let pl = &rr.paths[j].1;
        let c = base_path_cost(graph, pl);
        if c > best_cost {
            best_cost = c;
            best_pair = (net.signal, rr.paths[j].0);
            proof {
                assert(net_wit(graph.nodes@, *net, best_cost, best_pair)) by {
                    assert(spec_base_path_cost(graph.nodes@, net.result->Some_0.paths@[j as int].1@)
                        == best_cost);
                }
            }
        }
        proof {
            let pre = rr.paths@.subrange(0, j as int);
            assert(rr.paths@.subrange(0, j + 1).drop_last() =~= pre);
            assert(rr.paths@.subrange(0, j + 1).last() == rr.paths@[j as int]);
        }
        visits = sat_add(visits, pl.len() as u64);
        j += 1;
    }
    proof {
        assert(rr.paths@.subrange(0, rr.paths@.len() as int) =~= rr.paths@);
    }
    (visits, best_cost, best_pair)
}

/// Derive the iteration's telemetry from the solved plan: total wire use,
/// the costliest signal-to-sink path by base cost, and the wire-reuse mean.
#[verifier::rlimit(100)]
fn analyze_result(conflicts: usize, duration: u64, graph: &FabricGraph, routing: &Vec<Routing>) -> (r:
    IterationResult)
    requires
        graph.wf(),
        plan_in_range(graph.n(), routing@),
        plan_solved(graph.map@, graph.n(), routing@),
    ensures
        r.conflicts == conflicts,
        r.duration_micros == duration,
        r.iteration == 0,
        r.total_wire_use == spec_total_wire_use(routing@),
        r.wire_reuse_milli == spec_wire_reuse_milli(routing@),
{
    let mut total: u64 = 0;
    let mut reuse_sum: u64 = 0;
    let mut best_cost: u64 = 0;
    let mut best_pair: (usize, usize) = (0, 0);
    let mut i: usize = 0;
    while i < routing.len()
        invariant
            graph.wf(),
            plan_in_range(graph.n(), routing@),
            plan_solved(graph.map@, graph.n(), routing@),
            i <= routing@.len(),
            total == spec_total_wire_use(routing@.subrange(0, i as int)),
            reuse_sum == spec_reuse_sum(routing@.subrange(0, i as int)),
        decreases routing@.len() - i,
    {
        let net = &routing[i];
        proof {
            assert(crate::plan::routing_solved(graph.map@, graph.n(), *net));
            crate::plan::lemma_solved_net_paths_in_range(graph.map@, graph.n(), *net);
        }
        let (visits, lc, lp) = net_metrics(graph, net);
        if lc > best_cost {
            best_cost = lc;
            best_pair = lp;
        }
        let nd = match &net.result {
            Some(rr) => rr.nodes.len(),
            None => {
                proof {
                    assert(false);
                }
                0
            }
        };
        let ratio = if nd > 0 {
            sat_mul(visits, 1000) / (nd as u64)
        } else {
            0
        };
        proof {
            assert(spec_net_reuse_milli(routing@[i as int]) == ratio);
        }
        reuse_sum = sat_add(reuse_sum, ratio);
        total = sat_add(total, nd as u64);
        proof {
            lemma_metrics_push(routing@, i as int);
        }
        i += 1;
    }
    proof {
        assert(routing@.subrange(0, routing@.len() as int) =~= routing@);
    }
    let wire_reuse_milli = if routing.len() > 0 {
        reuse_sum / (routing.len() as u64)
    } else {
        0
    };
    IterationResult {
        iteration: 0,
        test_case: Config {
            id: 0,
            hist_factor: 0,
            solver: Solver::Simple(crate::solver::SimpleSolver),
            max_iterations: 1000,
        },
        conflicts,
        longest_path: best_pair,
        longest_path_cost: best_cost,
        total_wire_use: total,
        wire_reuse_milli,
        duration_micros: duration,
    }
}

/// Number of the first `m` cost records whose usage exceeds capacity.
pub open spec fn spec_overused_count(cs: Seq<crate::node::Costs>, m: int) -> nat
    decreases m,
{
    if m <= 0 {
        0
    } else {
        spec_overused_count(cs, m - 1) + if cs[m - 1].usage > cs[m - 1].capacity {
            1nat
        } else {
            0nat
        }
    }
}

/// When each record's overuse coincides with its node being claimed by more
/// than one net, the two counts agree.
proof fn lemma_overuse_is_conflicts(cs: Seq<crate::node::Costs>, plan: Seq<Routing>, m: int)
    requires
        0 <= m <= cs.len(),
        cs.len() <= usize::MAX,
        forall|w: int|
            0 <= w < m ==> (((#[trigger] cs[w]).usage > cs[w].capacity) == (crate::plan::count_users(
                plan,
                w as usize,
            ) > 1)),
    ensures
        spec_overused_count(cs, m) == spec_conflict_count(plan, m),
    decreases m,
{
    if m > 0 {
        lemma_overuse_is_conflicts(cs, plan, m - 1);
    }
}

/// After an update pass over usage counters that equal the per-node claim
/// counts, the conflict tally equals the number of multiply claimed nodes,
/// and each new historic cost is the old one plus the factored overuse.
proof fn lemma_update_accounting(
    cs: Seq<crate::node::Costs>,
    old_cs: Seq<crate::node::Costs>,
    new_cs: Seq<crate::node::Costs>,
    plan: Seq<Routing>,
    hist_fac: u64,
    conflicts: nat,
)
    requires
        cs.len() == old_cs.len(),
        cs.len() == new_cs.len(),
        cs.len() <= usize::MAX,
        plan.len() < u32::MAX,
        forall|w: int|
            0 <= w < cs.len() ==> (#[trigger] cs[w]).usage == count_users_upto(
                plan,
                plan.len() as int,
                w as usize,
            ),
        forall|w: int| 0 <= w < cs.len() ==> (#[trigger] cs[w]).capacity == 1,
        forall|w: int|
            0 <= w < cs.len() ==> (#[trigger] cs[w]).historic_cost == old_cs[w].historic_cost,
        forall|w: int|
            0 <= w < new_cs.len() ==> (#[trigger] new_cs[w]).historic_cost
                == crate::node::spec_updated_historic(cs[w], hist_fac),
        conflicts == spec_overused_count(cs, cs.len() as int),
    ensures
        conflicts == spec_conflict_count(plan, cs.len() as int),
        forall|w: int|
            0 <= w < new_cs.len() ==> (#[trigger] new_cs[w]).historic_cost
                == crate::plan::spec_new_historic(
                old_cs[w].historic_cost,
                crate::plan::count_users(plan, w as usize),
                hist_fac,
            ),
{
    assert forall|w: int|
        0 <= w < cs.len() implies (((#[trigger] cs[w]).usage > cs[w].capacity) == (
    crate::plan::count_users(plan, w as usize) > 1)) by {
        assert((w as usize) as int == w);
        lemma_count_users_upto_full(plan, w as usize);
    }
    lemma_overuse_is_conflicts(cs, plan, cs.len() as int);
    assert forall|w: int|
        0 <= w < new_cs.len() implies (#[trigger] new_cs[w]).historic_cost
        == crate::plan::spec_new_historic(
        old_cs[w].historic_cost,
        crate::plan::count_users(plan, w as usize),
        hist_fac,
    ) by {
        assert((w as usize) as int == w);
        lemma_count_users_upto_full(plan, w as usize);
        lemma_count_users_upto_bound(plan, plan.len() as int, w as usize);
        assert(cs[w].usage == crate::plan::count_users(plan, w as usize));
        assert(new_cs[w].historic_cost == crate::node::spec_updated_historic(cs[w], hist_fac));
    }
}

/// Solve every net in order with the chosen solver, accumulating usage as
/// each net lands so later nets see earlier nets' claims.  On success the
/// usage counters equal the per-node claim counts of the solved plan.
#[verifier::loop_isolation(false)]
#[verifier::rlimit(100)]
fn solve_all(graph: &mut FabricGraph, routing: &mut Vec<Routing>, solver: &Solver) -> (r: Result<
    (),
    RouteError,
>)
    requires
        old(graph).wf(),
        old(graph).usage_clear(),
        plan_in_range(old(graph).n(), old(routing)@),
        plan_steiner_wf(old(graph).n(), old(routing)@),
        old(routing)@.len() < u32::MAX,
    ensures
        final(graph).wf(),
        final(graph).nodes == old(graph).nodes,
        final(graph).map == old(graph).map,
        final(graph).map_reversed == old(graph).map_reversed,
        final(graph).costs@.len() == old(graph).costs@.len(),
        forall|v: int|
            0 <= v < final(graph).costs@.len() ==> {
                &&& (#[trigger] final(graph).costs@[v]).capacity == old(graph).costs@[v].capacity
                &&& final(graph).costs@[v].historic_cost == old(graph).costs@[v].historic_cost
            },
        final(routing)@.len() == old(routing)@.len(),
        forall|i: int|
            0 <= i < final(routing)@.len() ==> {
                &&& (#[trigger] final(routing)@[i]).signal == old(routing)@[i].signal
                &&& final(routing)@[i].sinks == old(routing)@[i].sinks
                &&& final(routing)@[i].steiner_tree == old(routing)@[i].steiner_tree
            },
        r is Ok ==> {
            &&& plan_solved(final(graph).map@, final(graph).n(), final(routing)@)
            &&& forall|v: int|
                0 <= v < final(graph).costs@.len() ==> (#[trigger] final(graph).costs@[v]).usage
                    == count_users_upto(final(routing)@, final(routing)@.len() as int, v as usize)
        },
        r matches Err(e) ==> e matches RouteError::Solver { net, err },
        r matches Err(RouteError::Solver { net, err }) ==> {
            &&& net < old(routing)@.len()
            &&& (err matches SolveError::MissingPrePlan ==> (solver matches Solver::SimpleSteiner(
                ss,
            ) && old(routing)@[net as int].steiner_tree is None))
            &&& (err matches SolveError::UnreachableSink { signal, sink } ==> signal < old(
                graph,
            ).n() && sink < old(graph).n() && exists|g: FabricGraph|
                #[trigger] same_cost_frame(g, *old(graph))
                    && !crate::paths::finitely_reachable(g, signal, sink))
        },
{
    let ghost n_spec = old(graph).n();
    let n_nets = routing.len();
    let mut i: usize = 0;
    while i < n_nets
        invariant
            graph.wf(),
            graph.nodes == old(graph).nodes,
            graph.map == old(graph).map,
            graph.map_reversed == old(graph).map_reversed,
            graph.costs@.len() == old(graph).costs@.len(),
            forall|v: int|
                0 <= v < graph.costs@.len() ==> {
                    &&& (#[trigger] graph.costs@[v]).capacity == old(graph).costs@[v].capacity
                    &&& graph.costs@[v].historic_cost == old(graph).costs@[v].historic_cost
                },
            i <= n_nets,
            routing@.len() == n_nets,
            forall|j: int|
                0 <= j < routing@.len() ==> {
                    &&& (#[trigger] routing@[j]).signal == old(routing)@[j].signal
                    &&& routing@[j].sinks == old(routing)@[j].sinks
                    &&& routing@[j].steiner_tree == old(routing)@[j].steiner_tree
                },
            forall|j: int|
                0 <= j < i ==> crate::plan::routing_solved(
                    graph.map@,
                    n_spec,
                    #[trigger] routing@[j],
                ),
            forall|v: int|
                0 <= v < graph.costs@.len() ==> (#[trigger] graph.costs@[v]).usage
                    == count_users_upto(routing@, i as int, v as usize),
        decreases n_nets - i,
    {
        let ghost routing_before = routing@;
        let res = match solver {
            Solver::Simple(s) => s.solve(graph, &mut routing[i]),
            Solver::Steiner(s) => s.solve(graph, &mut routing[i]),
            Solver::SimpleSteiner(s) => s.solve(graph, &mut routing[i]),
        };
        match res {
            Ok(()) => {}
            Err(e) => {
                proof {
                    // the graph the net was solved against shares the frame
                    // of the iteration's entry state
                    assert(same_cost_frame(*graph, *old(graph)));
                }
                return Err(RouteError::Solver { net: i, err: e });
            }
        }
        proof {
            assert forall|v: usize|
                count_users_upto(routing@, i as int, v) == count_users_upto(
                routing_before,
                i as int,
                v,
            ) by {
                lemma_count_users_upto_agree(routing_before, routing@, i as int, v);
            }
        }
        match &routing[i].result {
            Some(rr) => {
                proof {
                    lemma_result_nodes_in_range(
                        graph.map@,
                        n_spec,
                        routing@[i as int].signal,
                        routing@[i as int].sinks@,
                        *rr,
                    );
                }
                let m = rr.nodes.len();
                let mut k: usize = 0;
                while k < m
                    invariant
                        k <= m,
                        m == rr.nodes@.len(),
                        graph.wf(),
                        graph.nodes == old(graph).nodes,
                        graph.map == old(graph).map,
                        graph.map_reversed == old(graph).map_reversed,
                        forall|j: int|
                            0 <= j <= i ==> crate::plan::routing_solved(
                                graph.map@,
                                n_spec,
                                #[trigger] routing@[j],
                            ),
                        graph.costs@.len() == old(graph).costs@.len(),
                        forall|v: int|
                            0 <= v < graph.costs@.len() ==> {
                                &&& (#[trigger] graph.costs@[v]).capacity == old(
                                    graph,
                                ).costs@[v].capacity
                                &&& graph.costs@[v].historic_cost == old(
                                    graph,
                                ).costs@[v].historic_cost
                            },
                        forall|v: int|
                            0 <= v < graph.costs@.len() ==> (#[trigger] graph.costs@[v]).usage
                                == count_users_upto(routing@, i as int, v as usize) + (
                            if in_prefix(rr.nodes@, k as int, v as usize) {
                                1int
                            } else {
                                0int
                            }),
                    decreases m - k,
                {
                    let x = rr.nodes[k];
                    proof {
                        lemma_count_users_upto_bound(routing@, i as int, x);
                        assert(!in_prefix(rr.nodes@, k as int, x)) by {
                            if in_prefix(rr.nodes@, k as int, x) {
                                let a = choose|a: int| 0 <= a < k && rr.nodes@[a] == x;
                                assert(rr.nodes@[a] == rr.nodes@[k as int]);
                                assert(nodup(rr.nodes@));
                            }
                        }
                    }
                    graph.costs[x].usage = graph.costs[x].usage + 1;
                    proof {
                        assert(in_prefix(rr.nodes@, k + 1, x)) by {
                            assert(rr.nodes@[k as int] == x);
                        }
                        assert forall|v: int|
                            0 <= v < graph.costs@.len() implies (#[trigger] graph.costs@[v]).usage
                            == count_users_upto(routing@, i as int, v as usize) + (
                        if in_prefix(rr.nodes@, k + 1, v as usize) {
                            1int
                        } else {
                            0int
                        }) by {
                            if v != x as int {
                                assert(graph.costs@.len() <= usize::MAX) by {
                                    assert(graph.costs.len() == graph.costs@.len());
                                }
                                assert((v as usize) as int == v);
                                assert(in_prefix(rr.nodes@, k + 1, v as usize) == in_prefix(
                                    rr.nodes@,
                                    k as int,
                                    v as usize,
                                )) by {
                                    if in_prefix(rr.nodes@, k + 1, v as usize) {
                                        let a = choose|a: int|
                                            0 <= a < k + 1 && rr.nodes@[a] == v as usize;
                                        if a == k {
                                            assert(rr.nodes@[k as int] == x);
                                        }
                                        assert(a < k);
                                    }
                                }
                            }
                        }
                    }
                    k += 1;
                }
                proof {
                    assert forall|v: int|
                        0 <= v < graph.costs@.len() implies (#[trigger] graph.costs@[v]).usage
                        == count_users_upto(routing@, i as int + 1, v as usize) by {
                        assert(in_prefix(rr.nodes@, rr.nodes@.len() as int, v as usize)
                            == rr.nodes@.contains(v as usize));
                        assert(uses_node(routing@[i as int], v as usize) == rr.nodes@.contains(
                            v as usize,
                        ));
                    }
                }
            }
            None => {
                proof {
                    assert(false);
                }
            }
        }
        i += 1;
    }

    Ok(())
}

/// Perform a single negotiation iteration: solve every net with the chosen
/// solver, accumulating usage as each net lands so later nets see earlier
/// nets' claims, then fold usage into historic cost and count conflicts.
///
/// On success, every net holds a well-formed result, and a conflict count of
/// zero guarantees that no node is claimed by two nets.
#[verifier::loop_isolation(false)]
#[verifier::rlimit(100)]
pub fn iteration(
    graph: &mut FabricGraph,
    routing: &mut Vec<Routing>,
    solver: &Solver,
    hist_fac: u64,
) -> (r: Result<IterationResult, RouteError>)
    requires
        old(graph).wf(),
        old(graph).usage_clear(),
        plan_in_range(old(graph).n(), old(routing)@),
        plan_steiner_wf(old(graph).n(), old(routing)@),
        old(routing)@.len() < u32::MAX,
    ensures
        final(graph).wf(),
        r is Ok ==> final(graph).usage_clear(),
        final(graph).nodes == old(graph).nodes,
        final(graph).map == old(graph).map,
        final(graph).map_reversed == old(graph).map_reversed,
        final(graph).costs@.len() == old(graph).costs@.len(),
        forall|v: int|
            0 <= v < final(graph).costs@.len() ==> {
                &&& (#[trigger] final(graph).costs@[v]).capacity == old(graph).costs@[v].capacity
                &&& final(graph).costs@[v].historic_cost >= old(graph).costs@[v].historic_cost
            },
        final(routing)@.len() == old(routing)@.len(),
        forall|i: int|
            0 <= i < final(routing)@.len() ==> {
                &&& (#[trigger] final(routing)@[i]).signal == old(routing)@[i].signal
                &&& final(routing)@[i].sinks == old(routing)@[i].sinks
                &&& final(routing)@[i].steiner_tree == old(routing)@[i].steiner_tree
            },
        r matches Ok(ir) ==> {
            &&& plan_solved(final(graph).map@, final(graph).n(), final(routing)@)
            &&& (ir.conflicts == 0 ==> plan_exclusive(final(routing)@))
            &&& ir.iteration == 0
            &&& ir.conflicts == spec_conflict_count(
                final(routing)@,
                final(graph).costs@.len() as int,
            )
            &&& ir.total_wire_use == spec_total_wire_use(final(routing)@)
            &&& ir.wire_reuse_milli == spec_wire_reuse_milli(final(routing)@)
        },
        // the update pass folds each node's overuse into its historic cost
        r is Ok ==> forall|v: int|
            0 <= v < final(graph).costs@.len() ==> (#[trigger] final(graph).costs@[v]).historic_cost
                == crate::plan::spec_new_historic(
                old(graph).costs@[v].historic_cost,
                crate::plan::count_users(final(routing)@, v as usize),
                hist_fac,
            ),
        r matches Err(e) ==> e matches RouteError::Solver { net, err },
        // a solver failure names its net and a genuine cause: a missing
        // pre-plan under the pre-planned solver, or an unreachable pair
        // under the usage state the net was solved against
        r matches Err(RouteError::Solver { net, err }) ==> {
            &&& net < old(routing)@.len()
            &&& (err matches SolveError::MissingPrePlan ==> (solver matches Solver::SimpleSteiner(
                ss,
            ) && old(routing)@[net as int].steiner_tree is None))
            &&& (err matches SolveError::UnreachableSink { signal, sink } ==> signal < old(
                graph,
            ).n() && sink < old(graph).n() && exists|g: FabricGraph|
                #[trigger] same_cost_frame(g, *old(graph))
                    && !crate::paths::finitely_reachable(g, signal, sink))
        },
{
    let start = now_micros();
    match solve_all(graph, routing, solver) {
        Ok(()) => {}
        Err(e) => {
            return Err(e);
        }
    }
    let result = update_and_analyze(graph, routing, hist_fac, start);
    Ok(result)
}

/// Fold the accumulated usage into historic costs, count the congested
/// nodes, and assemble the iteration's telemetry.  The usage counters must
/// equal the per-node claim counts of the solved plan.
#[verifier::loop_isolation(false)]
#[verifier::rlimit(100)]
fn update_and_analyze(
    graph: &mut FabricGraph,
    routing: &Vec<Routing>,
    hist_fac: u64,
    start: u64,
) -> (ir: IterationResult)
    requires
        old(graph).wf(),
        plan_in_range(old(graph).n(), routing@),
        plan_solved(old(graph).map@, old(graph).n(), routing@),
        routing@.len() < u32::MAX,
        forall|v: int|
            0 <= v < old(graph).costs@.len() ==> (#[trigger] old(graph).costs@[v]).usage
                == count_users_upto(routing@, routing@.len() as int, v as usize),
    ensures
        final(graph).wf(),
        final(graph).usage_clear(),
        final(graph).nodes == old(graph).nodes,
        final(graph).map == old(graph).map,
        final(graph).map_reversed == old(graph).map_reversed,
        final(graph).costs@.len() == old(graph).costs@.len(),
        forall|v: int|
            0 <= v < final(graph).costs@.len() ==> {
                &&& (#[trigger] final(graph).costs@[v]).capacity == old(graph).costs@[v].capacity
                &&& final(graph).costs@[v].historic_cost >= old(graph).costs@[v].historic_cost
                &&& final(graph).costs@[v].historic_cost == crate::plan::spec_new_historic(
                    old(graph).costs@[v].historic_cost,
                    crate::plan::count_users(routing@, v as usize),
                    hist_fac,
                )
            },
        ir.iteration == 0,
        ir.conflicts == spec_conflict_count(routing@, final(graph).costs@.len() as int),
        ir.total_wire_use == spec_total_wire_use(routing@),
        ir.wire_reuse_milli == spec_wire_reuse_milli(routing@),
        ir.conflicts == 0 ==> plan_exclusive(routing@),
{
    let ghost n_spec = old(graph).n();
    let ghost pre_costs = graph.costs@;
    let nc = graph.costs.len();
    let mut conflicts: usize = 0;
    let mut v: usize = 0;
    while v < nc
        invariant
            graph.wf(),
            graph.nodes == old(graph).nodes,
            graph.map == old(graph).map,
            graph.map_reversed == old(graph).map_reversed,
            v <= nc,
            nc == graph.costs@.len(),
            pre_costs.len() == nc,
            forall|w: int| v <= w < nc ==> graph.costs@[w] == pre_costs[w],
            forall|w: int|
                0 <= w < v ==> {
                    &&& (#[trigger] graph.costs@[w]).usage == 0
                    &&& graph.costs@[w].capacity == pre_costs[w].capacity
                    &&& graph.costs@[w].historic_cost == crate::node::spec_updated_historic(
                        pre_costs[w],
                        hist_fac,
                    )
                    &&& graph.costs@[w].historic_cost >= pre_costs[w].historic_cost
                },
            conflicts <= v,
            conflicts == spec_overused_count(pre_costs, v as int),
            conflicts == 0 ==> forall|w: int|
                0 <= w < v ==> !((#[trigger] pre_costs[w]).usage > pre_costs[w].capacity),
        decreases nc - v,
    {
        let congested = graph.costs[v].update(hist_fac);
        if congested {
            conflicts = conflicts + 1;
        }
        v += 1;
    }

    proof {
        if conflicts == 0 {
            crate::plan::lemma_full_usage_exclusive(graph.map@, n_spec, routing@, pre_costs);
        }
        assert(graph.costs@.len() <= usize::MAX) by {
            assert(graph.costs.len() == graph.costs@.len());
        }
        lemma_update_accounting(
            pre_costs,
            old(graph).costs@,
            graph.costs@,
            routing@,
            hist_fac,
            conflicts as nat,
        );
    }

    let end = now_micros();
    let duration = end.saturating_sub(start);
    analyze_result(conflicts, duration, graph, routing)
}

/// Run the negotiated-congestion loop until no node is claimed twice or the
/// iteration cap is reached.
///
/// Under the pre-planned Steiner solver, pre-planning runs once up front and
/// again after two hundred consecutive iterations with an unchanged conflict
/// count.  On success every net holds a well-formed result and the plan is
/// exclusive; reaching the cap with conflicts remaining reports the final
/// iteration's telemetry.
#[verifier::loop_isolation(false)]
#[verifier::rlimit(100)]
pub fn route<L: Logging>(
    route_plan: &mut Vec<Routing>,
    graph: &mut FabricGraph,
    config: Config,
    logger: &mut L,
) -> (r: Result<IterationResult, RouteError>)
    requires
        old(graph).wf(),
        old(graph).usage_clear(),
        plan_in_range(old(graph).n(), old(route_plan)@),
        plan_steiner_wf(old(graph).n(), old(route_plan)@),
        old(route_plan)@.len() < u32::MAX,
    ensures
        final(graph).wf(),
        final(graph).nodes == old(graph).nodes,
        final(graph).map == old(graph).map,
        final(graph).map_reversed == old(graph).map_reversed,
        final(route_plan)@.len() == old(route_plan)@.len(),
        forall|i: int|
            0 <= i < final(route_plan)@.len() ==> {
                &&& (#[trigger] final(route_plan)@[i]).signal == old(route_plan)@[i].signal
                &&& final(route_plan)@[i].sinks == old(route_plan)@[i].sinks
            },
        r matches Ok(ir) ==> {
            &&& ir.conflicts == 0
            &&& ir.iteration <= config.max_iterations
            &&& ir.test_case == config
            &&& plan_solved(final(graph).map@, final(graph).n(), final(route_plan)@)
            &&& plan_exclusive(final(route_plan)@)
            &&& ir.total_wire_use == spec_total_wire_use(final(route_plan)@)
            &&& ir.wire_reuse_milli == spec_wire_reuse_milli(final(route_plan)@)
        },
        // hitting the cap reports the final iteration faithfully: the cap
        // index, the run's configuration, the solved plan's metrics, and a
        // conflict count that is exactly the number of shared nodes
        r matches Err(RouteError::Unresolved(ir)) ==> {
            &&& ir.conflicts > 0
            &&& ir.iteration == config.max_iterations
            &&& ir.test_case == config
            &&& plan_solved(final(graph).map@, final(graph).n(), final(route_plan)@)
            &&& ir.conflicts == spec_conflict_count(
                final(route_plan)@,
                final(graph).costs@.len() as int,
            )
            &&& ir.total_wire_use == spec_total_wire_use(final(route_plan)@)
            &&& ir.wire_reuse_milli == spec_wire_reuse_milli(final(route_plan)@)
        },
        // a solver failure names its net; under the pre-planned solver every
        // net is planned before solving, so a missing pre-plan cannot escape
        r matches Err(RouteError::Solver { net, err }) ==> {
            &&& net < old(route_plan)@.len()
            &&& !(err matches SolveError::MissingPrePlan)
            &&& (err matches SolveError::UnreachableSink { signal, sink } ==> signal < old(
                graph,
            ).n() && sink < old(graph).n() && exists|g: FabricGraph|
                #[trigger] same_structure(g, *old(graph))
                    && !crate::paths::finitely_reachable(g, signal, sink))
        },
        // a planning failure names the failing net, all of whose sinks were
        // unreachable under some usage/historic state over the same fabric
        r matches Err(RouteError::PrePlan { net, err }) ==> {
            &&& net < old(route_plan)@.len()
            &&& err matches SolveError::UnreachableSink { signal, sink } && signal == old(
                route_plan,
            )@[net as int].signal && old(route_plan)@[net as int].sinks@.contains(sink)
            &&& exists|g: FabricGraph|
                #[trigger] same_structure(g, *old(graph)) && (forall|j: int|
                    0 <= j < old(route_plan)@[net as int].sinks@.len()
                        ==> !crate::paths::finitely_reachable(
                        g,
                        old(route_plan)@[net as int].signal,
                        #[trigger] old(route_plan)@[net as int].sinks@[j],
                    ))
        },
        r matches Err(RouteError::OverlappingPrePlan { net, node }) ==> {
            &&& net < old(route_plan)@.len()
            &&& node < old(graph).n()
            &&& reserved_before(final(route_plan)@, net as int, node)
        },
{
    let ghost n0 = old(graph).n();
    let hist_fac = config.hist_factor;
    let mut i: usize = 0;
    let mut last_conflicts: usize = 0;
    let mut same_conflicts: u64 = 0;
    match &config.solver {
        Solver::SimpleSteiner(_) => {
            match pre_process(graph, route_plan) {
                Ok(()) => {}
                Err(e) => {
                    proof {
                        match &e {
                            RouteError::PrePlan { net, err } => {
                                let net = *net;
                                let g = choose|g: FabricGraph|
                                    #[trigger] same_cost_frame(g, *old(graph)) && (forall|j: int|
                                        0 <= j < old(route_plan)@[net as int].sinks@.len()
                                            ==> !crate::paths::finitely_reachable(
                                            g,
                                            old(route_plan)@[net as int].signal,
                                            #[trigger] old(route_plan)@[net as int].sinks@[j],
                                        ));
                                assert(same_structure(g, *old(graph)));
                            }
                            _ => {}
                        }
                    }
                    return Err(e);
                }
            }
        }
        _ => {}
    }
    let max_iterations = config.max_iterations;
    loop
        invariant
            graph.wf(),
            graph.usage_clear(),
            n0 == graph.n(),
            graph.nodes == old(graph).nodes,
            graph.map == old(graph).map,
            graph.map_reversed == old(graph).map_reversed,
            route_plan@.len() == old(route_plan)@.len(),
            route_plan@.len() < u32::MAX,
            forall|j: int|
                0 <= j < route_plan@.len() ==> {
                    &&& (#[trigger] route_plan@[j]).signal == old(route_plan)@[j].signal
                    &&& route_plan@[j].sinks == old(route_plan)@[j].sinks
                },
            plan_in_range(n0, route_plan@),
            plan_steiner_wf(n0, route_plan@),
            config.solver matches Solver::SimpleSteiner(ss) ==> forall|j: int|
                0 <= j < route_plan@.len() ==> (#[trigger] route_plan@[j]).steiner_tree is Some,
            i <= max_iterations,
        decreases max_iterations - i,
    {
        let ghost graph_at_iter = *graph;
        let mut result = match iteration(graph, route_plan, &config.solver, hist_fac) {
            Ok(ir) => ir,
            Err(e) => {
                proof {
                    match &e {
                        RouteError::Solver { net, err } => {
                            match err {
                                SolveError::UnreachableSink { signal, sink } => {
                                    let signal = *signal;
                                    let sink = *sink;
                                    let g = choose|g: FabricGraph|
                                        #[trigger] same_cost_frame(g, graph_at_iter)
                                            && !crate::paths::finitely_reachable(g, signal, sink);
                                    assert(same_structure(g, *old(graph)));
                                }
                                _ => {}
                            }
                        }
                        _ => {}
                    }
                }
                return Err(e);
            }
        };
        result.iteration = i;
        result.test_case = config;

        logger.log(&result);

        if result.conflicts == last_conflicts {
            same_conflicts = same_conflicts.saturating_add(1);
        }
        if result.conflicts == 0 {
            return Ok(result);
        }
        if i == max_iterations {
            return Err(RouteError::Unresolved(result));
        }
        last_conflicts = result.conflicts;
        if same_conflicts == 200 {
            match &config.solver {
                Solver::SimpleSteiner(_) => {
                    let ghost graph_at_replan = *graph;
                    let ghost plan_at_replan = route_plan@;
                    match pre_process(graph, route_plan) {
                        Ok(()) => {}
                        Err(e) => {
                            proof {
                                match &e {
                                    RouteError::PrePlan { net, err } => {
                                        let net = *net;
                                        let g = choose|g: FabricGraph|
                                            #[trigger] same_cost_frame(g, graph_at_replan) && (
                                            forall|j: int|
                                                0 <= j < plan_at_replan[net as int].sinks@.len()
                                                    ==> !crate::paths::finitely_reachable(
                                                    g,
                                                    plan_at_replan[net as int].signal,
                                                    #[trigger] plan_at_replan[net as int].sinks@[j],
                                                ));
                                        assert(same_structure(g, *old(graph)));
                                        assert(plan_at_replan[net as int].sinks == old(
                                            route_plan,
                                        )@[net as int].sinks);
                                    }
                                    _ => {}
                                }
                            }
                            return Err(e);
                        }
                    }
                }
                _ => {}
            }
        }
        i += 1;
    }
}

/// Validate a route plan against the graph (see [`crate::validate::validate`]):
/// accepted exactly when every net has an in-range, well-connected result
/// and no node is claimed by two nets.
pub fn validate_routing(graph: &FabricGraph, routing: &Vec<Routing>) -> (r: Result<
    (),
    ValidationError,
>)
    requires
        graph.wf(),
    ensures
        r is Ok <==> crate::validate::spec_plan_valid(graph.map@, graph.n(), routing@),
{
    crate::validate::validate(routing, graph)
}

} // verus!
