//! The routing-validation oracle: exclusivity, index ranges, and
//! reachability of every sink inside its net's claimed node set.
//!
//! `validate` returns `Ok` exactly when the plan satisfies
//! [`spec_plan_valid`]; each error variant names the offending net and node.

use vstd::prelude::*;

use crate::fabric_graph::FabricGraph;
use crate::fabric_graph::Routing;
use crate::node::Edge;
use crate::paths::adj_path_ok;
use crate::paths::edge_exists;
use crate::plan::nodup;
use crate::plan::plan_exclusive;
use crate::plan::prefix_exclusive;
use crate::plan::uses_node;

verus! {

/// There is a path from `s` to `t` whose nodes all belong to `allowed`.
pub open spec fn set_reachable(
    map: Seq<Vec<Edge>>,
    n: nat,
    s: usize,
    t: usize,
    allowed: Seq<usize>,
) -> bool {
    exists|p: Seq<usize>|
        adj_path_ok(map, n, p, s, t) && (forall|i: int|
            0 <= i < p.len() ==> allowed.contains(#[trigger] p[i]))
}

/// The reachability condition the validator enforces for one signal/sink
/// pair: a sink equal to its signal is always fine, otherwise a path within
/// the claimed nodes must exist.
pub open spec fn reach_cond(
    map: Seq<Vec<Edge>>,
    n: nat,
    signal: usize,
    sink: usize,
    allowed: Seq<usize>,
) -> bool {
    signal == sink || set_reachable(map, n, signal, sink, allowed)
}

/// All conditions the validator enforces on a single net.
pub open spec fn net_valid(map: Seq<Vec<Edge>>, n: nat, r: Routing) -> bool {
    &&& r.result is Some
    &&& forall|k: int|
        0 <= k < r.result->Some_0.nodes@.len() ==> (#[trigger] r.result->Some_0.nodes@[k]) < n
    &&& nodup(r.result->Some_0.nodes@)
    &&& r.signal < n
    &&& forall|k: int| 0 <= k < r.sinks@.len() ==> (#[trigger] r.sinks@[k]) < n
    &&& forall|k: int|
        0 <= k < r.sinks@.len() ==> reach_cond(
            map,
            n,
            r.signal,
            #[trigger] r.sinks@[k],
            r.result->Some_0.nodes@,
        )
}

/// A plan is valid when every net is valid on its own and no node is claimed
/// by two nets.
pub open spec fn spec_plan_valid(map: Seq<Vec<Edge>>, n: nat, plan: Seq<Routing>) -> bool {
    &&& forall|i: int| 0 <= i < plan.len() ==> net_valid(map, n, #[trigger] plan[i])
    &&& plan_exclusive(plan)
}

/// What went wrong during validation.
#[derive(Clone, Debug, PartialEq, Eq, Structural)]
pub enum ValidationError {
    /// The net has no routing result.
    MissingResult { net: usize },
    /// The net claims a node index that is out of range.
    InvalidNode { net: usize, node: usize },
    /// The node is claimed twice: by this net, and before that by
    /// `prior_net` (the same net when its own list repeats the node).
    ReusedNode { net: usize, prior_net: usize, node: usize },
    /// The net's signal index is out of range.
    InvalidSignal { net: usize, signal: usize },
    /// One of the net's sink indices is out of range.
    InvalidSink { net: usize, sink: usize },
    /// The sink cannot be reached from the signal inside the claimed nodes.
    UnreachableSink { net: usize, signal: usize, sink: usize },
}

/// Number of `true` entries.
pub open spec fn count_trues(s: Seq<bool>) -> nat
    decreases s.len(),
{
    if s.len() == 0 {
        0
    } else {
        count_trues(s.drop_last()) + if s.last() {
            1nat
        } else {
            0nat
        }
    }
}

pub proof fn lemma_count_trues_bound(s: Seq<bool>)
    ensures
        count_trues(s) <= s.len(),
    decreases s.len(),
{
    if s.len() > 0 {
        lemma_count_trues_bound(s.drop_last());
    }
}

pub proof fn lemma_count_trues_update(s: Seq<bool>, i: int)
    requires
        0 <= i < s.len(),
        !s[i],
    ensures
        count_trues(s.update(i, true)) == count_trues(s) + 1,
    decreases s.len(),
{
    let t = s.update(i, true);
    if i == s.len() - 1 {
        assert(t.drop_last() =~= s.drop_last());
    } else {
        assert(t.drop_last() =~= s.drop_last().update(i, true));
        assert(t.last() == s.last());
        lemma_count_trues_update(s.drop_last(), i);
    }
}

/// A full count means every entry is `true`.
pub proof fn lemma_count_trues_saturated(s: Seq<bool>)
    requires
        count_trues(s) == s.len(),
    ensures
        forall|i: int| 0 <= i < s.len() ==> s[i],
    decreases s.len(),
{
    if s.len() > 0 {
        lemma_count_trues_bound(s.drop_last());
        lemma_count_trues_saturated(s.drop_last());
        assert forall|i: int| 0 <= i < s.len() implies s[i] by {
            if i < s.len() - 1 {
                assert(s.drop_last()[i]);
            }
        }
    }
}

/// The tail of a path is a path.
proof fn lemma_path_tail(map: Seq<Vec<Edge>>, n: nat, p: Seq<usize>, s: usize, t: usize)
    requires
        adj_path_ok(map, n, p, s, t),
        p.len() >= 2,
    ensures
        adj_path_ok(map, n, p.subrange(1, p.len() as int), p[1], t),
{
    let q = p.subrange(1, p.len() as int);
    assert(q.len() == p.len() - 1);
    assert forall|i: int| 0 <= i < q.len() - 1 implies edge_exists(
        map,
        #[trigger] q[i] as int,
        q[i + 1] as int,
    ) by {
        assert(q[i] == p[i + 1]);
        assert(q[i + 1] == p[i + 2]);
        assert(edge_exists(map, p[i + 1] as int, p[i + 2] as int));
    }
}

/// Every successor of `v` that lies in `allowed` is already visited.
pub open spec fn succs_visited(
    map: Seq<Vec<Edge>>,
    allowed: Seq<usize>,
    visited: Seq<bool>,
    v: int,
) -> bool {
    forall|k: int|
        0 <= k < map[v]@.len() && allowed.contains((#[trigger] map[v]@[k]).node_id) ==> visited[map[v]@[k].node_id as int]
}

/// A visited set that is closed under allowed edges and contains the head of
/// an allowed path contains its last node too.
proof fn lemma_closed_absorbs_paths(
    map: Seq<Vec<Edge>>,
    n: nat,
    allowed: Seq<usize>,
    visited: Seq<bool>,
    p: Seq<usize>,
    s: usize,
    t: usize,
)
    requires
        map.len() == n,
        visited.len() == n,
        adj_path_ok(map, n, p, s, t),
        forall|i: int| 0 <= i < p.len() ==> allowed.contains(#[trigger] p[i]),
        forall|v: int| 0 <= v < n && visited[v] ==> succs_visited(map, allowed, visited, v),
        visited[s as int],
    ensures
        visited[t as int],
    decreases p.len(),
{
    if p.len() == 1 {
        assert(t == s);
    } else {
        let w = p[1];
        assert(edge_exists(map, s as int, w as int));
        let k = choose|k: int| 0 <= k < map[s as int]@.len() && (#[trigger] map[s as int]@[k]).node_id == w;
        assert(allowed.contains(p[1]));
        assert(succs_visited(map, allowed, visited, s as int));
        assert(visited[w as int]);
        lemma_path_tail(map, n, p, s, t);
        let q = p.subrange(1, p.len() as int);
        assert(forall|i: int| 0 <= i < q.len() ==> allowed.contains(#[trigger] q[i])) by {
            assert(forall|i: int| 0 <= i < q.len() ==> q[i] == p[i + 1]);
        }
        lemma_closed_absorbs_paths(map, n, allowed, visited, q, w, t);
    }
}

/// Membership mask over node indices for a list of allowed nodes.
fn build_mask(n: usize, allowed: &Vec<usize>) -> (mask: Vec<bool>)
    requires
        forall|k: int| 0 <= k < allowed@.len() ==> (#[trigger] allowed@[k]) < n,
    ensures
        mask@.len() == n,
        forall|v: int| 0 <= v < n ==> mask@[v] == allowed@.contains(v as usize),
{
    let mut mask: Vec<bool> = Vec::new();
    let mut i: usize = 0;
    while i < n
        invariant
            i <= n,
            mask@.len() == i,
            forall|v: int| 0 <= v < i ==> !mask@[v],
        decreases n - i,
    {
        mask.push(false);
        i += 1;
    }
    let mut k: usize = 0;
    while k < allowed.len()
        invariant
            k <= allowed@.len(),
            mask@.len() == n,
            forall|j: int| 0 <= j < allowed@.len() ==> (#[trigger] allowed@[j]) < n,
            forall|j: int| 0 <= j < k ==> mask@[allowed@[j] as int],
            forall|v: int|
                0 <= v < n && mask@[v] ==> exists|j: int|
                    0 <= j < k && allowed@[j] == v as usize,
        decreases allowed@.len() - k,
    {
        let x = allowed[k];
        let ghost before = mask@;
        mask[x] = true;
        proof {
            assert forall|v: int|
                0 <= v < n && mask@[v] implies exists|j: int|
                0 <= j < k + 1 && allowed@[j] == v as usize by {
                if v == x as int {
                    assert(allowed@[k as int] == v as usize);
                } else {
                    assert(before[v]);
                }
            }
        }
        k += 1;
    }
    proof {
        assert forall|v: int| 0 <= v < n implies mask@[v] == allowed@.contains(v as usize) by {
            if mask@[v] {
                let j = choose|j: int| 0 <= j < allowed@.len() && allowed@[j] == v as usize;
                assert(allowed@.contains(v as usize));
            }
            if allowed@.contains(v as usize) {
                let j = choose|j: int| 0 <= j < allowed@.len() && allowed@[j] == v as usize;
                assert(mask@[allowed@[j] as int]);
            }
        }
    }
    mask
}

/// Breadth-first search restricted to `allowed`, deciding the validator's
/// reachability condition exactly.
pub fn is_reachable_within_set(
    graph: &FabricGraph,
    start: usize,
    target: usize,
    allowed: &Vec<usize>,
) -> (r: bool)
    requires
        graph.wf(),
        start < graph.n(),
        target < graph.n(),
        forall|k: int| 0 <= k < allowed@.len() ==> (#[trigger] allowed@[k]) < graph.n(),
    ensures
        r == reach_cond(graph.map@, graph.n(), start, target, allowed@),
{
    let ghost map = graph.map@;
    let ghost n_spec = graph.n();
    if start == target {
        return true;
    }
    let n = graph.nodes.len();
    let mask = build_mask(n, allowed);
    if !mask[start] || !mask[target] {
        proof {
            // any path within `allowed` would put its endpoints in `allowed`
            if set_reachable(map, n_spec, start, target, allowed@) {
                let p = choose|p: Seq<usize>|
                    adj_path_ok(map, n_spec, p, start, target) && (forall|i: int|
                        0 <= i < p.len() ==> allowed@.contains(#[trigger] p[i]));
                assert(allowed@.contains(p[0]));
                assert(allowed@.contains(p[p.len() - 1]));
            }
        }
        return false;
    }

    let mut visited: Vec<bool> = Vec::new();
    let mut i: usize = 0;
    while i < n
        invariant
            i <= n,
            visited@.len() == i,
            forall|v: int| 0 <= v < i ==> !visited@[v],
        decreases n - i,
    {
        visited.push(false);
        i += 1;
    }
    let mut queue: Vec<usize> = Vec::new();
    let mut idx: usize = 0;
    let mut visited_count: usize = 1;
    visited[start] = true;
    queue.push(start);

    // ghost witness paths for every visited node
    let ghost mut wit: Map<usize, Seq<usize>> = Map::empty().insert(start, seq![start]);
    proof {
        lemma_count_trues_update(Seq::new(n as nat, |v: int| false), start as int);
        assert(Seq::new(n as nat, |v: int| false).update(start as int, true) =~= visited@);
        assert(count_trues(Seq::new(n as nat, |v: int| false)) == 0) by {
            lemma_count_all_false(n as nat);
        }
        // the start node is pending at the head of the queue
        assert(queue@[0] == start);
    }

    while idx < queue.len()
        invariant
            graph.wf(),
            map == graph.map@,
            n_spec == graph.n(),
            n == graph.nodes@.len(),
            start < n,
            target < n,
            start != target,
            forall|k: int| 0 <= k < allowed@.len() ==> (#[trigger] allowed@[k]) < n,
            mask@.len() == n,
            forall|v: int| 0 <= v < n ==> mask@[v] == allowed@.contains(v as usize),
            visited@.len() == n,
            idx <= queue@.len(),
            visited_count == count_trues(visited@),
            visited_count <= n,
            // queue entries are visited, in-range nodes
            forall|j: int| 0 <= j < queue@.len() ==> (#[trigger] queue@[j]) < n,
            forall|j: int| 0 <= j < queue@.len() ==> visited@[queue@[j] as int],
            // every visited node has a witness path within allowed
            visited@[start as int],
            forall|v: int|
                0 <= v < n && visited@[v] ==> wit.contains_key(v as usize) && adj_path_ok(
                    map,
                    n_spec,
                    wit[v as usize],
                    start,
                    v as usize,
                ) && (forall|i2: int|
                    0 <= i2 < wit[v as usize].len() ==> allowed@.contains(
                        #[trigger] wit[v as usize][i2],
                    )),
            // the target has not been visited, else we would have returned
            !visited@[target as int],
            // every visited node is either pending in the queue or fully expanded
            forall|v: int|
                0 <= v < n && visited@[v] ==> (exists|j: int|
                    idx <= j < queue@.len() && queue@[j] == v as usize) || succs_visited(
                    map,
                    allowed@,
                    visited@,
                    v,
                ),
        decreases (queue@.len() - idx) + (n - visited_count),
    {
        let u = queue[idx];
        idx += 1;
        let ghost visited_at_start = visited@;
        let ghost queue_at_start = queue@;
        let ghost idx_at_start = idx;

        let row_len = graph.map[u].len();
        let mut k: usize = 0;
        while k < row_len
            invariant
                graph.wf(),
                map == graph.map@,
                n_spec == graph.n(),
                n == graph.nodes@.len(),
                start < n,
                target < n,
                start != target,
                u < n,
                row_len == map[u as int]@.len(),
                k <= row_len,
                forall|k2: int| 0 <= k2 < allowed@.len() ==> (#[trigger] allowed@[k2]) < n,
                mask@.len() == n,
                forall|v: int| 0 <= v < n ==> mask@[v] == allowed@.contains(v as usize),
                visited@.len() == n,
                idx == idx_at_start,
                idx <= queue@.len(),
                visited_count == count_trues(visited@),
                visited_count <= n,
                forall|j: int| 0 <= j < queue@.len() ==> (#[trigger] queue@[j]) < n,
                forall|j: int| 0 <= j < queue@.len() ==> visited@[queue@[j] as int],
                visited@[start as int],
                visited@[u as int],
                forall|v: int|
                    0 <= v < n && visited@[v] ==> wit.contains_key(v as usize) && adj_path_ok(
                        map,
                        n_spec,
                        wit[v as usize],
                        start,
                        v as usize,
                    ) && (forall|i2: int|
                        0 <= i2 < wit[v as usize].len() ==> allowed@.contains(
                            #[trigger] wit[v as usize][i2],
                        )),
                !visited@[target as int],
                // monotonicity within this expansion
                forall|v: int| 0 <= v < n && visited_at_start[v] ==> visited@[v],
                queue@.len() >= queue_at_start.len(),
                forall|j: int| 0 <= j < queue_at_start.len() ==> queue@[j] == queue_at_start[j],
                // growth is bounded by newly visited nodes
                queue@.len() - queue_at_start.len() <= count_trues(visited@) - count_trues(
                    visited_at_start,
                ),
                // pending-or-expanded, except u which is expanded up to k
                forall|v: int|
                    0 <= v < n && visited@[v] && v != u as int ==> (exists|j: int|
                        idx <= j < queue@.len() && queue@[j] == v as usize) || succs_visited(
                        map,
                        allowed@,
                        visited@,
                        v,
                    ),
                // u's successors up to k are visited when allowed
                forall|k2: int|
                    0 <= k2 < k && allowed@.contains((#[trigger] map[u as int]@[k2]).node_id)
                        ==> visited@[map[u as int]@[k2].node_id as int],
            decreases row_len - k,
        {
            let row = &graph.map[u];
            let w: usize = row[k].node_id;
            assert(w < n);
            if mask[w] && !visited[w] {
                let ghost prev_visited = visited@;
                visited[w] = true;
                proof {
                    lemma_count_trues_update(prev_visited, w as int);
                    assert(prev_visited.update(w as int, true) =~= visited@);
                    lemma_count_trues_bound(visited@);
                }
                visited_count += 1;
                proof {
                    // extend the witness path
                    let pu = wit[u];
                    wit = wit.insert(w, pu.push(w));
                    let q = pu.push(w);
                    assert(edge_exists(map, u as int, w as int)) by {
                        assert(map[u as int]@[k as int].node_id == w);
                    }
                    assert(pu[pu.len() - 1] == u);
                    assert(q[q.len() - 1] == w);
                    assert forall|i2: int| 0 <= i2 < q.len() implies (#[trigger] q[i2]) < n_spec by {
                        if i2 < q.len() - 1 {
                            assert(q[i2] == pu[i2]);
                        }
                    }
                    assert forall|i2: int| 0 <= i2 < q.len() - 1 implies edge_exists(
                        map,
                        #[trigger] q[i2] as int,
                        q[i2 + 1] as int,
                    ) by {
                        if i2 < q.len() - 2 {
                            assert(q[i2] == pu[i2]);
                            assert(q[i2 + 1] == pu[i2 + 1]);
                        } else {
                            assert(q[i2] == u);
                            assert(q[i2 + 1] == w);
                        }
                    }
                    assert(adj_path_ok(map, n_spec, q, start, w));
                    assert forall|i2: int| 0 <= i2 < q.len() implies allowed@.contains(
                        #[trigger] q[i2],
                    ) by {
                        if i2 < q.len() - 1 {
                            assert(q[i2] == pu[i2]);
                        } else {
                            assert(q[i2] == w);
                            assert(mask@[w as int]);
                        }
                    }
                }
                if w == target {
                    proof {
                        assert(set_reachable(map, n_spec, start, target, allowed@)) by {
                            let q = wit[target];
                            assert(adj_path_ok(map, n_spec, q, start, target) && (forall|i2: int|
                                0 <= i2 < q.len() ==> allowed@.contains(#[trigger] q[i2])));
                        }
                    }
                    return true;
                }
                let ghost prev_queue = queue@;
                queue.push(w);
                proof {
                    assert(forall|x: int| 0 <= x < n && prev_visited[x] ==> visited@[x]);
                    assert forall|v: int|
                        0 <= v < n && visited@[v] && v != u as int implies (exists|j: int|
                        idx <= j < queue@.len() && queue@[j] == v as usize) || succs_visited(
                        map,
                        allowed@,
                        visited@,
                        v,
                    ) by {
                        if v == w as int {
                            assert(queue@[queue@.len() - 1] == v as usize);
                        } else {
                            if exists|j: int|
                                idx <= j < prev_queue.len() && prev_queue[j] == v as usize {
                                let j = choose|j: int|
                                    idx <= j < prev_queue.len() && prev_queue[j] == v as usize;
                                assert(queue@[j] == v as usize);
                            }
                        }
                    }
                }
            }
            k += 1;
        }
        proof {
            // u is now fully expanded, and everything else keeps its slot
            assert(succs_visited(map, allowed@, visited@, u as int));
        }
    }
    proof {
        // the queue is exhausted: the visited set is closed, so no allowed
        // path can leave it, and the target was never visited
        assert forall|v: int| 0 <= v < n && visited@[v] implies succs_visited(
            map,
            allowed@,
            visited@,
            v,
        ) by {
            if exists|j: int| idx <= j < queue@.len() && queue@[j] == v as usize {
                assert(idx >= queue@.len());
            }
        }
        if set_reachable(map, n_spec, start, target, allowed@) {
            let p = choose|p: Seq<usize>|
                adj_path_ok(map, n_spec, p, start, target) && (forall|i2: int|
                    0 <= i2 < p.len() ==> allowed@.contains(#[trigger] p[i2]));
            assert(map.len() == n_spec);
            lemma_closed_absorbs_paths(map, n_spec, allowed@, visited@, p, start, target);
        }
    }
    false
}

/// Validate a finished route plan against the graph.
///
/// Returns `Ok` exactly when every net has a well-ranged result whose sinks
/// are reachable within the claimed nodes, and no node is claimed twice.
/// Each error names the first offending net.
#[verifier::loop_isolation(false)]
pub fn validate(route_plan: &Vec<Routing>, graph: &FabricGraph) -> (r: Result<
    (),
    ValidationError,
>)
    requires
        graph.wf(),
    ensures
        r is Ok <==> spec_plan_valid(graph.map@, graph.n(), route_plan@),
        r matches Err(ValidationError::MissingResult { net }) ==> net < route_plan@.len()
            && route_plan@[net as int].result is None,
        r matches Err(ValidationError::InvalidNode { net, node }) ==> net < route_plan@.len()
            && node >= graph.n() && uses_node(route_plan@[net as int], node),
        r matches Err(ValidationError::ReusedNode { net, prior_net, node }) ==> {
            &&& net < route_plan@.len()
            &&& prior_net <= net
            &&& uses_node(route_plan@[net as int], node)
            &&& uses_node(route_plan@[prior_net as int], node)
            &&& (prior_net == net ==> !nodup(route_plan@[net as int].result->Some_0.nodes@))
        },
        r matches Err(ValidationError::InvalidSignal { net, signal }) ==> net < route_plan@.len()
            && signal == route_plan@[net as int].signal && signal >= graph.n(),
        r matches Err(ValidationError::InvalidSink { net, sink }) ==> net < route_plan@.len()
            && route_plan@[net as int].sinks@.contains(sink) && sink >= graph.n(),
        r matches Err(ValidationError::UnreachableSink { net, signal, sink }) ==> net
            < route_plan@.len() && signal == route_plan@[net as int].signal
            && route_plan@[net as int].sinks@.contains(sink) && !reach_cond(
            graph.map@,
            graph.n(),
            signal,
            sink,
            route_plan@[net as int].result->Some_0.nodes@,
        ),
{
    let ghost map = graph.map@;
    let ghost n_spec = graph.n();
    let ghost plan = route_plan@;
    let n = graph.nodes.len();

    let mut seen: Vec<bool> = Vec::new();
    let mut claimed_by: Vec<usize> = Vec::new();
    let mut z: usize = 0;
    while z < n
        invariant
            z <= n,
            seen@.len() == z,
            claimed_by@.len() == z,
            forall|v: int| 0 <= v < z ==> !seen@[v],
        decreases n - z,
    {
        seen.push(false);
        claimed_by.push(0);
        z += 1;
    }

    let mut i: usize = 0;
    while i < route_plan.len()
        invariant
            graph.wf(),
            map == graph.map@,
            n_spec == graph.n(),
            plan == route_plan@,
            n == graph.nodes@.len(),
            i <= plan.len(),
            seen@.len() == n,
            claimed_by@.len() == n,
            forall|j: int| 0 <= j < i ==> net_valid(map, n_spec, #[trigger] plan[j]),
            prefix_exclusive(plan, i as int),
            forall|x: int|
                0 <= x < n ==> ((#[trigger] seen@[x]) <==> exists|j: int|
                    0 <= j < i && uses_node(plan[j], x as usize)),
            // the claimant record points at a net that claims the node
            forall|x: int|
                0 <= x < n && seen@[x] ==> (#[trigger] claimed_by@[x]) < i && uses_node(
                    plan[claimed_by@[x] as int],
                    x as usize,
                ),
        decreases plan.len() - i,
    {
        let tree = &route_plan[i];
        match &tree.result {
            None => {
                proof {
                    assert(!net_valid(map, n_spec, plan[i as int]));
                }
                return Err(ValidationError::MissingResult { net: i });
            },
            Some(result) => {
                // every claimed node index is in range
                let mut k: usize = 0;
                while k < result.nodes.len()
                    invariant
                        n == graph.nodes@.len(),
                        *result == plan[i as int].result->Some_0,
                        i < plan.len(),
                        k <= result.nodes@.len(),
                        forall|a: int| 0 <= a < k ==> (#[trigger] result.nodes@[a]) < n,
                    decreases result.nodes@.len() - k,
                {
                    let x = result.nodes[k];
                    if x >= n {
                        proof {
                            assert(uses_node(plan[i as int], x)) by {
                                assert(plan[i as int].result->Some_0.nodes@[k as int] == x);
                            }
                            assert(!net_valid(map, n_spec, plan[i as int]));
                        }
                        return Err(ValidationError::InvalidNode { net: i, node: x });
                    }
                    k += 1;
                }

                // no claimed node may already be claimed, by this net or an
                // earlier one
                let ghost seen0 = seen@;
                k = 0;
                while k < result.nodes.len()
                    invariant
                        n == graph.nodes@.len(),
                        *result == plan[i as int].result->Some_0,
                        i < plan.len(),
                        k <= result.nodes@.len(),
                        seen@.len() == n,
                        seen0.len() == n,
                        claimed_by@.len() == n,
                        forall|a: int| 0 <= a < result.nodes@.len() ==> (#[trigger] result.nodes@[a]) < n,
                        forall|x: int|
                            0 <= x < n ==> ((#[trigger] seen0[x]) <==> exists|j: int|
                                0 <= j < i && uses_node(plan[j], x as usize)),
                        forall|x: int|
                            0 <= x < n && seen0[x] ==> (#[trigger] claimed_by@[x]) < i
                                && uses_node(plan[claimed_by@[x] as int], x as usize),
                        forall|x: int|
                            0 <= x < n && seen@[x] && !seen0[x] ==> (#[trigger] claimed_by@[x])
                                == i,
                        // nothing in the prefix was claimed before this net
                        forall|a: int| 0 <= a < k ==> !seen0[(#[trigger] result.nodes@[a]) as int],
                        // the prefix has no duplicates
                        forall|a: int, b: int|
                            0 <= a < b < k ==> result.nodes@[a] != result.nodes@[b],
                        // seen is seen0 plus the prefix
                        forall|x: int|
                            0 <= x < n ==> ((#[trigger] seen@[x]) <==> (seen0[x] || exists|a: int|
                                0 <= a < k && result.nodes@[a] == x as usize)),
                    decreases result.nodes@.len() - k,
                {
                    let x = result.nodes[k];
                    if seen[x] {
                        let prior = claimed_by[x];
                        proof {
                            assert(uses_node(plan[i as int], x)) by {
                                assert(plan[i as int].result->Some_0.nodes@[k as int] == x);
                            }
                            if seen0[x as int] {
                                // an earlier net claims x: exclusivity fails
                                let j = choose|j: int| 0 <= j < i && uses_node(plan[j], x);
                                let a = choose|a: int|
                                    0 <= a < plan[j].result->Some_0.nodes@.len()
                                        && plan[j].result->Some_0.nodes@[a] == x;
                                assert(plan[j].result->Some_0.nodes@[a]
                                    == plan[i as int].result->Some_0.nodes@[k as int]);
                                assert(!plan_exclusive(plan));
                            } else {
                                // this net claims x twice: its node list has a duplicate
                                let a = choose|a: int|
                                    0 <= a < k && result.nodes@[a] == x;
                                assert(result.nodes@[a] == result.nodes@[k as int]);
                                assert(!nodup(plan[i as int].result->Some_0.nodes@));
                                assert(!net_valid(map, n_spec, plan[i as int]));
                            }
                        }
                        return Err(ValidationError::ReusedNode { net: i, prior_net: prior, node: x });
                    }
                    let ghost seen_before = seen@;
                    let ghost claimed_before = claimed_by@;
                    seen[x] = true;
                    claimed_by[x] = i;
                    proof {
                        assert forall|y: int|
                            0 <= y < n implies ((#[trigger] seen@[y]) <==> (seen0[y] || exists|
                            a: int,
                        |
                            0 <= a < k + 1 && result.nodes@[a] == y as usize)) by {
                            if y == x as int {
                                assert(result.nodes@[k as int] == y as usize);
                            } else {
                                assert(seen@[y] == seen_before[y]);
                                if exists|a: int| 0 <= a < k + 1 && result.nodes@[a] == y as usize {
                                    let a = choose|a: int|
                                        0 <= a < k + 1 && result.nodes@[a] == y as usize;
                                    assert(a < k);
                                }
                            }
                        }
                    }
                    k += 1;
                }

                if tree.signal >= n {
                    proof {
                        assert(!net_valid(map, n_spec, plan[i as int]));
                    }
                    return Err(ValidationError::InvalidSignal { net: i, signal: tree.signal });
                }

                let mut s: usize = 0;
                while s < tree.sinks.len()
                    invariant
                        graph.wf(),
                        map == graph.map@,
                        n_spec == graph.n(),
                        n == graph.nodes@.len(),
                        *tree == plan[i as int],
                        *result == plan[i as int].result->Some_0,
                        i < plan.len(),
                        tree.signal < n,
                        s <= tree.sinks@.len(),
                        forall|a: int| 0 <= a < result.nodes@.len() ==> (#[trigger] result.nodes@[a]) < n,
                        forall|a: int| 0 <= a < s ==> (#[trigger] tree.sinks@[a]) < n,
                        forall|a: int|
                            0 <= a < s ==> reach_cond(
                                map,
                                n_spec,
                                tree.signal,
                                #[trigger] tree.sinks@[a],
                                result.nodes@,
                            ),
                    decreases tree.sinks@.len() - s,
                {
                    let sink = tree.sinks[s];
                    if sink >= n {
                        proof {
                            assert(plan[i as int].sinks@.contains(sink)) by {
                                assert(plan[i as int].sinks@[s as int] == sink);
                            }
                            assert(!net_valid(map, n_spec, plan[i as int]));
                        }
                        return Err(ValidationError::InvalidSink { net: i, sink });
                    }
                    if !is_reachable_within_set(graph, tree.signal, sink, &result.nodes) {
                        proof {
                            assert(plan[i as int].sinks@.contains(sink)) by {
                                assert(plan[i as int].sinks@[s as int] == sink);
                            }
                            assert(!net_valid(map, n_spec, plan[i as int]));
                        }
                        return Err(
                            ValidationError::UnreachableSink { net: i, signal: tree.signal, sink },
                        );
                    }
                    s += 1;
                }

                // the net is valid, and its nodes are disjoint from all
                // earlier claims
                proof {
                    assert(net_valid(map, n_spec, plan[i as int]));
                    assert forall|i2: int, j2: int, a: int, b: int|
                        {
                            &&& 0 <= i2 < i + 1 <= plan.len()
                            &&& 0 <= j2 < i + 1
                            &&& i2 != j2
                            &&& plan[i2].result is Some
                            &&& plan[j2].result is Some
                            &&& 0 <= a < plan[i2].result->Some_0.nodes@.len()
                            &&& 0 <= b < plan[j2].result->Some_0.nodes@.len()
                        } implies #[trigger] plan[i2].result->Some_0.nodes@[a]
                        != #[trigger] plan[j2].result->Some_0.nodes@[b] by {
                        if i2 == i as int && j2 < i {
                            let x = plan[i2].result->Some_0.nodes@[a];
                            if plan[j2].result->Some_0.nodes@[b] == x {
                                assert(uses_node(plan[j2], x));
                                assert(seen0[x as int]);
                            }
                        } else if j2 == i as int && i2 < i {
                            let x = plan[j2].result->Some_0.nodes@[b];
                            if plan[i2].result->Some_0.nodes@[a] == x {
                                assert(uses_node(plan[i2], x));
                                assert(seen0[x as int]);
                            }
                        }
                    }
                }
            },
        }
        i += 1;
    }
    proof {
        assert(plan_exclusive(plan));
    }
    Ok(())
}

/// Law: a plan on which the driver succeeded passes the validator.  A fully
/// solved plan whose nets are in range and claim pairwise disjoint node sets
/// satisfies every condition `validate` checks: each net's own path is the
/// reachability witness inside its claimed nodes.
pub proof fn lemma_solved_plan_validates(map: Seq<Vec<Edge>>, n: nat, plan: Seq<Routing>)
    requires
        crate::plan::plan_in_range(n, plan),
        crate::plan::plan_solved(map, n, plan),
        plan_exclusive(plan),
    ensures
        spec_plan_valid(map, n, plan),
{
    assert forall|i: int| 0 <= i < plan.len() implies net_valid(map, n, #[trigger] plan[i]) by {
        let net = plan[i];
        let rr = net.result->Some_0;
        assert(crate::plan::routing_solved(map, n, net));
        crate::plan::lemma_result_nodes_in_range(map, n, net.signal, net.sinks@, rr);
        assert forall|k: int| 0 <= k < net.sinks@.len() implies reach_cond(
            map,
            n,
            net.signal,
            #[trigger] net.sinks@[k],
            rr.nodes@,
        ) by {
            let p = rr.paths@[k].1@;
            assert(adj_path_ok(map, n, p, net.signal, net.sinks@[k]));
            assert forall|x: int| 0 <= x < p.len() implies rr.nodes@.contains(#[trigger] p[x]) by {
                assert(rr.nodes@.contains(rr.paths@[k].1@[x]));
            }
            assert(set_reachable(map, n, net.signal, net.sinks@[k], rr.nodes@));
        }
    }
}

/// Validation is a pure judgment of its inputs: any two results that satisfy
/// the validator's contract on the same plan and graph agree, so re-running
/// `validate` on an already-validated plan accepts it again.
pub proof fn lemma_validate_deterministic(
    map: Seq<Vec<Edge>>,
    n: nat,
    plan: Seq<Routing>,
    r1: Result<(), ValidationError>,
    r2: Result<(), ValidationError>,
)
    requires
        r1 is Ok <==> spec_plan_valid(map, n, plan),
        r2 is Ok <==> spec_plan_valid(map, n, plan),
    ensures
        r1 is Ok <==> r2 is Ok,
{
}

pub proof fn lemma_count_all_false(n: nat)
    ensures
        count_trues(Seq::new(n, |v: int| false)) == 0,
    decreases n,
{
    if n > 0 {
        let s = Seq::new(n, |v: int| false);
        assert(s.drop_last() =~= Seq::new((n - 1) as nat, |v: int| false));
        lemma_count_all_false((n - 1) as nat);
    }
}

} // verus!
