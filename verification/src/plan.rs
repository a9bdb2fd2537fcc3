//! Specification of well-formed routing results and of exclusivity between
//! nets, with the counting argument that links usage counters to
//! exclusivity.

use vstd::prelude::*;

use crate::fabric_graph::Routing;
use crate::fabric_graph::RoutingResult;
use crate::node::Edge;
use crate::paths::adj_path_ok;

verus! {

/// No element occurs twice.
pub open spec fn nodup(s: Seq<usize>) -> bool {
    forall|i: int, j: int| 0 <= i < j < s.len() ==> s[i] != s[j]
}

/// Every node of every path is listed in `nodes`.
pub open spec fn nodes_cover_paths(rr: RoutingResult) -> bool {
    forall|i: int, j: int|
        0 <= i < rr.paths@.len() && 0 <= j < rr.paths@[i].1@.len() ==> rr.nodes@.contains(
            #[trigger] rr.paths@[i].1@[j],
        )
}

/// `x` lies on one of the paths.
pub open spec fn in_some_path(paths: Seq<(usize, Vec<usize>)>, x: usize) -> bool {
    exists|a: int, b: int|
        0 <= a < paths.len() && 0 <= b < paths[a].1@.len() && paths[a].1@[b] == x
}

/// Every listed node lies on some path.
pub open spec fn nodes_only_paths(rr: RoutingResult) -> bool {
    forall|k: int| 0 <= k < rr.nodes@.len() ==> in_some_path(rr.paths@, #[trigger] rr.nodes@[k])
}

/// Appending a path keeps (and extends) path membership.
pub proof fn lemma_in_some_path_push(
    paths: Seq<(usize, Vec<usize>)>,
    e: (usize, Vec<usize>),
    x: usize,
)
    requires
        in_some_path(paths, x) || e.1@.contains(x),
    ensures
        in_some_path(paths.push(e), x),
{
    if in_some_path(paths, x) {
        let (a, b) = choose|a: int, b: int|
            0 <= a < paths.len() && 0 <= b < paths[a].1@.len() && paths[a].1@[b] == x;
        assert(paths.push(e)[a].1@[b] == x);
    } else {
        let b = choose|b: int| 0 <= b < e.1@.len() && e.1@[b] == x;
        assert(paths.push(e)[paths.len() as int].1@[b] == x);
    }
}

/// A well-formed routing result for a net with the given signal and sinks:
/// one path per sink in order, each running from the signal to its sink
/// along edges of `map`, and `nodes` is exactly the duplicate-free union of
/// the path nodes.
pub open spec fn result_wf(
    map: Seq<Vec<Edge>>,
    n: nat,
    signal: usize,
    sinks: Seq<usize>,
    rr: RoutingResult,
) -> bool {
    &&& rr.paths@.len() == sinks.len()
    &&& forall|i: int| 0 <= i < sinks.len() ==> (#[trigger] rr.paths@[i]).0 == sinks[i]
    &&& forall|i: int|
        0 <= i < sinks.len() ==> adj_path_ok(map, n, (#[trigger] rr.paths@[i]).1@, signal, sinks[i])
    &&& nodes_cover_paths(rr)
    &&& nodes_only_paths(rr)
    &&& nodup(rr.nodes@)
}

/// The net has a result, and that result is well-formed for it.
pub open spec fn routing_solved(map: Seq<Vec<Edge>>, n: nat, r: Routing) -> bool {
    &&& r.result is Some
    &&& result_wf(map, n, r.signal, r.sinks@, r.result->Some_0)
}

/// A well-formed pre-planned skeleton for a net: one anchor sequence per
/// sink in order, each starting at the signal, ending at its sink, and
/// staying in range; the join-point set is duplicate-free and in range.
pub open spec fn steiner_wf(
    n: nat,
    signal: usize,
    sinks: Seq<usize>,
    st: crate::fabric_graph::SteinerTree,
) -> bool {
    &&& st.steiner_nodes@.len() == sinks.len()
    &&& forall|i: int| 0 <= i < sinks.len() ==> (#[trigger] st.steiner_nodes@[i]).0 == sinks[i]
    &&& forall|i: int|
        0 <= i < sinks.len() ==> {
            let skel = (#[trigger] st.steiner_nodes@[i]).1@;
            &&& skel.len() >= 1
            &&& skel[0] == signal
            &&& skel[skel.len() - 1] == sinks[i]
            &&& forall|j: int| 0 <= j < skel.len() ==> (#[trigger] skel[j]) < n
            // each anchor is the signal, a chosen join point, or a sink
            &&& forall|j: int|
                0 <= j < skel.len() ==> (#[trigger] skel[j]) == signal || st.nodes@.contains(
                    skel[j],
                ) || sinks.contains(skel[j])
            // skeletons are acyclic: no anchor repeats
            &&& forall|a: int, b: int| 0 <= a < b < skel.len() ==> skel[a] != skel[b]
        }
    &&& forall|k: int| 0 <= k < st.nodes@.len() ==> (#[trigger] st.nodes@[k]) < n
    &&& nodup(st.nodes@)
}

/// `a` and `b` are consecutive anchors of one of the skeleton's sinks.
pub open spec fn consecutive_anchors(
    st: crate::fabric_graph::SteinerTree,
    a: usize,
    b: usize,
) -> bool {
    exists|si: int, j: int|
        0 <= si < st.steiner_nodes@.len() && 0 <= j < st.steiner_nodes@[si].1@.len() - 1 && a == (
        #[trigger] st.steiner_nodes@[si].1@[j]) && b == st.steiner_nodes@[si].1@[j + 1]
}

/// The net's node indices all lie below `n`.
pub open spec fn net_in_range(n: nat, r: Routing) -> bool {
    &&& r.signal < n
    &&& forall|i: int| 0 <= i < r.sinks@.len() ==> (#[trigger] r.sinks@[i]) < n
}

/// The net's routing result claims node `x`.
pub open spec fn uses_node(r: Routing, x: usize) -> bool {
    r.result matches Some(rr) && rr.nodes@.contains(x)
}

/// How many nets of the plan claim node `x`.
pub open spec fn count_users(plan: Seq<Routing>, x: usize) -> nat
    decreases plan.len(),
{
    if plan.len() == 0 {
        0
    } else {
        count_users(plan.drop_last(), x) + if uses_node(plan.last(), x) {
            1nat
        } else {
            0nat
        }
    }
}

/// No node is claimed by two distinct nets among the first `m`.
pub open spec fn prefix_exclusive(plan: Seq<Routing>, m: int) -> bool {
    forall|i: int, j: int, a: int, b: int|
        {
            &&& 0 <= i < m <= plan.len()
            &&& 0 <= j < m
            &&& i != j
            &&& plan[i].result is Some
            &&& plan[j].result is Some
            &&& 0 <= a < plan[i].result->Some_0.nodes@.len()
            &&& 0 <= b < plan[j].result->Some_0.nodes@.len()
        } ==> #[trigger] plan[i].result->Some_0.nodes@[a] != #[trigger] plan[j].result->Some_0.nodes@[b]
}

/// No node is claimed by two distinct nets.
pub open spec fn plan_exclusive(plan: Seq<Routing>) -> bool {
    forall|i: int, j: int, a: int, b: int|
        {
            &&& 0 <= i < plan.len()
            &&& 0 <= j < plan.len()
            &&& i != j
            &&& plan[i].result is Some
            &&& plan[j].result is Some
            &&& 0 <= a < plan[i].result->Some_0.nodes@.len()
            &&& 0 <= b < plan[j].result->Some_0.nodes@.len()
        } ==> #[trigger] plan[i].result->Some_0.nodes@[a] != #[trigger] plan[j].result->Some_0.nodes@[b]
}

/// The two graphs agree on everything but the usage counters: same nodes
/// and edges, same historic costs and capacities.
pub open spec fn same_cost_frame(
    g: crate::fabric_graph::FabricGraph,
    h: crate::fabric_graph::FabricGraph,
) -> bool {
    &&& g.nodes == h.nodes
    &&& g.map == h.map
    &&& g.map_reversed == h.map_reversed
    &&& g.costs@.len() == h.costs@.len()
    &&& forall|i: int|
        0 <= i < g.costs@.len() ==> {
            &&& (#[trigger] g.costs@[i]).historic_cost == h.costs@[i].historic_cost
            &&& g.costs@[i].capacity == h.costs@[i].capacity
        }
}

/// The two graphs share their nodes and edges; the congestion state is free.
pub open spec fn same_structure(
    g: crate::fabric_graph::FabricGraph,
    h: crate::fabric_graph::FabricGraph,
) -> bool {
    &&& g.nodes == h.nodes
    &&& g.map == h.map
    &&& g.map_reversed == h.map_reversed
    &&& g.costs@.len() == h.costs@.len()
}

/// Number of node indices below `m` that more than one net claims.
pub open spec fn spec_conflict_count(plan: Seq<Routing>, m: int) -> nat
    decreases m,
{
    if m <= 0 {
        0
    } else {
        spec_conflict_count(plan, m - 1) + if count_users(plan, (m - 1) as usize) > 1 {
            1nat
        } else {
            0nat
        }
    }
}

/// The historic cost written by one update pass for a node claimed by
/// `users` nets: unchanged at capacity one unless shared, in which case the
/// factor times the overuse is added on.
pub open spec fn spec_new_historic(old_h: u64, users: nat, hist_fac: u64) -> u64 {
    if users > 1 {
        crate::arith::spec_sat_add(old_h, crate::arith::spec_sat_mul(hist_fac, (users - 1) as u64))
    } else {
        old_h
    }
}

/// Every net of the plan is in range and has at least one sink.
pub open spec fn plan_in_range(n: nat, plan: Seq<Routing>) -> bool {
    forall|i: int|
        0 <= i < plan.len() ==> net_in_range(n, #[trigger] plan[i]) && plan[i].sinks@.len() >= 1
}

/// Every pre-planned skeleton in the plan is well-formed.
pub open spec fn plan_steiner_wf(n: nat, plan: Seq<Routing>) -> bool {
    forall|i: int|
        0 <= i < plan.len() ==> ((#[trigger] plan[i]).steiner_tree matches Some(st) ==> steiner_wf(
            n,
            plan[i].signal,
            plan[i].sinks@,
            st,
        ))
}

/// Every net of the plan holds a well-formed routing result.
pub open spec fn plan_solved(map: Seq<Vec<Edge>>, n: nat, plan: Seq<Routing>) -> bool {
    forall|i: int| 0 <= i < plan.len() ==> routing_solved(map, n, #[trigger] plan[i])
}

/// How many of the first `m` nets claim node `x`.
pub open spec fn count_users_upto(plan: Seq<Routing>, m: int, x: usize) -> nat
    decreases m,
{
    if m <= 0 {
        0
    } else {
        count_users_upto(plan, m - 1, x) + if 0 <= m - 1 < plan.len() && uses_node(
            plan[m - 1],
            x,
        ) {
            1nat
        } else {
            0nat
        }
    }
}

/// The prefix count over the whole plan is the full count.
pub proof fn lemma_count_users_upto_full(plan: Seq<Routing>, x: usize)
    ensures
        count_users_upto(plan, plan.len() as int, x) == count_users(plan, x),
    decreases plan.len(),
{
    if plan.len() > 0 {
        lemma_count_users_upto_full(plan.drop_last(), x);
        lemma_count_users_upto_agree(plan.drop_last(), plan, plan.len() as int - 1, x);
    }
}

/// Prefix counts agree between plans that agree on the prefix.
pub proof fn lemma_count_users_upto_agree(p1: Seq<Routing>, p2: Seq<Routing>, m: int, x: usize)
    requires
        0 <= m <= p1.len(),
        m <= p2.len(),
        forall|j: int| 0 <= j < m ==> p1[j] == p2[j],
    ensures
        count_users_upto(p1, m, x) == count_users_upto(p2, m, x),
    decreases m,
{
    if m > 0 {
        lemma_count_users_upto_agree(p1, p2, m - 1, x);
    }
}

/// A prefix count never exceeds the prefix length.
pub proof fn lemma_count_users_upto_bound(plan: Seq<Routing>, m: int, x: usize)
    requires
        m >= 0,
    ensures
        count_users_upto(plan, m, x) <= m,
    decreases m,
{
    if m > 0 {
        lemma_count_users_upto_bound(plan, m - 1, x);
    }
}

/// Every claimed node of a well-formed result lies on a path, and path
/// nodes are in range.
pub proof fn lemma_result_nodes_in_range(
    map: Seq<Vec<Edge>>,
    n: nat,
    signal: usize,
    sinks: Seq<usize>,
    rr: RoutingResult,
)
    requires
        result_wf(map, n, signal, sinks, rr),
    ensures
        forall|k: int| 0 <= k < rr.nodes@.len() ==> (#[trigger] rr.nodes@[k]) < n,
{
    assert forall|k: int| 0 <= k < rr.nodes@.len() implies (#[trigger] rr.nodes@[k]) < n by {
        assert(in_some_path(rr.paths@, rr.nodes@[k]));
        let (a, b) = choose|a: int, b: int|
            0 <= a < rr.paths@.len() && 0 <= b < rr.paths@[a].1@.len() && rr.paths@[a].1@[b]
                == rr.nodes@[k];
        assert(adj_path_ok(map, n, rr.paths@[a].1@, signal, sinks[a]));
        assert(rr.paths@[a].1@[b] < n);
    }
}

/// Every path node of a solved net is in range.
pub proof fn lemma_solved_net_paths_in_range(map: Seq<Vec<Edge>>, n: nat, net: Routing)
    requires
        routing_solved(map, n, net),
    ensures
        forall|j: int, k: int|
            0 <= j < net.result->Some_0.paths@.len() && 0 <= k
                < net.result->Some_0.paths@[j].1@.len() ==> (
            #[trigger] net.result->Some_0.paths@[j].1@[k]) < n,
{
    assert forall|j: int, k: int|
        0 <= j < net.result->Some_0.paths@.len() && 0 <= k
            < net.result->Some_0.paths@[j].1@.len() implies (
    #[trigger] net.result->Some_0.paths@[j].1@[k]) < n by {
        assert(adj_path_ok(map, n, net.result->Some_0.paths@[j].1@, net.signal, net.sinks@[j]));
    }
}

/// If after a full usage pass no node exceeded its capacity of one, the
/// plan is exclusive: the usage counter of each node equals the number of
/// nets claiming it.
pub proof fn lemma_full_usage_exclusive(
    map: Seq<Vec<Edge>>,
    n: nat,
    plan: Seq<Routing>,
    pre: Seq<crate::node::Costs>,
)
    requires
        pre.len() == n,
        forall|v: int|
            0 <= v < n ==> (#[trigger] pre[v]).usage == count_users_upto(
                plan,
                plan.len() as int,
                v as usize,
            ),
        forall|v: int| 0 <= v < n ==> (#[trigger] pre[v]).capacity == 1,
        forall|v: int| 0 <= v < n ==> !((#[trigger] pre[v]).usage > pre[v].capacity),
        plan_solved(map, n, plan),
    ensures
        plan_exclusive(plan),
{
    assert forall|x: usize| x < n implies count_users(plan, x) <= 1 by {
        lemma_count_users_upto_full(plan, x);
        assert(pre[x as int].usage == count_users_upto(plan, plan.len() as int, x));
        assert(pre[x as int].capacity == 1);
    }
    assert forall|i2: int, a: int|
        0 <= i2 < plan.len() && plan[i2].result is Some && 0 <= a
            < plan[i2].result->Some_0.nodes@.len() implies (
    #[trigger] plan[i2].result->Some_0.nodes@[a]) < n by {
        assert(routing_solved(map, n, plan[i2]));
        lemma_result_nodes_in_range(map, n, plan[i2].signal, plan[i2].sinks@, plan[i2].result->Some_0);
    }
    lemma_counts_give_exclusivity(plan, n);
}

/// `x` occurs among the first `k` entries of `s`.
pub open spec fn in_prefix(s: Seq<usize>, k: int, x: usize) -> bool {
    exists|a: int| 0 <= a < k && s[a] == x
}

/// A net that claims `x` makes the count positive.
proof fn lemma_count_users_pos(plan: Seq<Routing>, x: usize, i: int)
    requires
        0 <= i < plan.len(),
        uses_node(plan[i], x),
    ensures
        count_users(plan, x) >= 1,
    decreases plan.len(),
{
    if i == plan.len() - 1 {
        assert(plan.last() == plan[i]);
    } else {
        assert(plan.drop_last()[i] == plan[i]);
        lemma_count_users_pos(plan.drop_last(), x, i);
    }
}

/// Two distinct nets that both claim `x` make the count at least two.
proof fn lemma_count_users_two(plan: Seq<Routing>, x: usize, i: int, j: int)
    requires
        0 <= i < plan.len(),
        0 <= j < plan.len(),
        i != j,
        uses_node(plan[i], x),
        uses_node(plan[j], x),
    ensures
        count_users(plan, x) >= 2,
    decreases plan.len(),
{
    let lo = if i < j {
        i
    } else {
        j
    };
    let hi = if i < j {
        j
    } else {
        i
    };
    if hi == plan.len() - 1 {
        assert(plan.last() == plan[hi]);
        assert(plan.drop_last()[lo] == plan[lo]);
        lemma_count_users_pos(plan.drop_last(), x, lo);
    } else {
        assert(plan.drop_last()[lo] == plan[lo]);
        assert(plan.drop_last()[hi] == plan[hi]);
        lemma_count_users_two(plan.drop_last(), x, lo, hi);
    }
}

/// If no node below `n` is claimed more than once, and all claimed nodes
/// lie below `n`, the plan is exclusive.
pub proof fn lemma_counts_give_exclusivity(plan: Seq<Routing>, n: nat)
    requires
        forall|x: usize| x < n ==> count_users(plan, x) <= 1,
        forall|i: int, a: int|
            0 <= i < plan.len() && plan[i].result is Some && 0 <= a
                < plan[i].result->Some_0.nodes@.len() ==> (
            #[trigger] plan[i].result->Some_0.nodes@[a]) < n,
    ensures
        plan_exclusive(plan),
{
    assert forall|i: int, j: int, a: int, b: int|
        {
            &&& 0 <= i < plan.len()
            &&& 0 <= j < plan.len()
            &&& i != j
            &&& plan[i].result is Some
            &&& plan[j].result is Some
            &&& 0 <= a < plan[i].result->Some_0.nodes@.len()
            &&& 0 <= b < plan[j].result->Some_0.nodes@.len()
        } implies #[trigger] plan[i].result->Some_0.nodes@[a]
        != #[trigger] plan[j].result->Some_0.nodes@[b] by {
        let x = plan[i].result->Some_0.nodes@[a];
        if plan[j].result->Some_0.nodes@[b] == x {
            assert(uses_node(plan[i], x));
            assert(uses_node(plan[j], x));
            lemma_count_users_two(plan, x, i, j);
            assert(count_users(plan, x) <= 1);
        }
    }
}

} // verus!
