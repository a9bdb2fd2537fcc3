//! The fabric graph: nodes, forward and reversed adjacency, per-node costs,
//! and the routing-request records that the solvers fill in.

use vstd::prelude::*;

use crate::node::coords_split;
use crate::node::dec_val;
use crate::node::from_str_coords;
use crate::node::Costs;
use crate::node::Edge;
use crate::node::Node;
use crate::node::NodeView;
use crate::node::ParseError;

verus! {

/// Base cost of an edge between two nodes, in milli-units:
/// one plus the Manhattan distance of the coordinates, times 1000.
pub open spec fn spec_base_cost(a: NodeView, b: NodeView) -> u64 {
    (1000 * (1 + abs_diff_int(a.x, b.x) + abs_diff_int(a.y, b.y))) as u64
}

/// Absolute difference of two mathematical integers.
pub open spec fn abs_diff_int(a: int, b: int) -> int {
    if a >= b {
        a - b
    } else {
        b - a
    }
}

/// Every edge of `adj` points at a node index below `n`.
pub open spec fn adj_ok(adj: Seq<Vec<Edge>>, n: nat) -> bool {
    forall|u: int, k: int|
        0 <= u < adj.len() && 0 <= k < adj[u]@.len() ==> (#[trigger] adj[u]@[k]).node_id < n
}

/// `adj` has an edge from `u` to `dst` with cost `cost`.
pub open spec fn has_edge(adj: Seq<Vec<Edge>>, u: int, dst: usize, cost: u64) -> bool {
    exists|k: int|
        0 <= k < adj[u]@.len() && (#[trigger] adj[u]@[k]).node_id == dst && adj[u]@[k].cost
            == cost
}

/// Every edge of `a` appears, with source and destination swapped and the
/// same cost, in `b`.
pub open spec fn mirrors(a: Seq<Vec<Edge>>, b: Seq<Vec<Edge>>) -> bool {
    forall|u: int, k: int|
        0 <= u < a.len() && 0 <= k < a[u]@.len() ==> has_edge(
            b,
            (#[trigger] a[u]@[k]).node_id as int,
            u as usize,
            a[u]@[k].cost,
        )
}

/// Every edge cost in `adj` obeys the Manhattan base-cost formula.
pub open spec fn base_costs_ok(adj: Seq<Vec<Edge>>, nodes: Seq<Node>) -> bool {
    forall|u: int, k: int|
        0 <= u < adj.len() && 0 <= k < adj[u]@.len() ==> (#[trigger] adj[u]@[k]).cost
            == spec_base_cost(nodes[u]@, nodes[adj[u]@[k].node_id as int]@)
}

/// Routing request from a source signal to one or more sinks.
#[derive(Debug, Clone)]
pub struct Routing {
    /// Destination node indices
    pub sinks: Vec<usize>,
    /// Source signal node
    pub signal: usize,
    /// Routing result written by a solver, if any
    pub result: Option<RoutingResult>,
    /// Pre-planned anchor skeleton, if pre-planning has run
    pub steiner_tree: Option<SteinerTree>,
}

/// Routing result for one net.
#[derive(Debug, Clone)]
pub struct RoutingResult {
    /// Per-sink paths, parallel to the net's sink list: entry `i` holds
    /// the sink and the path from the signal to that sink
    pub paths: Vec<(usize, Vec<usize>)>,
    /// Union of all path nodes, without duplicates
    pub nodes: Vec<usize>,
}

/// Pre-planned skeleton of a net: for each sink the ordered anchor points
/// from the signal to the sink, plus the set of chosen join points.
#[derive(Debug, Clone)]
pub struct SteinerTree {
    /// Per-sink anchor sequences, parallel to the net's sink list: entry `i`
    /// holds the sink and its skeleton, starting at the signal and ending at
    /// the sink
    pub steiner_nodes: Vec<(usize, Vec<usize>)>,
    /// The chosen join points
    pub nodes: Vec<usize>,
}

/// Representation of the fabric graph.
#[derive(Debug, Clone)]
pub struct FabricGraph {
    /// List of nodes in the graph
    pub nodes: Vec<Node>,
    /// Costs associated with each node, parallel to `nodes`
    pub costs: Vec<Costs>,
    /// Forward adjacency list
    pub map: Vec<Vec<Edge>>,
    /// Reversed adjacency list
    pub map_reversed: Vec<Vec<Edge>>,
}

impl FabricGraph {
    /// Number of nodes.
    pub open spec fn n(self) -> nat {
        self.nodes@.len()
    }

    /// Structural well-formedness: the four vectors are parallel, every edge
    /// stays in range and carries the Manhattan base cost, the reversed map
    /// mirrors the forward map edge for edge, and every node has capacity
    /// one.
    pub open spec fn wf(self) -> bool {
        &&& self.costs@.len() == self.n()
        &&& self.map@.len() == self.n()
        &&& self.map_reversed@.len() == self.n()
        &&& adj_ok(self.map@, self.n())
        &&& adj_ok(self.map_reversed@, self.n())
        &&& base_costs_ok(self.map@, self.nodes@)
        &&& mirrors(self.map@, self.map_reversed@)
        &&& mirrors(self.map_reversed@, self.map@)
        &&& forall|i: int|
            0 <= i < self.costs@.len() ==> (#[trigger] self.costs@[i]).capacity == 1
    }

    /// Every usage counter is zero.
    pub open spec fn usage_clear(self) -> bool {
        forall|i: int| 0 <= i < self.costs@.len() ==> (#[trigger] self.costs@[i]).usage == 0
    }

    /// Manhattan base cost between two nodes, in milli-units.
    ///
    /// The result is at most `511_000`, since coordinates are `u8`.
    pub fn distance(a: &Node, b: &Node) -> (r: u64)
        ensures
            r == spec_base_cost(a@, b@),
            r <= 511_000,
    {
        let dx = if a.x >= b.x {
            a.x - b.x
        } else {
            b.x - a.x
        };
        let dy = if a.y >= b.y {
            a.y - b.y
        } else {
            b.y - a.y
        };
        1000 * (1 + dx as u64 + dy as u64)
    }

    /// Set every node's usage back to zero, leaving everything else alone.
    pub fn reset_usage(&mut self)
        ensures
            final(self).nodes == old(self).nodes,
            final(self).map == old(self).map,
            final(self).map_reversed == old(self).map_reversed,
            final(self).costs@.len() == old(self).costs@.len(),
            forall|i: int|
                0 <= i < final(self).costs@.len() ==> {
                    &&& (#[trigger] final(self).costs@[i]).usage == 0
                    &&& final(self).costs@[i].historic_cost == old(self).costs@[i].historic_cost
                    &&& final(self).costs@[i].capacity == old(self).costs@[i].capacity
                },
            old(self).wf() ==> final(self).wf(),
    {
        let n = self.costs.len();
        let mut i: usize = 0;
        while i < n
            invariant
                n == self.costs@.len(),
                i <= n,
                self.nodes == old(self).nodes,
                self.map == old(self).map,
                self.map_reversed == old(self).map_reversed,
                forall|j: int|
                    0 <= j < i ==> {
                        &&& (#[trigger] self.costs@[j]).usage == 0
                        &&& self.costs@[j].historic_cost == old(self).costs@[j].historic_cost
                        &&& self.costs@[j].capacity == old(self).costs@[j].capacity
                    },
                forall|j: int| i <= j < n ==> self.costs@[j] == old(self).costs@[j],
            decreases n - i,
        {
            self.costs[i].usage = 0;
            i += 1;
        }
    }
}

/// Build the reversed adjacency list: for every forward edge `(u, v, c)`
/// the result holds `(v, u, c)`, and nothing else.
pub fn get_reversed_map(nodes: &Vec<Node>, map: &Vec<Vec<Edge>>) -> (rev: Vec<Vec<Edge>>)
    requires
        map@.len() == nodes@.len(),
        adj_ok(map@, nodes@.len()),
    ensures
        rev@.len() == nodes@.len(),
        adj_ok(rev@, nodes@.len()),
        mirrors(map@, rev@),
        mirrors(rev@, map@),
{
    let n = nodes.len();
    let mut rev: Vec<Vec<Edge>> = Vec::new();
    let mut v: usize = 0;
    while v < n
        invariant
            n == nodes@.len(),
            n == map@.len(),
            adj_ok(map@, n as nat),
            v <= n,
            rev@.len() == v,
            adj_ok(rev@, n as nat),
            mirrors(rev@, map@),
            // every forward edge whose destination is already processed is mirrored
            forall|u: int, k: int|
                0 <= u < n && 0 <= k < map@[u]@.len() && (#[trigger] map@[u]@[k]).node_id < v
                    ==> has_edge(rev@, map@[u]@[k].node_id as int, u as usize, map@[u]@[k].cost),
        decreases n - v,
    {
        let mut inner: Vec<Edge> = Vec::new();
        let mut u: usize = 0;
        while u < n
            invariant
                n == nodes@.len(),
                n == map@.len(),
                adj_ok(map@, n as nat),
                v < n,
                u <= n,
                // soundness: every collected entry comes from a forward edge into v
                forall|j: int|
                    0 <= j < inner@.len() ==> {
                        &&& (#[trigger] inner@[j]).node_id < n
                        &&& has_edge(map@, inner@[j].node_id as int, v, inner@[j].cost)
                    },
                // completeness: every forward edge into v from a processed source is collected
                forall|u2: int, k: int|
                    0 <= u2 < u && 0 <= k < map@[u2]@.len() && (#[trigger] map@[u2]@[k]).node_id
                        == v ==> inner_has(inner@, u2 as usize, map@[u2]@[k].cost),
            decreases n - u,
        {
            let edges = &map[u];
            let m = edges.len();
            let mut k: usize = 0;
            while k < m
                invariant
                    n == nodes@.len(),
                    n == map@.len(),
                    adj_ok(map@, n as nat),
                    v < n,
                    u < n,
                    k <= m,
                    m == map@[u as int]@.len(),
                    edges == &map[u as int],
                    forall|j: int|
                        0 <= j < inner@.len() ==> {
                            &&& (#[trigger] inner@[j]).node_id < n
                            &&& has_edge(map@, inner@[j].node_id as int, v, inner@[j].cost)
                        },
                    forall|u2: int, k2: int|
                        0 <= u2 < u && 0 <= k2 < map@[u2]@.len() && (#[trigger] map@[u2]@[k2]).node_id
                            == v ==> inner_has(inner@, u2 as usize, map@[u2]@[k2].cost),
                    forall|k2: int|
                        0 <= k2 < k && (#[trigger] map@[u as int]@[k2]).node_id == v ==> inner_has(
                            inner@,
                            u,
                            map@[u as int]@[k2].cost,
                        ),
                decreases m - k,
            {
                let e = &edges[k];
                if e.node_id == v {
                    let ghost old_inner = inner@;
                    inner.push(Edge { node_id: u, cost: e.cost });
                    proof {
                        assert(inner@[old_inner.len() as int].node_id == u);
                        assert(forall|j: int|
                            0 <= j < old_inner.len() ==> inner@[j] == old_inner[j]);
                        assert(has_edge(map@, u as int, v, e.cost)) by {
                            assert(map@[u as int]@[k as int].node_id == v);
                        }
                    }
                }
                k += 1;
            }
            u += 1;
        }
        let ghost old_rev = rev@;
        rev.push(inner);
        proof {
            assert(forall|x: int| 0 <= x < old_rev.len() ==> rev@[x] == old_rev[x]);
            // entries of the new row are sound
            assert(forall|j: int|
                0 <= j < rev@[v as int]@.len() ==> has_edge(
                    map@,
                    (#[trigger] rev@[v as int]@[j]).node_id as int,
                    v,
                    rev@[v as int]@[j].cost,
                ));
            // old rows keep their mirrored edges
            assert(forall|u2: int, k: int|
                0 <= u2 < n && 0 <= k < map@[u2]@.len() && (#[trigger] map@[u2]@[k]).node_id < v
                    ==> has_edge(rev@, map@[u2]@[k].node_id as int, u2 as usize, map@[u2]@[k].cost))
                by {
                assert forall|u2: int, k: int|
                    0 <= u2 < n && 0 <= k < map@[u2]@.len() && (#[trigger] map@[u2]@[k]).node_id
                        < v implies has_edge(
                    rev@,
                    map@[u2]@[k].node_id as int,
                    u2 as usize,
                    map@[u2]@[k].cost,
                ) by {
                    let dst = map@[u2]@[k].node_id as int;
                    assert(has_edge(old_rev, dst, u2 as usize, map@[u2]@[k].cost));
                    let j = choose|j: int|
                        0 <= j < old_rev[dst]@.len() && (#[trigger] old_rev[dst]@[j]).node_id == u2
                            && old_rev[dst]@[j].cost == map@[u2]@[k].cost;
                    assert(rev@[dst]@[j].node_id == u2);
                }
            }
            // edges into v are now mirrored through the new row
            assert forall|u2: int, k: int|
                0 <= u2 < n && 0 <= k < map@[u2]@.len() && (#[trigger] map@[u2]@[k]).node_id
                    == v implies has_edge(
                rev@,
                map@[u2]@[k].node_id as int,
                u2 as usize,
                map@[u2]@[k].cost,
            ) by {
                assert(inner_has(rev@[v as int]@, u2 as usize, map@[u2]@[k].cost));
                let j = choose|j: int|
                    0 <= j < rev@[v as int]@.len() && (#[trigger] rev@[v as int]@[j]).node_id == u2
                        && rev@[v as int]@[j].cost == map@[u2]@[k].cost;
                assert(rev@[v as int]@[j].node_id == u2);
            }
        }
        v += 1;
    }
    rev
}

/// A whitespace character that pip lines may carry at their edges.
pub open spec fn is_blank(c: char) -> bool {
    c == ' ' || c == '\t' || c == '\r'
}

/// The line with its leading blanks removed.
pub open spec fn spec_trim_front(l: Seq<char>) -> Seq<char>
    decreases l.len(),
{
    if l.len() > 0 && is_blank(l[0]) {
        spec_trim_front(l.subrange(1, l.len() as int))
    } else {
        l
    }
}

/// The line with its trailing blanks removed.
pub open spec fn spec_trim_back(l: Seq<char>) -> Seq<char>
    decreases l.len(),
{
    if l.len() > 0 && is_blank(l.last()) {
        spec_trim_back(l.drop_last())
    } else {
        l
    }
}

/// The line with blanks removed at both ends.
pub open spec fn spec_trim(l: Seq<char>) -> Seq<char> {
    spec_trim_back(spec_trim_front(l))
}

/// A line the pip reader skips: whitespace only, or a comment.
pub open spec fn spec_skippable(l: Seq<char>) -> bool {
    spec_trim(l).len() == 0 || spec_trim(l)[0] == '#'
}

/// Stripping the front stops at the first non-blank character.
proof fn lemma_trim_front_at(l: Seq<char>, a: int)
    requires
        0 <= a <= l.len(),
        forall|j: int| 0 <= j < a ==> is_blank(#[trigger] l[j]),
        a < l.len() ==> !is_blank(l[a]),
    ensures
        spec_trim_front(l) == l.subrange(a, l.len() as int),
    decreases a,
{
    if a == 0 {
        assert(l.subrange(0, l.len() as int) =~= l);
    } else {
        assert(is_blank(l[0]));
        let tail = l.subrange(1, l.len() as int);
        lemma_trim_front_at(tail, a - 1);
        assert(tail.subrange(a - 1, tail.len() as int) =~= l.subrange(a, l.len() as int));
    }
}

/// Stripping the back stops at the last non-blank character.
proof fn lemma_trim_back_at(l: Seq<char>, b: int)
    requires
        0 <= b <= l.len(),
        forall|j: int| b <= j < l.len() ==> is_blank(#[trigger] l[j]),
        b > 0 ==> !is_blank(l[b - 1]),
    ensures
        spec_trim_back(l) == l.subrange(0, b),
    decreases l.len(),
{
    if l.len() == b {
        assert(l.subrange(0, b) =~= l);
    } else {
        assert(is_blank(l.last()));
        lemma_trim_back_at(l.drop_last(), b);
        assert(l.drop_last().subrange(0, b) =~= l.subrange(0, b));
    }
}

/// Strip blanks from both ends of a line.
fn trim_blanks<'a>(s: &'a str) -> (r: &'a str)
    ensures
        r@ == spec_trim(s@),
{
    let len = s.unicode_len();
    let mut a: usize = 0;
    while a < len
        invariant
            a <= len,
            len == s@.len(),
            forall|j: int| 0 <= j < a ==> is_blank(#[trigger] s@[j]),
        ensures
            a <= len,
            forall|j: int| 0 <= j < a ==> is_blank(#[trigger] s@[j]),
            a < len ==> !is_blank(s@[a as int]),
        decreases len - a,
    {
        let c = s.get_char(a);
        if !(c == ' ' || c == '\t' || c == '\r') {
            break ;
        }
        a += 1;
    }
    if a == len {
        proof {
            lemma_trim_front_at(s@, len as int);
            assert(s@.subrange(len as int, len as int) =~= Seq::<char>::empty());
            lemma_trim_back_at(Seq::<char>::empty(), 0);
            assert(Seq::<char>::empty().subrange(0, 0) =~= Seq::<char>::empty());
        }
        let r = s.substring_char(len, len);
        proof {
            assert(r@ =~= spec_trim(s@));
        }
        return r;
    }
    let mut b: usize = len;
    while b > a
        invariant
            a < b || b == a,
            b <= len,
            len == s@.len(),
            a < len,
            !is_blank(s@[a as int]),
            forall|j: int| b <= j < len ==> is_blank(#[trigger] s@[j]),
        ensures
            a < b <= len,
            forall|j: int| b <= j < len ==> is_blank(#[trigger] s@[j]),
            !is_blank(s@[b - 1]),
        decreases b,
    {
        let c = s.get_char(b - 1);
        if !(c == ' ' || c == '\t' || c == '\r') {
            break ;
        }
        b -= 1;
        proof {
            if b == a {
                assert(is_blank(s@[a as int]));
            }
        }
    }
    proof {
        lemma_trim_front_at(s@, a as int);
        let t1 = s@.subrange(a as int, len as int);
        lemma_trim_back_at(t1, b - a);
        assert(t1.subrange(0, b - a) =~= s@.subrange(a as int, b as int));
    }
    s.substring_char(a, b)
}

/// The positions of the line's commas, in order.
pub open spec fn commas_of(l: Seq<char>) -> Seq<int>
    decreases l.len(),
{
    if l.len() == 0 {
        Seq::empty()
    } else if l.last() == ',' {
        commas_of(l.drop_last()).push(l.len() - 1)
    } else {
        commas_of(l.drop_last())
    }
}

/// Comma positions are in-range, strictly increasing, and hold commas.
proof fn lemma_commas_of_facts(l: Seq<char>)
    ensures
        forall|j: int|
            0 <= j < commas_of(l).len() ==> 0 <= #[trigger] commas_of(l)[j] < l.len() && l[commas_of(
                l,
            )[j]] == ',',
        forall|j: int, k: int| 0 <= j < k < commas_of(l).len() ==> commas_of(l)[j] < commas_of(l)[k],
    decreases l.len(),
{
    if l.len() > 0 {
        lemma_commas_of_facts(l.drop_last());
        let csp = commas_of(l.drop_last());
        let cs = commas_of(l);
        assert(forall|x: int| 0 <= x < l.len() - 1 ==> l.drop_last()[x] == l[x]);
        if l.last() == ',' {
            assert(cs =~= csp.push(l.len() - 1));
            assert forall|j: int|
                0 <= j < cs.len() implies 0 <= #[trigger] cs[j] < l.len() && l[cs[j]] == ',' by {
                if j < csp.len() {
                    assert(cs[j] == csp[j]);
                    assert(l.drop_last()[csp[j]] == l[csp[j]]);
                } else {
                    assert(cs[j] == l.len() - 1);
                }
            }
            assert forall|j: int, k: int| 0 <= j < k < cs.len() implies cs[j] < cs[k] by {
                if k < csp.len() {
                } else if j < csp.len() {
                    assert(cs[j] == csp[j]);
                    assert(csp[j] < l.len() - 1);
                }
            }
        } else {
            assert(cs == csp);
            assert forall|j: int|
                0 <= j < cs.len() implies 0 <= #[trigger] cs[j] < l.len() && l[cs[j]] == ',' by {
                assert(l.drop_last()[cs[j]] == l[cs[j]]);
            }
        }
    }
}

/// The line splits into six comma-separated fields whose first and third
/// are coordinate blocks.
pub open spec fn pips_line_ok(l: Seq<char>) -> bool {
    let cs = commas_of(l);
    &&& cs.len() == 5
    &&& exists|i: int| #[trigger] coords_split(l.subrange(0, cs[0]), i)
    &&& exists|i: int| #[trigger] coords_split(l.subrange(cs[1] + 1, cs[2]), i)
}

/// `nd` is the line's first endpoint: the second field is its identifier
/// and the first field holds its coordinates.
pub open spec fn pips_node_a(l: Seq<char>, nd: NodeView) -> bool {
    let cs = commas_of(l);
    let coord = l.subrange(0, cs[0]);
    &&& nd.id == l.subrange(cs[0] + 1, cs[1])
    &&& exists|i: int|
        #[trigger] coords_split(coord, i) && nd.x == dec_val(coord.subrange(1, i)) && nd.y
            == dec_val(coord.subrange(i + 1, coord.len() as int))
}

/// `nd` is the line's second endpoint: the fourth field is its identifier
/// and the third field holds its coordinates.
pub open spec fn pips_node_b(l: Seq<char>, nd: NodeView) -> bool {
    let cs = commas_of(l);
    let coord = l.subrange(cs[1] + 1, cs[2]);
    &&& nd.id == l.subrange(cs[2] + 1, cs[3])
    &&& exists|i: int|
        #[trigger] coords_split(coord, i) && nd.x == dec_val(coord.subrange(1, i)) && nd.y
            == dec_val(coord.subrange(i + 1, coord.len() as int))
}

/// The graph under construction holds the line's two endpoint nodes and a
/// forward edge between them.
pub open spec fn line_represented(nodes: Seq<Node>, map: Seq<Vec<Edge>>, l: Seq<char>) -> bool {
    exists|u: int, v: int|
        0 <= u < nodes.len() && 0 <= v < nodes.len() && #[trigger] pips_node_a(l, nodes[u]@)
            && #[trigger] pips_node_b(l, nodes[v]@) && crate::paths::edge_exists(map, u, v)
}

/// Growing the node list and adjacency rows preserves representation.
proof fn lemma_repr_monotone(
    nodes0: Seq<Node>,
    map0: Seq<Vec<Edge>>,
    nodes1: Seq<Node>,
    map1: Seq<Vec<Edge>>,
    l: Seq<char>,
)
    requires
        map0.len() == nodes0.len(),
        nodes0.len() <= nodes1.len(),
        forall|j: int| 0 <= j < nodes0.len() ==> nodes1[j] == nodes0[j],
        map0.len() <= map1.len(),
        forall|j: int| 0 <= j < map0.len() ==> (#[trigger] map1[j])@.len() >= map0[j]@.len(),
        forall|j: int, k: int|
            0 <= j < map0.len() && 0 <= k < map0[j]@.len() ==> (#[trigger] map1[j]@[k]) == map0[j]@[k],
        line_represented(nodes0, map0, l),
    ensures
        line_represented(nodes1, map1, l),
{
    let (u, v) = choose|u: int, v: int|
        0 <= u < nodes0.len() && 0 <= v < nodes0.len() && #[trigger] pips_node_a(l, nodes0[u]@)
            && #[trigger] pips_node_b(l, nodes0[v]@) && crate::paths::edge_exists(map0, u, v);
    assert(0 <= u < map0.len());
    let k = choose|k: int|
        0 <= k < map0[u]@.len() && (#[trigger] map0[u]@[k]).node_id == v;
    assert(map1[u]@[k] == map0[u]@[k]);
    assert(map1[u]@[k].node_id == v);
    assert(crate::paths::edge_exists(map1, u, v));
}

impl Node {
    /// Split one pip line into its six comma-separated fields and build the
    /// two endpoint nodes from the first four.
    pub(crate) fn parse_from_pips_line(line: &str) -> (r: Result<(Node, Node), ParseError>)
        ensures
            r is Ok <==> pips_line_ok(line@),
            r matches Ok(ab) ==> pips_node_a(line@, ab.0@) && pips_node_b(line@, ab.1@),
    {
        let len = line.unicode_len();
        let mut commas: Vec<usize> = Vec::new();
        let mut i: usize = 0;
        while i < len
            invariant
                i <= len,
                len == line@.len(),
                forall|j: int| 0 <= j < commas@.len() ==> (#[trigger] commas@[j]) < i,
                forall|j: int, k: int| 0 <= j < k < commas@.len() ==> commas@[j] < commas@[k],
                commas@.len() == commas_of(line@.subrange(0, i as int)).len(),
                forall|j: int|
                    0 <= j < commas@.len() ==> (#[trigger] commas@[j]) as int == commas_of(
                        line@.subrange(0, i as int),
                    )[j],
            decreases len - i,
        {
            proof {
                let pref2 = line@.subrange(0, i + 1);
                assert(pref2.drop_last() =~= line@.subrange(0, i as int));
                assert(pref2.last() == line@[i as int]);
            }
            if line.get_char(i) == ',' {
                commas.push(i);
            }
            i += 1;
        }
        proof {
            assert(line@.subrange(0, len as int) =~= line@);
        }
        if commas.len() != 5 {
            return Err(ParseError::BadLine);
        }
        let c0 = commas[0];
        let c1 = commas[1];
        let c2 = commas[2];
        let c3 = commas[3];
        let coord_a = line.substring_char(0, c0);
        let id_a = line.substring_char(c0 + 1, c1);
        let coord_b = line.substring_char(c1 + 1, c2);
        let id_b = line.substring_char(c2 + 1, c3);
        let (xa, ya) = match from_str_coords(coord_a) {
            Ok(xy) => xy,
            Err(e) => {
                return Err(e);
            }
        };
        let (xb, yb) = match from_str_coords(coord_b) {
            Ok(xy) => xy,
            Err(e) => {
                return Err(e);
            }
        };
        let node_a = Node { id: id_a.to_owned(), x: xa, y: ya };
        let node_b = Node { id: id_b.to_owned(), x: xb, y: yb };
        proof {
            assert(pips_node_a(line@, node_a@));
            assert(pips_node_b(line@, node_b@));
        }
        Ok((node_a, node_b))
    }
}

/// Find the node among `nodes`, or append it with fresh costs and an empty
/// adjacency row.  Existing entries are untouched.
fn find_or_insert(
    nodes: &mut Vec<Node>,
    costs: &mut Vec<Costs>,
    map: &mut Vec<Vec<Edge>>,
    node: Node,
) -> (r: usize)
    requires
        old(costs)@.len() == old(nodes)@.len(),
        old(map)@.len() == old(nodes)@.len(),
    ensures
        final(costs)@.len() == final(nodes)@.len(),
        final(map)@.len() == final(nodes)@.len(),
        final(nodes)@.len() >= old(nodes)@.len(),
        r < final(nodes)@.len(),
        final(nodes)@[r as int]@ == node@,
        forall|j: int| 0 <= j < old(nodes)@.len() ==> final(nodes)@[j] == old(nodes)@[j],
        forall|j: int| 0 <= j < old(map)@.len() ==> final(map)@[j] == old(map)@[j],
        forall|j: int|
            old(nodes)@.len() <= j < final(nodes)@.len() ==> (#[trigger] final(map)@[j])@.len()
                == 0,
        forall|j: int| 0 <= j < old(costs)@.len() ==> final(costs)@[j] == old(costs)@[j],
        forall|j: int|
            old(costs)@.len() <= j < final(costs)@.len() ==> {
                &&& (#[trigger] final(costs)@[j]).historic_cost == 0
                &&& final(costs)@[j].capacity == 1
                &&& final(costs)@[j].usage == 0
            },
        // a duplicate-free node list stays duplicate-free
        (forall|a: int, b: int|
            0 <= a < b < old(nodes)@.len() ==> old(nodes)@[a]@ != old(nodes)@[b]@) ==> (forall|
            a: int,
            b: int,
        |
            0 <= a < b < final(nodes)@.len() ==> final(nodes)@[a]@ != final(nodes)@[b]@),
{
    let n = nodes.len();
    let mut i: usize = 0;
    while i < n
        invariant
            i <= n,
            n == nodes@.len(),
            *nodes == *old(nodes),
            *costs == *old(costs),
            *map == *old(map),
            costs@.len() == nodes@.len(),
            map@.len() == nodes@.len(),
            forall|j: int| 0 <= j < i ==> (#[trigger] nodes@[j])@ != node@,
        decreases n - i,
    {
        if nodes[i].same(&node) {
            return i;
        }
        i += 1;
    }
    let ghost nodes_before = nodes@;
    nodes.push(node);
    costs.push(Costs::new());
    map.push(Vec::new());
    proof {
        if forall|a: int, b: int|
            0 <= a < b < nodes_before.len() ==> nodes_before[a]@ != nodes_before[b]@ {
            assert forall|a: int, b: int|
                0 <= a < b < nodes@.len() implies nodes@[a]@ != nodes@[b]@ by {
                if b == nodes@.len() - 1 {
                    assert(nodes@[a] == nodes_before[a]);
                } else {
                    assert(nodes@[a] == nodes_before[a]);
                    assert(nodes@[b] == nodes_before[b]);
                }
            }
        }
    }
    n
}

impl FabricGraph {
    /// Build a fabric graph from the lines of a pip file: each line that is
    /// not blank or a comment contributes one forward edge between its two
    /// endpoint nodes, weighted by their Manhattan base cost; the reversed
    /// map mirrors the forward map.  The result is well-formed, with fresh
    /// congestion state.
    #[verifier::loop_isolation(false)]
    #[verifier::rlimit(100)]
    pub fn from_lines(lines: &Vec<String>) -> (r: Result<FabricGraph, ParseError>)
        ensures
            r matches Ok(g) ==> {
                &&& g.wf()
                &&& g.usage_clear()
                &&& forall|i: int|
                    0 <= i < g.costs@.len() ==> (#[trigger] g.costs@[i]).historic_cost == 0
                // no node record repeats
                &&& forall|a: int, b: int|
                    0 <= a < b < g.nodes@.len() ==> g.nodes@[a]@ != g.nodes@[b]@
                // every content line's endpoints and forward edge are present
                &&& forall|j: int|
                    0 <= j < lines@.len() && !spec_skippable(#[trigger] lines@[j]@)
                        ==> line_represented(g.nodes@, g.map@, spec_trim(lines@[j]@))
            },
            // reading fails exactly when some content line is malformed
            r is Err <==> exists|j: int|
                0 <= j < lines@.len() && !spec_skippable(#[trigger] lines@[j]@) && !pips_line_ok(
                    spec_trim(lines@[j]@),
                ),
    {
        let mut nodes: Vec<Node> = Vec::new();
        let mut costs: Vec<Costs> = Vec::new();
        let mut map: Vec<Vec<Edge>> = Vec::new();
        let mut li: usize = 0;
        while li < lines.len()
            invariant
                li <= lines@.len(),
                costs@.len() == nodes@.len(),
                map@.len() == nodes@.len(),
                adj_ok(map@, nodes@.len()),
                base_costs_ok(map@, nodes@),
                forall|j: int|
                    0 <= j < costs@.len() ==> {
                        &&& (#[trigger] costs@[j]).historic_cost == 0
                        &&& costs@[j].capacity == 1
                        &&& costs@[j].usage == 0
                    },
                forall|a: int, b: int| 0 <= a < b < nodes@.len() ==> nodes@[a]@ != nodes@[b]@,
                forall|j: int|
                    0 <= j < li && !spec_skippable(#[trigger] lines@[j]@) ==> pips_line_ok(
                        spec_trim(lines@[j]@),
                    ),
                forall|j: int|
                    0 <= j < li && !spec_skippable(#[trigger] lines@[j]@) ==> line_represented(
                        nodes@,
                        map@,
                        spec_trim(lines@[j]@),
                    ),
            decreases lines@.len() - li,
        {
            let line = &lines[li];
            let t = trim_blanks(line.as_str());
            let tlen = t.unicode_len();
            if tlen > 0 && t.get_char(0) != '#' {
                proof {
                    assert(!spec_skippable(lines@[li as int]@));
                }
                let (a, b) = match Node::parse_from_pips_line(t) {
                    Ok(ab) => ab,
                    Err(e) => {
                        return Err(e);
                    }
                };
                let ghost nodes0 = nodes@;
                let ghost map0 = map@;
                let sid = find_or_insert(&mut nodes, &mut costs, &mut map, a);
                let eid = find_or_insert(&mut nodes, &mut costs, &mut map, b);
                let cost = FabricGraph::distance(&nodes[sid], &nodes[eid]);
                let ghost map_before = map@;
                map[sid].push(Edge { node_id: eid, cost });
                proof {
                    assert forall|u: int, k: int|
                        0 <= u < map@.len() && 0 <= k < map@[u]@.len() implies {
                        &&& (#[trigger] map@[u]@[k]).node_id < nodes@.len()
                        &&& map@[u]@[k].cost == spec_base_cost(
                            nodes@[u]@,
                            nodes@[map@[u]@[k].node_id as int]@,
                        )
                    } by {
                        if u == sid as int && k == map@[u]@.len() - 1 {
                            assert(map@[u]@[k].node_id == eid);
                        } else {
                            assert(map@[u]@[k] == map_before[u]@[k]);
                        }
                    }
                    // earlier lines stay represented across the growth
                    assert(forall|j: int|
                        0 <= j < nodes0.len() ==> nodes@[j] == nodes0[j]);
                    assert forall|j: int|
                        0 <= j < map0.len() implies (#[trigger] map@[j])@.len() >= map0[j]@.len()
                        && (forall|k: int|
                        0 <= k < map0[j]@.len() ==> map@[j]@[k] == map0[j]@[k]) by {
                        if j == sid as int {
                            assert(forall|k: int|
                                0 <= k < map0[j]@.len() ==> map@[j]@[k] == map_before[j]@[k]);
                        } else {
                            assert(map@[j] == map_before[j]);
                        }
                    }
                    assert forall|j: int|
                        0 <= j < li && !spec_skippable(#[trigger] lines@[j]@) implies line_represented(
                        nodes@,
                        map@,
                        spec_trim(lines@[j]@),
                    ) by {
                        lemma_repr_monotone(nodes0, map0, nodes@, map@, spec_trim(lines@[j]@));
                    }
                    // and this line is represented by the freshly added edge
                    assert(line_represented(nodes@, map@, t@)) by {
                        assert(pips_node_a(t@, nodes@[sid as int]@));
                        assert(pips_node_b(t@, nodes@[eid as int]@));
                        assert(crate::paths::edge_exists(map@, sid as int, eid as int)) by {
                            assert(map@[sid as int]@[map@[sid as int]@.len() - 1].node_id == eid);
                        }
                    }
                }
            } else {
                proof {
                    assert(spec_skippable(lines@[li as int]@));
                }
            }
            li += 1;
        }
        let map_reversed = get_reversed_map(&nodes, &map);
        Ok(FabricGraph { nodes, costs, map, map_reversed })
    }
}

/// The identifier of a LUT input by its tag characters: it starts with `L`
/// and has `I` at position three.
pub open spec fn lut_input_tag(id: Seq<char>) -> bool {
    id.len() >= 4 && id[0] == 'L' && id[3] == 'I'
}

/// The identifier of a LUT output by its tag characters: it starts with `L`
/// and has `O` at position three.
pub open spec fn lut_output_tag(id: Seq<char>) -> bool {
    id.len() >= 4 && id[0] == 'L' && id[3] == 'O'
}

/// Partition the node indices into LUT inputs and LUT outputs by their
/// identifier tags; everything else is dropped.
pub fn bucket_luts(nodes: &Vec<Node>) -> (r: (Vec<usize>, Vec<usize>))
    ensures
        forall|j: int|
            0 <= j < r.0@.len() ==> (#[trigger] r.0@[j]) < nodes@.len() && lut_input_tag(
                nodes@[r.0@[j] as int].id@,
            ),
        forall|j: int|
            0 <= j < r.1@.len() ==> (#[trigger] r.1@[j]) < nodes@.len() && lut_output_tag(
                nodes@[r.1@[j] as int].id@,
            ),
        forall|i: int|
            0 <= i < nodes@.len() && lut_input_tag(nodes@[i].id@) ==> r.0@.contains(i as usize),
        forall|i: int|
            0 <= i < nodes@.len() && lut_output_tag(nodes@[i].id@) ==> r.1@.contains(i as usize),
        // both lists are strictly increasing, hence duplicate-free
        forall|a: int, b: int| 0 <= a < b < r.0@.len() ==> r.0@[a] < r.0@[b],
        forall|a: int, b: int| 0 <= a < b < r.1@.len() ==> r.1@[a] < r.1@[b],
{
    let mut lut_inputs: Vec<usize> = Vec::new();
    let mut lut_outputs: Vec<usize> = Vec::new();
    let mut i: usize = 0;
    while i < nodes.len()
        invariant
            i <= nodes@.len(),
            forall|j: int| 0 <= j < lut_inputs@.len() ==> (#[trigger] lut_inputs@[j]) < i,
            forall|j: int| 0 <= j < lut_outputs@.len() ==> (#[trigger] lut_outputs@[j]) < i,
            forall|a: int, b: int|
                0 <= a < b < lut_inputs@.len() ==> lut_inputs@[a] < lut_inputs@[b],
            forall|a: int, b: int|
                0 <= a < b < lut_outputs@.len() ==> lut_outputs@[a] < lut_outputs@[b],
            forall|j: int|
                0 <= j < lut_inputs@.len() ==> (#[trigger] lut_inputs@[j]) < nodes@.len()
                    && lut_input_tag(nodes@[lut_inputs@[j] as int].id@),
            forall|j: int|
                0 <= j < lut_outputs@.len() ==> (#[trigger] lut_outputs@[j]) < nodes@.len()
                    && lut_output_tag(nodes@[lut_outputs@[j] as int].id@),
            forall|i2: int|
                0 <= i2 < i && lut_input_tag(nodes@[i2].id@) ==> lut_inputs@.contains(i2 as usize),
            forall|i2: int|
                0 <= i2 < i && lut_output_tag(nodes@[i2].id@) ==> lut_outputs@.contains(
                    i2 as usize,
                ),
        decreases nodes@.len() - i,
    {
        let id = &nodes[i].id;
        let idlen = id.as_str().unicode_len();
        let ghost inputs_before = lut_inputs@;
        let ghost outputs_before = lut_outputs@;
        if idlen >= 4 && id.as_str().get_char(0) == 'L' {
            let tag = id.as_str().get_char(3);
            if tag == 'O' {
                lut_outputs.push(i);
                proof {
                    assert(lut_outputs@[outputs_before.len() as int] == i);
                }
            } else if tag == 'I' {
                lut_inputs.push(i);
                proof {
                    assert(lut_inputs@[inputs_before.len() as int] == i);
                }
            }
        }
        proof {
            assert forall|i2: int|
                0 <= i2 < i + 1 && lut_input_tag(nodes@[i2].id@) implies lut_inputs@.contains(
                i2 as usize,
            ) by {
                if i2 < i {
                    assert(inputs_before.contains(i2 as usize));
                    let j = choose|j: int|
                        0 <= j < inputs_before.len() && inputs_before[j] == i2 as usize;
                    assert(lut_inputs@[j] == i2 as usize);
                }
            }
            assert forall|i2: int|
                0 <= i2 < i + 1 && lut_output_tag(nodes@[i2].id@) implies lut_outputs@.contains(
                i2 as usize,
            ) by {
                if i2 < i {
                    assert(outputs_before.contains(i2 as usize));
                    let j = choose|j: int|
                        0 <= j < outputs_before.len() && outputs_before[j] == i2 as usize;
                    assert(lut_outputs@[j] == i2 as usize);
                }
            }
        }
        i += 1;
    }
    (lut_inputs, lut_outputs)
}

/// A single row holds an edge to `dst` with cost `cost`.
pub open spec fn inner_has(row: Seq<Edge>, dst: usize, cost: u64) -> bool {
    exists|j: int|
        0 <= j < row.len() && (#[trigger] row[j]).node_id == dst && row[j].cost == cost
}

} // verus!
