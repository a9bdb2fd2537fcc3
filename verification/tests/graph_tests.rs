use fabric_router::bucket_luts;
use fabric_router::from_str_coords;
use fabric_router::Costs;
use fabric_router::FabricGraph;
use fabric_router::GraphNode;
use fabric_router::NodeType;
use fabric_router::ParseError;

fn lines(v: &[&str]) -> Vec<String> {
    v.iter().map(|s| s.to_string()).collect()
}

#[test]
fn coords_parse_simple() {
    assert_eq!(from_str_coords("X1Y2"), Ok((1, 2)));
    assert_eq!(from_str_coords("X0Y0"), Ok((0, 0)));
    assert_eq!(from_str_coords("X255Y255"), Ok((255, 255)));
    assert_eq!(from_str_coords("X007Y010"), Ok((7, 10)));
}

#[test]
fn coords_parse_rejects_malformed() {
    assert_eq!(from_str_coords(""), Err(ParseError::BadCoords));
    assert_eq!(from_str_coords("Y1X2"), Err(ParseError::BadCoords));
    assert_eq!(from_str_coords("X1"), Err(ParseError::BadCoords));
    assert_eq!(from_str_coords("XY1"), Err(ParseError::BadCoords));
    assert_eq!(from_str_coords("X1Y"), Err(ParseError::BadCoords));
    assert_eq!(from_str_coords("X256Y0"), Err(ParseError::BadCoords));
    assert_eq!(from_str_coords("X1aY2"), Err(ParseError::BadCoords));
}

#[test]
fn graph_node_parse_classifies() {
    let g = GraphNode::parse("X3Y4", "LA_I0").unwrap();
    assert_eq!(g.node.x, 3);
    assert_eq!(g.node.y, 4);
    assert_eq!(g.node.id, "LA_I0");
    match g.typ {
        NodeType::LutInput(li) => {
            assert_eq!(li.letter, 'A');
            assert_eq!(li._input_pin, 0);
            assert!(li._get_others().is_empty());
        }
        _ => panic!("expected a LUT input"),
    }
    let g = GraphNode::parse("X0Y0", "LB_O").unwrap();
    assert!(matches!(g.typ, NodeType::LutOutput(_)));
    let g = GraphNode::parse("X0Y0", "WIRE3").unwrap();
    assert!(matches!(g.typ, NodeType::Default(_)));
    // close misses stay generic
    let g = GraphNode::parse("X0Y0", "LA_I4").unwrap();
    assert!(matches!(g.typ, NodeType::Default(_)));
    assert!(GraphNode::parse("bad", "LA_I0").is_err());
}

#[test]
fn costs_update_folds_overuse() {
    let mut c = Costs::new();
    assert_eq!(c.historic_cost, 0);
    assert_eq!(c.capacity, 1);
    c.usage = 2;
    // one unit of overuse at factor 0.1 adds 0.1 (100 milli)
    let congested = c.update(100);
    assert!(congested);
    assert_eq!(c.historic_cost, 100);
    assert_eq!(c.usage, 0);
    // at or below capacity nothing accumulates
    c.usage = 1;
    let congested = c.update(100);
    assert!(!congested);
    assert_eq!(c.historic_cost, 100);
    // historic cost never decreases
    c.usage = 3;
    assert!(c.update(0));
    assert_eq!(c.historic_cost, 100);
}

#[test]
fn calc_costs_formula() {
    let mut c = Costs::new();
    // (base + historic) * (1 + usage)
    assert_eq!(c.calc_costs(2000), 2000);
    c.usage = 1;
    assert_eq!(c.calc_costs(2000), 4000);
    c.historic_cost = 500;
    assert_eq!(c.calc_costs(2000), 5000);
}

#[test]
fn from_lines_base_costs_follow_manhattan() {
    let g = FabricGraph::from_lines(&lines(&[
        "X0Y0,A,X1Y0,B,0,0",
        "# a comment",
        "",
        "X1Y0,B,X3Y2,C,0,0",
    ]))
    .unwrap();
    assert_eq!(g.nodes.len(), 3);
    // base cost = 1000 * (1 + |dx| + |dy|)
    assert_eq!(g.map[0][0].node_id, 1);
    assert_eq!(g.map[0][0].cost, 2000);
    assert_eq!(g.map[1][0].node_id, 2);
    assert_eq!(g.map[1][0].cost, 1000 * (1 + 2 + 2));
}

#[test]
fn from_lines_reversed_map_mirrors_forward() {
    let g = FabricGraph::from_lines(&lines(&[
        "X0Y0,A,X1Y0,B,0,0",
        "X1Y0,B,X2Y0,C,0,0",
        "X0Y0,A,X2Y0,C,0,0",
    ]))
    .unwrap();
    // every forward edge (u, v, c) appears as (v, u, c) in the reversed map
    let mut fwd: Vec<(usize, usize, u64)> = Vec::new();
    for (u, row) in g.map.iter().enumerate() {
        for e in row {
            fwd.push((u, e.node_id, e.cost));
        }
    }
    let mut rev: Vec<(usize, usize, u64)> = Vec::new();
    for (v, row) in g.map_reversed.iter().enumerate() {
        for e in row {
            rev.push((e.node_id, v, e.cost));
        }
    }
    fwd.sort();
    rev.sort();
    assert_eq!(fwd, rev);
}

#[test]
fn from_lines_rejects_bad_line() {
    assert!(FabricGraph::from_lines(&lines(&["X0Y0,A,X1Y0"])).is_err());
    assert!(FabricGraph::from_lines(&lines(&["nonsense,A,X1Y0,B,0,0"])).is_err());
}

#[test]
fn bucket_luts_partitions_by_tag() {
    let g = FabricGraph::from_lines(&lines(&[
        "X0Y0,LA_O,X1Y0,WIRE,0,0",
        "X1Y0,WIRE,X1Y1,LA_I0,0,0",
        "X1Y1,LA_I0,X2Y0,LB_O,0,0",
    ]))
    .unwrap();
    let (inputs, outputs) = bucket_luts(&g.nodes);
    assert_eq!(inputs, vec![2]);
    assert_eq!(outputs, vec![0, 3]);
}

#[test]
fn dijkstra_trivial_and_unreachable() {
    let g = FabricGraph::from_lines(&lines(&[
        "X0Y0,A,X1Y0,B,0,0",
        "X1Y0,B,X2Y0,C,0,0",
    ]))
    .unwrap();
    // a node reaches itself with the one-node path at cost zero
    let (p, c) = g.dijkstra(1, 1).unwrap();
    assert_eq!(p, vec![1]);
    assert_eq!(c, 0);
    // no edge leads back to the source
    assert!(g.dijkstra(2, 0).is_none());
    // a plain two-hop path, costed by entering each node
    let (p, c) = g.dijkstra(0, 2).unwrap();
    assert_eq!(p, vec![0, 1, 2]);
    assert_eq!(c, 4000);
}

#[test]
fn dijkstra_all_distances_to_source() {
    let g = FabricGraph::from_lines(&lines(&[
        "X0Y0,A,X1Y0,B,0,0",
        "X1Y0,B,X2Y0,C,0,0",
    ]))
    .unwrap();
    let d = g.dijkstra_all(2);
    // entry for the source itself is zero
    assert_eq!(d[2], 0);
    // entries accumulate along the reversed map
    assert_eq!(d[1], 2000);
    assert_eq!(d[0], 4000);
}
