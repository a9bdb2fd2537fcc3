use fabric_router::validate;
use fabric_router::validate_routing;
use fabric_router::Config;
use fabric_router::FabricGraph;
use fabric_router::MemoryLog;
use fabric_router::NoLog;
use fabric_router::RouteError;
use fabric_router::Routing;
use fabric_router::RoutingResult;
use fabric_router::SimpleSolver;
use fabric_router::SimpleSteinerSolver;
use fabric_router::SolveError;
use fabric_router::Solver;
use fabric_router::SteinerSolver;
use fabric_router::ValidationError;
use fabric_router::route;

fn lines(v: &[&str]) -> Vec<String> {
    v.iter().map(|s| s.to_string()).collect()
}

fn net(signal: usize, sinks: Vec<usize>) -> Routing {
    Routing { sinks, signal, result: None, steiner_tree: None }
}

fn sorted(mut v: Vec<usize>) -> Vec<usize> {
    v.sort();
    v
}

#[test]
fn trivial_single_net_single_sink() {
    // A(0,0) -> B(1,0) -> C(2,0); one net from A to C
    let mut graph = FabricGraph::from_lines(&lines(&[
        "X0Y0,A,X1Y0,B,0,0",
        "X1Y0,B,X2Y0,C,0,0",
    ]))
    .unwrap();
    let mut plan = vec![net(0, vec![2])];
    let config = Config::new(1, 100, Solver::Simple(SimpleSolver), 10);
    let mut log = MemoryLog::new();
    let ir = route(&mut plan, &mut graph, config, &mut log).unwrap();
    assert_eq!(ir.iteration, 0);
    assert_eq!(ir.conflicts, 0);
    let rr = plan[0].result.as_ref().unwrap();
    assert_eq!(rr.paths.len(), 1);
    assert_eq!(rr.paths[0].0, 2);
    assert_eq!(rr.paths[0].1, vec![0, 1, 2]);
    assert_eq!(sorted(rr.nodes.clone()), vec![0, 1, 2]);
    assert!(validate(&plan, &graph).is_ok());
}

#[test]
fn forced_congestion_terminates_unresolved() {
    // two nets with a unique bottleneck X and no alternative
    let mut graph = FabricGraph::from_lines(&lines(&[
        "X0Y0,S1,X1Y0,X,0,0",
        "X0Y1,S2,X1Y0,X,0,0",
        "X1Y0,X,X2Y0,T1,0,0",
        "X1Y0,X,X2Y1,T2,0,0",
    ]))
    .unwrap();
    // indices by first appearance: S1=0, X=1, S2=2, T1=3, T2=4
    let mut plan = vec![net(0, vec![3]), net(2, vec![4])];
    let config = Config::new(2, 100, Solver::Simple(SimpleSolver), 5);
    let mut log = MemoryLog::new();
    let r = route(&mut plan, &mut graph, config, &mut log);
    match r {
        Err(RouteError::Unresolved(ir)) => {
            assert!(ir.conflicts >= 1);
            assert_eq!(ir.iteration, 5);
        }
        _ => panic!("expected an unresolved run"),
    }
    // after the first iteration both nets went through X, so its historic
    // cost rose by 0.1 per iteration of overuse
    assert_eq!(log.entries[0].conflicts, 1);
    assert_eq!(graph.costs[1].historic_cost, 6 * 100);
    assert_eq!(graph.costs[1].usage, 0);
}

#[test]
fn negotiation_diverts_over_detour() {
    // same bottleneck, but the second net has a costlier detour over D
    let mut graph = FabricGraph::from_lines(&lines(&[
        "X0Y0,S1,X1Y0,X,0,0",
        "X0Y1,S2,X1Y0,X,0,0",
        "X1Y0,X,X2Y0,T1,0,0",
        "X1Y0,X,X2Y1,T2,0,0",
        "X0Y1,S2,X1Y4,D,0,0",
        "X1Y4,D,X2Y1,T2,0,0",
    ]))
    .unwrap();
    // S1=0, X=1, S2=2, T1=3, T2=4, D=5
    let mut plan = vec![net(0, vec![3]), net(2, vec![4])];
    let config = Config::new(3, 100, Solver::Simple(SimpleSolver), 100);
    let mut log = MemoryLog::new();
    let ir = route(&mut plan, &mut graph, config, &mut log).unwrap();
    assert_eq!(ir.conflicts, 0);
    assert!(ir.iteration > 0);
    // the second net diverted over D; the first kept the bottleneck
    let rr1 = plan[1].result.as_ref().unwrap();
    assert_eq!(rr1.paths[0].1, vec![2, 5, 4]);
    assert!(validate(&plan, &graph).is_ok());
}

#[test]
fn steiner_shares_trunk_and_uses_less_wire() {
    // sinks T1 and T2 behind a common corridor S -> A -> B
    let pip_lines = [
        "X0Y0,S,X1Y0,A,0,0",
        "X1Y0,A,X2Y0,B,0,0",
        "X2Y0,B,X3Y0,T1,0,0",
        "X2Y0,B,X2Y2,T2,0,0",
        "X0Y0,S,X1Y1,C,0,0",
        "X1Y1,C,X2Y2,T2,0,0",
    ];
    // S=0, A=1, B=2, T1=3, T2=4, C=5
    let mut g1 = FabricGraph::from_lines(&lines(&pip_lines)).unwrap();
    let mut p1 = vec![net(0, vec![3, 4])];
    let ir_simple = route(
        &mut p1,
        &mut g1,
        Config::new(4, 100, Solver::Simple(SimpleSolver), 10),
        &mut NoLog,
    )
    .unwrap();
    let mut g2 = FabricGraph::from_lines(&lines(&pip_lines)).unwrap();
    let mut p2 = vec![net(0, vec![3, 4])];
    let ir_steiner = route(
        &mut p2,
        &mut g2,
        Config::new(5, 100, Solver::Steiner(SteinerSolver), 10),
        &mut NoLog,
    )
    .unwrap();
    // the simple solver routes T2 over its own shortest path through C,
    // while the Steiner solver grafts T2 onto the trunk at B
    assert_eq!(ir_simple.total_wire_use, 6);
    assert_eq!(ir_steiner.total_wire_use, 5);
    assert!(ir_steiner.total_wire_use < ir_simple.total_wire_use);
    let rr = p2[0].result.as_ref().unwrap();
    assert_eq!(sorted(rr.nodes.clone()), vec![0, 1, 2, 3, 4]);
    assert!(validate(&p2, &g2).is_ok());
}

#[test]
fn preplanned_stagnation_replans_and_converges() {
    // the first net's initial skeleton anchors its path to T1 on the join
    // node X, which the second net also needs; per-iteration stitching can
    // never leave X, so the conflict count stagnates until, at the
    // two-hundredth stagnant iteration, re-planning chooses anchors that
    // route over V and W instead
    let pip_lines = [
        "X0Y0,S1,X1Y0,X,0,0",
        "X1Y0,X,X2Y0,T1,0,0",
        "X0Y0,S1,X2Y4,V,0,0",
        "X2Y4,V,X2Y0,T1,0,0",
        "X1Y0,X,X1Y1,M,0,0",
        "X0Y0,S1,X0Y2,W,0,0",
        "X0Y2,W,X1Y1,M,0,0",
        "X2Y2,S2,X1Y0,X,0,0",
        "X1Y0,X,X3Y1,T2,0,0",
    ];
    // S1=0, X=1, T1=2, V=3, M=4, W=5, S2=6, T2=7
    let mut graph = FabricGraph::from_lines(&lines(&pip_lines)).unwrap();
    let mut plan = vec![net(0, vec![2, 4]), net(6, vec![7])];
    let config = Config::new(6, 100, Solver::SimpleSteiner(SimpleSteinerSolver), 400);
    let mut log = MemoryLog::new();
    let ir = route(&mut plan, &mut graph, config, &mut log).unwrap();
    assert_eq!(ir.conflicts, 0);
    // it took the stagnation threshold to get there
    assert!(ir.iteration > 200);
    // the re-planned net now reaches T1 over V and M over W, avoiding X
    let rr = plan[0].result.as_ref().unwrap();
    let t1_path = rr.paths.iter().find(|p| p.0 == 2).unwrap();
    assert!(t1_path.1.contains(&3));
    assert!(!t1_path.1.contains(&1));
    let m_path = rr.paths.iter().find(|p| p.0 == 4).unwrap();
    assert!(m_path.1.contains(&5));
    assert!(!m_path.1.contains(&1));
    assert!(validate(&plan, &graph).is_ok());
}

#[test]
fn preplanned_solver_needs_preplanning() {
    let graph = FabricGraph::from_lines(&lines(&["X0Y0,A,X1Y0,B,0,0"])).unwrap();
    let mut r = net(0, vec![1]);
    let err = SimpleSteinerSolver.solve(&graph, &mut r).unwrap_err();
    assert_eq!(err, SolveError::MissingPrePlan);
    assert!(r.result.is_none());
}

#[test]
fn unreachable_sink_is_reported() {
    let graph = FabricGraph::from_lines(&lines(&[
        "X0Y0,A,X1Y0,B,0,0",
        "X2Y0,C,X3Y0,D,0,0",
    ]))
    .unwrap();
    // A=0, B=1, C=2, D=3; nothing connects B to C
    let mut r = net(0, vec![3]);
    let err = SimpleSolver.solve(&graph, &mut r).unwrap_err();
    assert_eq!(err, SolveError::UnreachableSink { signal: 0, sink: 3 });
}

#[test]
fn steiner_total_failure_clears_stale_result() {
    let graph = FabricGraph::from_lines(&lines(&[
        "X0Y0,A,X1Y0,B,0,0",
        "X2Y0,C,X3Y0,D,0,0",
    ]))
    .unwrap();
    // no trunk candidate is reachable, so the stale result is wiped
    let mut r = Routing {
        sinks: vec![3],
        signal: 0,
        result: Some(RoutingResult { paths: vec![(3, vec![0, 3])], nodes: vec![0, 3] }),
        steiner_tree: None,
    };
    let err = SteinerSolver.solve(&graph, &mut r).unwrap_err();
    assert!(matches!(err, SolveError::UnreachableSink { .. }));
    assert!(r.result.is_none());
}

#[test]
fn validator_rejects_cross_net_reuse() {
    let graph = FabricGraph::from_lines(&lines(&[
        "X0Y0,A,X1Y0,B,0,0",
        "X1Y0,B,X2Y0,C,0,0",
    ]))
    .unwrap();
    // both nets claim node 1 in their result
    let mk = |signal: usize, sink: usize| Routing {
        sinks: vec![sink],
        signal,
        result: Some(RoutingResult {
            paths: vec![(sink, vec![signal, sink])],
            nodes: vec![signal, sink],
        }),
        steiner_tree: None,
    };
    let plan = vec![mk(0, 1), mk(1, 2)];
    let err = validate(&plan, &graph).unwrap_err();
    assert_eq!(err, ValidationError::ReusedNode { net: 1, prior_net: 0, node: 1 });
}

#[test]
fn validator_rejects_missing_result_and_bad_indices() {
    let graph = FabricGraph::from_lines(&lines(&["X0Y0,A,X1Y0,B,0,0"])).unwrap();
    let plan = vec![net(0, vec![1])];
    assert_eq!(
        validate(&plan, &graph).unwrap_err(),
        ValidationError::MissingResult { net: 0 }
    );
    let bad = vec![Routing {
        sinks: vec![1],
        signal: 0,
        result: Some(RoutingResult { paths: vec![(1, vec![0, 1])], nodes: vec![0, 9] }),
        steiner_tree: None,
    }];
    assert_eq!(
        validate(&bad, &graph).unwrap_err(),
        ValidationError::InvalidNode { net: 0, node: 9 }
    );
}

#[test]
fn preplanning_rejects_overlapping_reservations() {
    // the first net reserves B and C as join nodes; the second net's whole
    // trunk then consists of reserved nodes, so its join must overlap
    let mut graph = FabricGraph::from_lines(&lines(&[
        "X0Y0,A,X1Y0,B,0,0",
        "X1Y0,B,X2Y0,C,0,0",
    ]))
    .unwrap();
    let mut plan = vec![net(0, vec![2, 1]), net(1, vec![2])];
    let config = Config::new(9, 100, Solver::SimpleSteiner(SimpleSteinerSolver), 10);
    let r = route(&mut plan, &mut graph, config, &mut NoLog);
    assert!(matches!(
        r,
        Err(RouteError::OverlappingPrePlan { net: 1, node: 2 })
    ));
}

#[test]
fn preplanning_reports_unreachable_trunk() {
    // the net's sink cannot be reached at all, so no trunk candidate exists
    let mut graph = FabricGraph::from_lines(&lines(&[
        "X0Y0,A,X1Y0,B,0,0",
        "X2Y0,C,X3Y0,D,0,0",
    ]))
    .unwrap();
    let mut plan = vec![net(0, vec![3])];
    let config = Config::new(10, 100, Solver::SimpleSteiner(SimpleSteinerSolver), 10);
    let r = route(&mut plan, &mut graph, config, &mut NoLog);
    assert!(matches!(
        r,
        Err(RouteError::PrePlan { net: 0, err: SolveError::UnreachableSink { signal: 0, sink: 3 } })
    ));
}

#[test]
fn validator_rejects_out_of_range_signal_and_sink() {
    let graph = FabricGraph::from_lines(&lines(&["X0Y0,A,X1Y0,B,0,0"])).unwrap();
    let mk = |signal: usize, sink: usize| Routing {
        sinks: vec![sink],
        signal,
        result: Some(RoutingResult { paths: vec![(sink, vec![signal, sink])], nodes: vec![0, 1] }),
        steiner_tree: None,
    };
    assert_eq!(
        validate(&vec![mk(7, 1)], &graph).unwrap_err(),
        ValidationError::InvalidSignal { net: 0, signal: 7 }
    );
    assert_eq!(
        validate(&vec![mk(0, 9)], &graph).unwrap_err(),
        ValidationError::InvalidSink { net: 0, sink: 9 }
    );
}

#[test]
fn validator_rejects_disconnected_claim() {
    let graph = FabricGraph::from_lines(&lines(&[
        "X0Y0,A,X1Y0,B,0,0",
        "X1Y0,B,X2Y0,C,0,0",
    ]))
    .unwrap();
    // the claimed set misses B, so C is not reachable inside it
    let plan = vec![Routing {
        sinks: vec![2],
        signal: 0,
        result: Some(RoutingResult { paths: vec![(2, vec![0, 1, 2])], nodes: vec![0, 2] }),
        steiner_tree: None,
    }];
    assert_eq!(
        validate(&plan, &graph).unwrap_err(),
        ValidationError::UnreachableSink { net: 0, signal: 0, sink: 2 }
    );
}

#[test]
fn validate_is_idempotent_on_accepted_plan() {
    let mut graph = FabricGraph::from_lines(&lines(&[
        "X0Y0,A,X1Y0,B,0,0",
        "X1Y0,B,X2Y0,C,0,0",
    ]))
    .unwrap();
    let mut plan = vec![net(0, vec![2])];
    route(
        &mut plan,
        &mut graph,
        Config::new(7, 100, Solver::Simple(SimpleSolver), 10),
        &mut NoLog,
    )
    .unwrap();
    assert!(validate(&plan, &graph).is_ok());
    // re-running the validator on the already-validated plan accepts again
    assert!(validate(&plan, &graph).is_ok());
    assert!(validate_routing(&graph, &plan).is_ok());
}

#[test]
fn driver_is_deterministic_with_zero_hist_factor() {
    let pip_lines = [
        "X0Y0,S1,X1Y0,X,0,0",
        "X0Y1,S2,X1Y0,X,0,0",
        "X1Y0,X,X2Y0,T1,0,0",
        "X1Y0,X,X2Y1,T2,0,0",
    ];
    let run = || {
        let mut graph = FabricGraph::from_lines(&lines(&pip_lines)).unwrap();
        let mut plan = vec![net(0, vec![3]), net(2, vec![4])];
        let mut log = MemoryLog::new();
        let _ = route(
            &mut plan,
            &mut graph,
            Config::new(8, 0, Solver::Simple(SimpleSolver), 20),
            &mut log,
        );
        log.entries.iter().map(|e| e.conflicts).collect::<Vec<usize>>()
    };
    let first = run();
    let second = run();
    assert_eq!(first, second);
    assert_eq!(first.len(), 21);
}
