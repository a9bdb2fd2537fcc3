//! A congestion-negotiated router for an FPGA interconnect fabric.
//!
//! The fabric is a directed graph of routing resources; each net connects a
//! signal node to one or more sink nodes.  Routing proceeds in negotiated
//! iterations: nets are routed greedily, shared nodes accumulate a historic
//! penalty, and the loop repeats until no node is claimed by two nets.
//!
//! All costs are exact fixed-point integers in milli-units (one thousandth
//! of a base cost unit), so every cost computation in the crate is exact
//! and deterministic.

mod arith;
mod dijkstra;
mod fabric_graph;
mod node;
mod path_finder;
mod paths;
mod plan;
mod solver;
mod validate;

pub use arith::sat_add;
pub use arith::sat_mul;
pub use fabric_graph::bucket_luts;
pub use fabric_graph::get_reversed_map;
pub use fabric_graph::FabricGraph;
pub use fabric_graph::Routing;
pub use fabric_graph::RoutingResult;
pub use fabric_graph::SteinerTree;
pub use node::from_str_coords;
pub use node::Costs;
pub use node::DefaultNode;
pub use node::Edge;
pub use node::GraphNode;
pub use node::LutInput;
pub use node::LutOutput;
pub use node::Node;
pub use node::NodeType;
pub use node::ParseError;
pub use path_finder::iteration;
pub use path_finder::pre_process;
pub use path_finder::route;
pub use path_finder::validate_routing;
pub use path_finder::Config;
pub use path_finder::IterationResult;
pub use path_finder::Logging;
pub use path_finder::MemoryLog;
pub use path_finder::NoLog;
pub use path_finder::RouteError;
pub use solver::SimpleSolver;
pub use solver::SimpleSteinerSolver;
pub use solver::SolveError;
pub use solver::Solver;
pub use solver::SteinerSolver;
pub use validate::validate;
pub use validate::ValidationError;
