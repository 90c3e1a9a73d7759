//! Exact subgraph isomorphism in the VF3 family: enumeration of the embeddings
//! of a small pattern graph into a larger target graph, node-induced or
//! edge-induced, by a depth-first search over transferable work items.
//!
//! The crate is verified: the number of solutions that a search reports is
//! the number of embeddings, whatever the visiting order, the pruning policy
//! or the work-distribution strategy. Only the readings of the clock, in
//! [`clock`], are taken on trust, and nothing is claimed of them.
//!
//! [`run_vf3`], [`run_vf3l`] and [`run_vf3p`] take the texts of two graphs;
//! [`match_graphs`] and [`match_graphs_parallel`] take two graphs. The
//! modules below them hold the parts: the graph model and its loader, the
//! ordering planner, the search step on work items, both engines, the
//! scheduler and the result sink.

pub mod clock;
pub mod embedding;
pub mod error;
pub mod graph;
pub mod laws;
pub mod loader;
pub mod options;
pub mod parallel;
pub mod plan;
pub mod query;
pub mod result;
pub mod scheduler;
pub mod search;
pub mod work;

pub use error::VF3Error;
pub use graph::{Graph, GraphView};
pub use options::{GraphFormat, ParallelOptions, RunOptions};
pub use query::{
    match_graphs, match_graphs_parallel, run_vf3, run_vf3l, run_vf3p, VF3Query,
};
pub use result::{convert_result, ResultData, ResultSink, VF3Result};
