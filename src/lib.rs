//! Classical graph algorithms with machine-checked contracts: traversals,
//! connectivity, shortest paths, maximum flow and bipartite matching.
pub mod graph;
pub mod reach;
pub mod traversal;
pub mod forest_count;
pub mod topo;
pub mod bipartite;
pub mod scc;
pub mod matching;
pub mod textfmt;
pub mod flow;
pub mod hypercube;
pub mod shortest;
pub mod weighted;
