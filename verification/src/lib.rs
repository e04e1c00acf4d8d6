//! Checkers for benchmark solutions: a solution-format decoder, an
//! undirected-graph model with BFS-based connectivity queries, and the
//! feasibility checks built on them.

pub mod connectivity;
pub mod decoder;
pub mod errors;
pub mod graph;
pub mod labs;
pub mod load;
pub mod marketsplit;
pub mod stableset;
pub mod steiner;
pub mod topology;
pub mod text;
