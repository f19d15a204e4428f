//! Dependency graphs built from a module dependency report, with
//! shortest-chain and all-simple-chain queries between modules.
//!
//! The graph keeps one node per distinct module path and one edge per
//! distinct (module, static import target) pair: an import listed twice adds
//! no parallel edge, so every chain found is found once.

pub mod digraph;
pub mod graph;
pub mod paths;
pub mod query;
pub mod report;
