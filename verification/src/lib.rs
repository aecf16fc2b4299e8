//! An in-memory directed-graph engine: pluggable node and edge value types,
//! per-node connection guards, and traversal algorithms (depth-first and
//! breadth-first path search, cycle detection, component decomposition).
//!
//! A [`builder::GraphBuilder`] produces a configured [`backend::Graph`]; nodes
//! are created and connected through the [`backend::Backend`] operation set,
//! and the traversal algorithms answer reachability, path and cycle queries
//! over the adjacency sets.

pub mod backend;
pub mod builder;
pub mod caps;
pub mod ids;
pub mod items;
pub mod nodebase;
pub mod reach;
pub mod search;
mod util;
