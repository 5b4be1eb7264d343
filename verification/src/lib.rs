//! Directed, weighted graph algorithms: depth-first traversal with postorder
//! numbering, cycle detection via back edges, topological sorting,
//! connectivity checking, and minimum spanning tree construction by
//! Kruskal's method.

pub mod types;
pub mod dfs;
pub mod analysis;
pub mod sorting;
pub mod mst;
pub mod laws;
