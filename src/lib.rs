//! Graph algorithms over a small capability model, and a binary min-heap.

pub mod bfs;
pub mod binary_heap;
pub mod dag;
pub mod dfs;
pub mod dijkstras;
pub mod directed_graph;
pub mod graph;
pub mod paths;
pub mod prims;
pub mod shortest;
pub mod table;
pub mod undirected_graph;
pub mod vertex;
pub mod weighted_graph;
