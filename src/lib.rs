//! Shortest water routes over a compact grid graph: coastline ring
//! assembly, a flattened adjacency array and a resumable Dijkstra search.
pub mod graph;
pub mod paths;
pub mod dijkstra;
pub mod rings;
pub mod navigator;
