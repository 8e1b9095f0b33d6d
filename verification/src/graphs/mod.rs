//! Searches in directed graphs that are given by their adjacency lists:
//! breadth-first search for the distance between two nodes, depth-first
//! search for a path between them, and Dijkstra's algorithm for the shortest
//! distances where the edges have weights.

pub mod bfs;
pub mod dfs;
pub mod dijkstra;
pub mod model;

pub use model::Distance;
pub use model::Graph;
