//! Shortest distances in a directed graph with weighted edges.

pub mod model;
pub mod queue;
pub mod search;

pub use model::Distance;
pub use model::EstimateDistance;
pub use model::WeightedGraph;
