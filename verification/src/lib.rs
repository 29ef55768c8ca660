//! A lowest-cost pathfinder for grid-shaped graphs, built on the A* search
//! algorithm: vertices, per-vertex search nodes, an adjacency graph, the
//! search loop itself, and a builder for rectangular grids with walls.

pub mod vertex;
pub mod node;
pub mod graph;
pub mod search;
pub mod grid;
