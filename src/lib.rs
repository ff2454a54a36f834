//! Planar geometry over integer grid points: positions, graph nodes anchored
//! at a position, edges between nodes, the adjacency derived from an edge
//! list, and the crossing test for two line segments.

pub mod edge;
pub mod graph;
pub mod intersection;
pub mod node;
pub mod vector;
