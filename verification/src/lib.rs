//! Mass-spring soft-body preprocessing: graph construction, conflict-free
//! batching by greedy coloring, and the structural side of the constraint
//! solver.
//!
//! A triangulated surface mesh is turned into a vertex adjacency graph,
//! augmented against shearing, derived into a line graph of mesh edges,
//! optionally coarsened into blobs, colored with the DSATUR heuristic so that
//! no two adjacent elements share a color, and flattened into batch arrays
//! that a constraint solver can dispatch one color class at a time.

pub mod builder;
pub mod edge;
pub mod graph;
pub mod node;
pub mod soft_body;
pub mod vertex;
