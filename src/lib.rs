//! A perfect-maze library: a directed adjacency graph over dense cell ids,
//! a randomized depth-first carve that turns a full grid into a spanning
//! tree of open passages, and a depth-first path search that records the
//! cells it explores and the route it finds.
pub mod graph;
pub mod grid;
pub mod generate;
pub mod search;

pub use graph::{EdgeNode, Graph, VertexNode};
pub use grid::new_maze;
pub use generate::random_depth_first;
pub use search::{depth_find_path, PathTrace};
