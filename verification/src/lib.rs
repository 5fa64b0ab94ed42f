//! Perfect mazes built with randomized Kruskal, on top of a verified
//! disjoint-set forest.

pub mod forest;
pub mod graph;
pub mod grids;
pub mod history;
pub mod layout;
pub mod maze;
pub mod partition;
pub mod shuffle;
pub mod text;
pub mod union_find;
pub mod walls;
