//! Perfect-maze generation by randomized edge contraction over a grid,
//! driven by a disjoint-set forest.

pub mod graph;
pub mod grid;
pub mod maze;
pub mod render;
pub mod union_find;
