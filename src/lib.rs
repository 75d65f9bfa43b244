//! Shortest paths through a grid maze by breadth-first search.
pub mod grid;
pub mod laws;
pub mod path;
pub mod search;
