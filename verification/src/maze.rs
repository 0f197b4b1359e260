pub mod cell;
pub mod grid;
pub mod graph;
