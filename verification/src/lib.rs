//! A rectangular grid modelled as a graph: cells can be switched off and on
//! again, and a breadth-first search finds a shortest route between two cells.

pub mod graph;
pub mod grid;
pub mod laws;
pub mod maze;
pub mod search;
