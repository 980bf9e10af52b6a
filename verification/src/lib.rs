//! Best-first search (A*) and hierarchical A* over user-defined problems,
//! with two sample problems (a square grid and missionaries and cannibals).
pub mod algorithms;
pub mod problems;
