//! The searches over the board.

pub mod astar;
pub mod dfs;
pub mod graph;
