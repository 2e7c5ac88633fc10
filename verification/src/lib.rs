//! Move selection for a snake on a shared grid: tile legality, flood-fill
//! connectivity, path searches and the per-turn decision built on them.
//!
//! Every function is verified against its contract. The contracts of the
//! three calls into the priority queue, in `queue`, are taken on trust.

pub mod connect;
pub mod index;
pub mod laws;
pub mod logic;
pub mod moves;
pub mod queue;
pub mod rank;
pub mod reach;
pub mod search;
pub mod tree;
pub mod types;
