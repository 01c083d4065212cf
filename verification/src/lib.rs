//! Permutation algebra over a fixed finite index set, together with a
//! greedy local search that looks for a permutation whose square
//! approximates a target permutation's square.

pub mod cycles;
pub mod laws;
pub mod perm;
mod rng;
pub mod search;
