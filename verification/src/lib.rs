//! Solver core for a fixed-length word-guessing puzzle: feedback
//! classification, pattern encoding, restriction building, candidate
//! filtering, and the pattern statistics behind entropy ranking.

pub mod words;
pub mod classify;
pub mod pattern;
pub mod restrict;
pub mod filter;
pub mod rank;
pub mod solver;
pub mod laws;
