//! Classical heuristics for one-dimensional bin packing (Next Fit, First Fit,
//! Best Fit and their "decreasing" variants), the Martello–Toth lower bound
//! L2, and a seeded instance generator.
//!
//! Sizes are integers: a bin holds `CAPACITY` units, so every heuristic works
//! in exact arithmetic.

pub mod packing;
pub mod sorting;
pub mod bounds;
pub mod algorithms;
pub mod validity;
pub mod lower_bound_proof;
pub mod permutation;
pub mod bin_count_bounds;
pub mod laws;
pub mod text;
pub mod generators;
pub mod experiment;
