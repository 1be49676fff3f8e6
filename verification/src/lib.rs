//! Exact solver for the closed-tour (traveling-salesman) problem over a small
//! waypoint set, built around a branch-and-bound search on reduced cost
//! matrices.
//!
//! Costs are non-negative fixed-point values held in `u64`, with `u64::MAX`
//! as the sentinel for "no edge" (the caller picks the scale). The solver
//! returns a closed tour of minimal-bound order together with its exact cost,
//! or reports that no tour exists.

pub mod config;
pub mod frontier;
pub mod matrix;
pub mod path_finder;
