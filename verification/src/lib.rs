//! Solvers for finite Markov decision processes: policy iteration, value
//! iteration and first-visit Monte Carlo control with epsilon-soft policies.
//!
//! Every real quantity (probability, discount factor, tolerance, value) is a
//! fixed-point number: an `i64` that counts millionths, see [`utils::fixed`].
//! States and actions are identified by integer keys, and every table is a
//! hash map keyed by them.
pub mod bases;
pub mod exercises;
pub mod utils;
