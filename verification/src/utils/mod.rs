//! Arithmetic, randomness and sampling shared by the solvers.
pub mod fixed;
pub mod random;
pub mod stats;
