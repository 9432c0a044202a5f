//! Concrete environments that satisfy the domain contracts.
pub mod ex4_3;
pub mod ex5_10;
