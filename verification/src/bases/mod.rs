//! The solver layer: the domain contracts and the algorithms built on them.
pub mod bellman;
pub mod mdp;
pub mod monte_carlo_control;
pub mod policy_iteration;
pub mod tabular;
