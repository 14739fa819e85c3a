//! Adaptive core of a metaheuristic optimizer: action-value estimates for
//! operator selection and a bounded, ranked population of candidate solutions.
//!
//! Real quantities (estimates, rewards, fitness, crowding distance) are
//! fixed-point integers throughout; see [`algorithms::mdp::UNITS_PER_ONE`].

pub mod algorithms;
pub mod solver;
pub mod utils;
