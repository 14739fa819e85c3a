//! Helpers shared by the algorithms.

pub mod random;
