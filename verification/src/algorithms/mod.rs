//! Building blocks that do not depend on a concrete problem.

pub mod mdp;
