//! The parts of the search that keep track of what has been found so far.

pub mod population;
pub mod ranking;
