//! Verified core of an aircraft landing problem (ALP) solver.

pub mod instance;
pub mod model;
pub mod compression;
pub mod dominance;
pub mod ranking;
pub mod bound;
pub mod relax;
pub mod laws;
pub mod solve;
pub mod generate;
