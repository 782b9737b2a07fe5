//! The combinatorics and checks behind Twins testing.

pub mod partitions;
pub mod safety;
pub mod sampling;
pub mod scenarios;
pub mod addresses;
