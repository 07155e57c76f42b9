//! Enumeration of every finite string over an alphabet, shortest first and,
//! within one length, in the order of the alphabet's indices.
pub mod brute_force;
pub mod laws;
pub mod order;

pub use brute_force::{BruteForce, BruteForceError};
