//! Strengthening of the bounds on the start times of jobs.

pub mod constraints;
pub mod occupation;
pub mod respected;
pub mod settled;
