//! Sufficient infeasibility tests for non-preemptive real-time jobs on identical cores.
//!
//! A [`problem::Problem`] holds jobs with release times and deadlines, precedence
//! constraints with delays, and a number of cores. The analyses in this crate tighten the
//! start-time bounds of the jobs and look for a proof that no schedule can meet every deadline.

pub mod analysis;
pub mod bounds;
pub mod necessary;
pub mod parser;
pub mod permutation;
pub mod problem;
pub mod reordered;
pub mod schedule;
pub mod simulator;
pub mod sort;
pub mod sorted_job_iterator;
