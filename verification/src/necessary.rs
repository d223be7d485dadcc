//! Necessary conditions for feasibility: a problem that fails one of them is infeasible.

pub mod interval;
pub mod interval_tree;
pub mod load;
pub mod pack;
pub mod packing;
pub mod window;
pub mod work;
