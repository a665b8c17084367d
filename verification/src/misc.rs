//! Stand-alone algorithms.

pub mod maximum_subarray;
