//! Searching in slices.

pub mod linear_search;
