//! Classic data structures and algorithms with machine-checked contracts.
//!
//! The centre of the crate is [`data_structures::stack::Stack`], a growable
//! last-in-first-out buffer with explicit capacity management and fallible
//! allocation. Around it stand a ring-buffer queue, a binary tree, a linked
//! list, three sorting routines, a linear search and three maximum-subarray
//! searches.

pub mod data_structures;
pub mod misc;
pub mod order;
pub mod searching;
pub mod sorting;
