//! Containers: stack, queue, binary tree and linked list.

pub mod binary_search_tree;
pub mod linked_list;
pub mod queue;
pub mod stack;
