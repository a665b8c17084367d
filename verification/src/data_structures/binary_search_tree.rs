//! A binary tree of ordered keys.

use crate::order::{lt, operators_follow_comparison};
use vstd::prelude::*;

verus! {

/// A node of the tree: a key and up to two subtrees.
#[derive(Debug, PartialEq, PartialOrd)]
pub struct Node<T> {
    pub left: Option<Box<Node<T>>>,
    pub right: Option<Box<Node<T>>>,
    pub key: T,
}

impl<T> Node<T> {
    /// A node that holds `key` and has no subtree.
    pub open spec fn leaf(key: T) -> Node<T> {
        Node { left: None, right: None, key }
    }

    /// A node that holds `key` and has no subtree.
    pub fn new(key: T) -> (node: Self)
        ensures
            node == Node::leaf(key),
    {
        Self { left: None, right: None, key }
    }
}

/// A binary tree, empty or with a root node.
#[derive(Debug, PartialEq, PartialOrd)]
pub struct BinarySearchTree<T> {
    pub root: Option<Box<Node<T>>>,
}

/// The node that an insertion of `key` leaves at the root of the tree when
/// the search for the place of `key` starts at `node`.
///
/// The search goes left where `key` is smaller than the key of the node and
/// right otherwise. Where the subtree on that side is missing, `key` becomes
/// that subtree, as a leaf, and the node with its other subtree is the
/// result. Otherwise the search goes on in that subtree, and the node and
/// its other subtree are left behind.
pub open spec fn settled<T: PartialOrd>(node: Node<T>, key: T) -> Node<T>
    decreases node,
{
    if lt(key, node.key) {
        match node.left {
            None => Node { left: Some(Box::new(Node::leaf(key))), right: node.right, key: node.key },
            Some(child) => settled(*child, key),
        }
    } else {
        match node.right {
            None => Node { left: node.left, right: Some(Box::new(Node::leaf(key))), key: node.key },
            Some(child) => settled(*child, key),
        }
    }
}

/// The tree after an insertion of `key`.
pub open spec fn inserted<T: PartialOrd>(root: Option<Box<Node<T>>>, key: T) -> Node<T> {
    match root {
        None => Node::leaf(key),
        Some(node) => settled(*node, key),
    }
}

impl<T: PartialOrd> BinarySearchTree<T> {
    /// An empty tree.
    pub fn new() -> (tree: Self)
        ensures
            tree.root is None,
    {
        Self { root: None }
    }

    /// Inserts `key` as a leaf.
    ///
    /// An empty tree gets `key` as its root. Otherwise the search for the
    /// place of `key` walks down from the root, left where `key` is smaller
    /// and right otherwise, and the node at which it ends, with `key` as its
    /// new leaf, becomes the root: the nodes above it leave the tree.
    pub fn insert(&mut self, key: T)
        ensures
            final(self).root is Some,
            old(self).root is None ==> final(self).root == Some(Box::new(Node::leaf(key))),
            operators_follow_comparison::<T>() ==> final(self).root == Some(
                Box::new(inserted(old(self).root, key)),
            ),
    {
        let new_node = Box::new(Node::new(key));
        match self.root.take() {
            None => {
                self.root = Some(new_node);
            },
            Some(node) => {
                let ghost start = *node;
                let mut current_node = node;
                loop
                    invariant_except_break
                        *new_node == Node::leaf(key),
                        operators_follow_comparison::<T>() ==> settled(start, key) == settled(
                            *current_node,
                            key,
                        ),
                    ensures
                        operators_follow_comparison::<T>() ==> *current_node == settled(start, key),
                    decreases *current_node,
                {
                    if new_node.key < current_node.key {
                        match current_node.left.take() {
                            None => {
                                current_node.left = Some(new_node);
                                break ;
                            },
                            Some(left_node) => {
                                current_node = left_node;
                            },
                        }
                    } else {
                        match current_node.right.take() {
                            None => {
                                current_node.right = Some(new_node);
                                break ;
                            },
                            Some(right_node) => {
                                current_node = right_node;
                            },
                        }
                    }
                }
                self.root = Some(current_node);
            },
        }
    }
}

} // verus!
