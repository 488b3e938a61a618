//! A generic binary-tree construction engine.
//!
//! The heart of the crate is [`tree::TreeNode`]: a node type parameterized
//! over an arbitrary key type, built via a fluent constructor and grown
//! incrementally through level-order ("complete-tree") insertion. The
//! remaining modules hold small self-contained helpers.

pub mod basics;
pub mod parsing;
pub mod restaurant;
pub mod tree;
