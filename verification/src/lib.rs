//! Two self-contained container data structures, each verified against a
//! sequence- or set-valued mathematical model:
//!
//! * [`list::ListNode`] — a singly linked list with in-place reversal and
//!   positional insertion.
//! * [`tree::TreeNode`] — an AVL tree: a binary search tree that keeps itself
//!   height-balanced through single and double rotations on every insertion.

pub mod list;
pub mod tree;
