//! A generic AVL ordered set with logarithmic search and updates.
//!
//! [`AVLTree`] stores unique ordered values and provides insertion, removal,
//! search, lazy traversals, and bounded range iteration. Tree height is
//! maintained automatically through AVL rotations. Every operation carries a
//! contract over the tree's ascending sequence of values, proved by Verus;
//! the laws that relate the operations are in [`laws`].
//!
//! [`python_tree`] holds the ordered set of Python objects behind the Python
//! bindings, whose comparisons are made by Python and may fail.

pub mod order;
pub mod node;
pub mod sorted;
pub mod tree;
pub mod iter;
pub mod comparison;
pub mod python_tree;
pub mod laws;
pub mod avl;

pub use node::AVLNode;
pub use tree::AVLTree;
pub use iter::Bound;
pub use iter::Iter;
pub use iter::IterFrom;
pub use iter::IterTo;
pub use iter::LevelOrder;
pub use iter::PostOrder;
pub use iter::PreOrder;
pub use iter::Range;
