//! The generic AVL tree, its nodes and its traversals, under one path.

pub use crate::iter::Bound;
pub use crate::iter::Iter;
pub use crate::iter::IterFrom;
pub use crate::iter::IterTo;
pub use crate::iter::LevelOrder;
pub use crate::iter::PostOrder;
pub use crate::iter::PreOrder;
pub use crate::iter::Range;
pub use crate::node::AVLNode;
pub use crate::tree::AVLTree;
