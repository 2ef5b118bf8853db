# rs_avl

A height-balanced (AVL) ordered set whose operations are verified with Verus.

- `src/order.rs` — the total order values are kept in (`Ord`, with the laws
  vstd states for a lawful `Ord`).
- `src/sorted.rs` — strictly increasing sequences, the model of a set's
  contents, and the sequence operations the contracts are written in.
- `src/node.rs` — nodes, their model (in-order, pre-order and post-order
  sequences, heights), rotations and rebalancing (and the exact shape each
  makes), and the logarithmic height bound.
- `src/tree.rs` — `AVLTree`: insertion, removal, search, first/last, range
  and bounded walks, traversals.
- `src/iter.rs` — the lazy traversals (`Iter`, `IterFrom`, `IterTo`,
  `PreOrder`, `PostOrder`, `LevelOrder`, `Range`).
- `src/comparison.rs` — the comparisons asked of Python: a record can only
  be made by asking Python, and each call is appended to a log.
- `src/python_tree.rs` — the ordered set of Python objects behind the Python
  bindings, with key extraction (`KeyExtractor`) and building from values;
  key lookups, calls and comparisons go through pyo3 and may fail. Each walk hands back
  the log of the comparisons it made, and its contract says what it does for
  every sequence of answers; further clauses and the `law_*_follows_rank`
  proofs say what that comes to when Python's answers behave as a total
  order.
- `src/laws.rs` — what the operations promise of one another.
- `app/lib.rs` — the pyo3 module that exposes the Python set as
  `rs_avl.AVLTree`.
