# embed-struct

Embedded (intrusive) data structures whose link fields live inside the
elements of a container chosen by the user, addressed by `usize` indices,
with `usize::MAX` standing for null. Every function is verified with Verus.

- `src/ptr.rs` — nullable indices.
- `src/list.rs` — circular doubly linked lists (`ListNode`, `ListMut`,
  `List`, `ListIterator`). A list is modelled as the sequence of its
  elements read from the head in `next` order; every mutating call keeps
  each node of the arena either detached or in a well-formed ring.
- `src/rbtree.rs` and `src/rbtree/` — red-black trees (`RBTreeNode`,
  `RBTreeMut`, `RBTree`), with the color kept in the top bit of the parent
  word. A tree is modelled by `TreeModel` (`model.rs`): its in-order
  sequence, the place and subtree range of each node, and black heights.
  `rotate.rs`, `insert.rs`, `swap.rs`, `delete.rs` hold the rebalancing
  operations with their proofs, `query.rs` the walks, and `keyed.rs` the
  search and ordered insertion by key. `exact.rs` describes each node as its
  getters show it (`NodeView`) and the rotations, recolorings, swaps and
  cuts on those views: the contracts of insertion and deletion give the
  resulting tree node for node, not only its order and balance.
- `src/laws.rs` — properties that relate several operations.
- `tests/` — the scenarios, run against the compiled library.
