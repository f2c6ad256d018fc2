# iheap

A minimum heap whose elements live in an arena owned by the heap and are
linked, through one link record per element, into a complete binary tree.
Elements leave the tree by `remove` or by `pop`; popped elements stay on a
doubly linked list (through the same link fields) until they are removed or
moved back with `move_chosen_popped_values_to_heap`.

Layout of `src/`:

- `path.rs`: positions in the breadth-first tree and `compute_path`.
- `order.rs`: `KeyOrder`, the comparison the heap ranks values by.
- `node.rs`: the link record `MinHeapNode` and the handle `IouMinHeapNodeMut`.
- `sift.rs`: the layout changes, as spec functions: moving an element up
  (`sift_up`) or down (`sift_down`), removal, and a run of pushes.
- `heap.rs`: `MinHeap`, its invariant and its public operations.
- `tree.rs`: link accessors and `swap_nodes`.
- `adjust.rs`: moving an element up or down to restore the heap property.
- `grow.rs`: inserting into and removing from the tree.
- `popped.rs`: the popped list.
- `laws.rs`: properties that span several operations.
