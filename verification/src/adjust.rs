//! Restoring the heap property by moving one element up or down the tree.

use vstd::prelude::*;
use crate::heap::{MinHeap, edge_ok, tree_node_ok};
use crate::order::KeyOrder;
use crate::sift::{swap_layout, val, sift_up, sift_down, down_child};

verus! {


/// Child position `c` of `k` (if any) does not come before the parent of `k`.
pub(crate) open spec fn bridge_ok(order: KeyOrder, values: Seq<u64>, layout: Seq<usize>, k: int, c: int) -> bool {
    (k > 0 && c < layout.len()) ==> !order.precedes(val(values, layout, c), val(values, layout, (k - 1) / 2))
}

/// The heap property holds on every edge but the one above position `k`, and
/// the children of `k` do not come before the parent of `k`.
pub(crate) open spec fn ordered_but_above(order: KeyOrder, values: Seq<u64>, layout: Seq<usize>, k: int) -> bool {
    &&& forall|c: int| 0 < c < layout.len() && c != k ==> #[trigger] edge_ok(order, values, layout, c)
    &&& bridge_ok(order, values, layout, k, 2 * k + 1)
    &&& bridge_ok(order, values, layout, k, 2 * k + 2)
}

/// The heap property holds on every edge but the ones below position `k`, and
/// the children of `k` do not come before the parent of `k`.
pub(crate) open spec fn ordered_but_below(order: KeyOrder, values: Seq<u64>, layout: Seq<usize>, k: int) -> bool {
    &&& forall|c: int| 0 < c < layout.len() && (c - 1) / 2 != k ==> #[trigger] edge_ok(order, values, layout, c)
    &&& bridge_ok(order, values, layout, k, 2 * k + 1)
    &&& bridge_ok(order, values, layout, k, 2 * k + 2)
}

/// Exchanging positions keeps the set of elements.
pub(crate) proof fn lemma_swap_layout_set(layout: Seq<usize>, i: int, j: int)
    requires
        0 <= i < layout.len(),
        0 <= j < layout.len(),
    ensures
        swap_layout(layout, i, j).to_set() == layout.to_set(),
        swap_layout(layout, i, j).len() == layout.len(),
{
    let nl = swap_layout(layout, i, j);
    assert forall|e: usize| nl.to_set().contains(e) <==> layout.to_set().contains(e) by {
        if nl.contains(e) {
            let t = choose|t: int| 0 <= t < nl.len() && nl[t] == e;
            if t == i {
                assert(layout[j] == e);
            } else if t == j {
                assert(layout[i] == e);
            } else {
                assert(layout[t] == e);
            }
        }
        if layout.contains(e) {
            let t = choose|t: int| 0 <= t < layout.len() && layout[t] == e;
            if t == i {
                assert(nl[j] == e);
            } else if t == j {
                assert(nl[i] == e);
            } else {
                assert(nl[t] == e);
            }
        }
    }
    assert(nl.to_set() =~= layout.to_set());
}

/// Moving the element at `k` above its parent, which it comes before, moves
/// the only possible violation one level up.
proof fn lemma_up_step(order: KeyOrder, values: Seq<u64>, layout: Seq<usize>, k: int)
    requires
        0 < k < layout.len(),
        ordered_but_above(order, values, layout, k),
        order.precedes(val(values, layout, k), val(values, layout, (k - 1) / 2)),
    ensures
        ordered_but_above(order, values, swap_layout(layout, (k - 1) / 2, k), (k - 1) / 2),
{
    let p = (k - 1) / 2;
    let nl = swap_layout(layout, p, k);
    assert forall|c: int| 0 < c < nl.len() && c != p implies #[trigger] edge_ok(order, values, nl, c) by {
        let q = (c - 1) / 2;
        if c == k {
        } else if q == k {
            assert(bridge_ok(order, values, layout, k, c));
        } else if q == p {
            assert(edge_ok(order, values, layout, c));
        } else {
            assert(edge_ok(order, values, layout, c));
        }
    }
    if p > 0 {
        assert(edge_ok(order, values, layout, p));
        let s = if k == 2 * p + 1 { 2 * p + 2 } else { 2 * p + 1 };
        if s < layout.len() {
            assert(edge_ok(order, values, layout, s));
        }
    }
}

/// Moving the element at `k` below its child `c`, which it does not come
/// before and which no sibling comes before, moves the only possible
/// violations one level down.
proof fn lemma_down_step(order: KeyOrder, values: Seq<u64>, layout: Seq<usize>, k: int, c: int)
    requires
        0 <= k,
        c == 2 * k + 1 || c == 2 * k + 2,
        c < layout.len(),
        ordered_but_below(order, values, layout, k),
        !order.precedes(val(values, layout, k), val(values, layout, c)),
        2 * k + 1 < layout.len() ==> !order.precedes(val(values, layout, 2 * k + 1), val(values, layout, c)),
        2 * k + 2 < layout.len() ==> !order.precedes(val(values, layout, 2 * k + 2), val(values, layout, c)),
    ensures
        ordered_but_below(order, values, swap_layout(layout, k, c), c),
{
    let nl = swap_layout(layout, k, c);
    assert forall|d: int| 0 < d < nl.len() && (d - 1) / 2 != c implies #[trigger] edge_ok(order, values, nl, d) by {
        let q = (d - 1) / 2;
        if d == c {
        } else if q == k {
        } else if d == k {
            assert(bridge_ok(order, values, layout, k, c));
        } else {
            assert(edge_ok(order, values, layout, d));
        }
    }
    if 2 * c + 1 < layout.len() {
        assert(edge_ok(order, values, layout, 2 * c + 1));
    }
    if 2 * c + 2 < layout.len() {
        assert(edge_ok(order, values, layout, 2 * c + 2));
    }
}

impl MinHeap {
    /// Whether element `a` comes strictly before element `b`.
    pub(crate) fn compare_nodes(&self, a: usize, b: usize) -> (r: bool)
        requires
            a < self.values.len(),
            b < self.values.len(),
        ensures
            r == self.compare.precedes(self.values@[a as int], self.values@[b as int]),
    {
        self.compare.is_less(self.values[a], self.values[b])
    }

    /// Moves element `node`, at position `k`, up toward the root while it
    /// comes before its parent.
    pub(crate) fn bottom_up_adjust(&mut self, node: usize, Ghost(k): Ghost<int>)
        requires
            old(self).links_ok(),
            0 <= k < old(self).layout@.len(),
            old(self).layout@[k] == node,
            ordered_but_above(old(self).compare, old(self).values@, old(self).layout@, k),
        ensures
            final(self).inv(),
            final(self).layout@.to_set() == old(self).layout@.to_set(),
            final(self).popped == old(self).popped,
            final(self).size == old(self).size,
            final(self).compare == old(self).compare,
            final(self).values@ == old(self).values@,
            final(self).popped_list@ == old(self).popped_list@,
            final(self).layout@ == sift_up(old(self).compare, old(self).values@, old(self).layout@, k),
    {
        let ghost k0 = k;
        let ghost mut k = k;
        loop
            invariant
                self.links_ok(),
                0 <= k < self.layout@.len(),
                self.layout@[k] == node,
                ordered_but_above(self.compare, self.values@, self.layout@, k),
                self.layout@.to_set() == old(self).layout@.to_set(),
                self.popped == old(self).popped,
                self.size == old(self).size,
                self.compare == old(self).compare,
                self.values@ == old(self).values@,
                self.popped_list@ == old(self).popped_list@,
                sift_up(self.compare, self.values@, self.layout@, k) == sift_up(
                    old(self).compare,
                    old(self).values@,
                    old(self).layout@,
                    k0,
                ),
            ensures
                self.inv(),
                self.layout@.to_set() == old(self).layout@.to_set(),
                self.popped == old(self).popped,
                self.size == old(self).size,
                self.compare == old(self).compare,
                self.values@ == old(self).values@,
                self.popped_list@ == old(self).popped_list@,
                self.layout@ == sift_up(old(self).compare, old(self).values@, old(self).layout@, k0),
            decreases k,
        {
            proof {
                assert(tree_node_ok(self.nodes@, self.layout@, k));
            }
            let parent = match self.parent(node) {
                Some(p) => p,
                None => {
                    break;
                },
            };
            if !self.compare_nodes(node, parent) {
                break;
            }
            let ghost p = (k - 1) / 2;
            proof {
                lemma_up_step(self.compare, self.values@, self.layout@, k);
                lemma_swap_layout_set(self.layout@, p, k);
            }
            self.swap_nodes(parent, node, Ghost(p), Ghost(k));
            proof {
                k = p;
            }
        }
    }

    /// Moves element `node`, at position `k`, down toward the leaves while a
    /// child does not come after it, exchanging it with the child that comes
    /// first (the left one on a tie).
    pub(crate) fn top_down_adjust(&mut self, node: usize, Ghost(k): Ghost<int>)
        requires
            old(self).links_ok(),
            0 <= k < old(self).layout@.len(),
            old(self).layout@[k] == node,
            ordered_but_below(old(self).compare, old(self).values@, old(self).layout@, k),
        ensures
            final(self).inv(),
            final(self).layout@.to_set() == old(self).layout@.to_set(),
            final(self).popped == old(self).popped,
            final(self).size == old(self).size,
            final(self).compare == old(self).compare,
            final(self).values@ == old(self).values@,
            final(self).popped_list@ == old(self).popped_list@,
            final(self).layout@ == sift_down(old(self).compare, old(self).values@, old(self).layout@, k),
    {
        let ghost k0 = k;
        let ghost mut k = k;
        loop
            invariant
                self.links_ok(),
                0 <= k < self.layout@.len(),
                self.layout@[k] == node,
                ordered_but_below(self.compare, self.values@, self.layout@, k),
                self.layout@.to_set() == old(self).layout@.to_set(),
                self.popped == old(self).popped,
                self.size == old(self).size,
                self.compare == old(self).compare,
                self.values@ == old(self).values@,
                self.popped_list@ == old(self).popped_list@,
                sift_down(self.compare, self.values@, self.layout@, k) == sift_down(
                    old(self).compare,
                    old(self).values@,
                    old(self).layout@,
                    k0,
                ),
            ensures
                self.inv(),
                self.layout@.to_set() == old(self).layout@.to_set(),
                self.popped == old(self).popped,
                self.size == old(self).size,
                self.compare == old(self).compare,
                self.values@ == old(self).values@,
                self.popped_list@ == old(self).popped_list@,
                self.layout@ == sift_down(old(self).compare, old(self).values@, old(self).layout@, k0),
            decreases self.layout@.len() - k,
        {
            let ghost layout = self.layout@;
            proof {
                assert(tree_node_ok(self.nodes@, layout, k));
            }
            let mut min_child = self.left(node);
            let ghost mut c: int = 2 * k + 1;
            if let Some(right) = self.right(node) {
                proof {
                    assert(layout[2 * k + 2] == right);
                    assert(2 * k + 1 < layout.len());
                }
                if min_child.is_none() || self.compare_nodes(right, min_child.unwrap()) {
                    min_child = Some(right);
                    proof {
                        c = 2 * k + 2;
                    }
                }
            }
            proof {
                if 2 * k + 1 < layout.len() {
                    assert(c == down_child(self.compare, self.values@, layout, k));
                }
            }
            let child = match min_child {
                Some(ch) => ch,
                None => {
                    proof {
                        assert forall|d: int| 0 < d < layout.len() implies #[trigger] edge_ok(
                            self.compare,
                            self.values@,
                            layout,
                            d,
                        ) by {
                            if (d - 1) / 2 == k {
                                assert(d == 2 * k + 1 || d == 2 * k + 2);
                            }
                        }
                    }
                    break;
                },
            };
            if self.compare_nodes(node, child) {
                proof {
                    assert forall|d: int| 0 < d < layout.len() implies #[trigger] edge_ok(
                        self.compare,
                        self.values@,
                        layout,
                        d,
                    ) by {
                        if (d - 1) / 2 == k {
                            assert(d == 2 * k + 1 || d == 2 * k + 2);
                        }
                    }
                }
                break;
            }
            proof {
                lemma_down_step(self.compare, self.values@, layout, k, c);
                lemma_swap_layout_set(layout, k, c);
            }
            self.swap_nodes(node, child, Ghost(k), Ghost(c));
            proof {
                k = c;
            }
        }
    }
}

} // verus!
