//! The list of popped elements, linked through the same records as the tree.

use vstd::prelude::*;
use crate::heap::{MinHeap, shape_ok, tree_node_ok, list_node_ok, ids_below, disjoint};
use crate::node::is_detached;

verus! {

impl MinHeap {
    /// Puts detached element `node` at the front of the popped list.
    pub(crate) fn push_popped_front(&mut self, node: usize)
        requires
            old(self).inv(),
            node < old(self).nodes.len(),
            !old(self).layout@.contains(node),
            !old(self).popped_list@.contains(node),
        ensures
            final(self).inv(),
            final(self).popped_list@ == seq![node] + old(self).popped_list@,
            final(self).layout@ == old(self).layout@,
            final(self).root == old(self).root,
            final(self).size == old(self).size,
            final(self).compare == old(self).compare,
            final(self).values@ == old(self).values@,
            final(self).nodes@.len() == old(self).nodes@.len(),
    {
        let ghost layout = self.layout@;
        let ghost list = self.popped_list@;
        let ghost old_nodes = self.nodes@;
        proof {
            assert(is_detached(old_nodes[node as int]));
        }
        let head = self.popped;
        if let Some(h) = head {
            proof {
                assert(list_node_ok(old_nodes, list, 0));
            }
            self.set_left(h, Some(node));
        }
        self.set_right(node, head);
        self.popped = Some(node);
        proof {
            let nl = seq![node] + list;
            let new_nodes = self.nodes@;
            assert(nl[0] == node);
            assert forall|j: int| 0 <= j < list.len() implies #[trigger] nl[j + 1] == list[j] by {}
            assert forall|k: int| 0 <= k < layout.len() implies #[trigger] tree_node_ok(new_nodes, layout, k) by {
                assert(tree_node_ok(old_nodes, layout, k));
                assert(layout[k] != node);
                if list.len() > 0 {
                    assert(layout[k] != list[0]);
                }
            }
            assert forall|j: int| 0 <= j < nl.len() implies #[trigger] list_node_ok(new_nodes, nl, j) by {
                if j > 0 {
                    assert(list_node_ok(old_nodes, list, j - 1));
                    assert(list[j - 1] != node);
                    if j >= 2 {
                        assert(nl[j - 1] == list[j - 2]);
                    }
                    if j + 1 < nl.len() {
                        assert(nl[j + 1] == list[j]);
                    }
                } else if list.len() > 0 {
                    assert(nl[1] == list[0]);
                }
            }
            assert forall|id: int|
                0 <= id < new_nodes.len() && !layout.contains(id as usize) && !nl.contains(id as usize)
                implies is_detached(#[trigger] new_nodes[id]) by {
                assert(id as usize != node) by {
                    assert(nl[0] == node);
                }
                assert(!list.contains(id as usize)) by {
                    if list.contains(id as usize) {
                        let t = choose|t: int| 0 <= t < list.len() && list[t] == id as usize;
                        assert(nl[t + 1] == id as usize);
                    }
                }
                if list.len() > 0 {
                    assert(id as usize != list[0]);
                }
            }
            assert(nl.no_duplicates()) by {
                assert forall|a: int, b: int| 0 <= a < nl.len() && 0 <= b < nl.len() && a != b implies nl[a] != nl[b] by {
                    if a > 0 && b > 0 {
                        assert(nl[a] == list[a - 1] && nl[b] == list[b - 1]);
                    } else if a > 0 {
                        assert(nl[a] == list[a - 1]);
                    } else {
                        assert(nl[b] == list[b - 1]);
                    }
                }
            }
            assert(ids_below(nl, new_nodes.len())) by {
                assert forall|t: int| 0 <= t < nl.len() implies (#[trigger] nl[t]) < new_nodes.len() by {
                    if t > 0 {
                        assert(nl[t] == list[t - 1]);
                    }
                }
            }
            assert(disjoint(layout, nl)) by {
                assert forall|k: int, j: int| 0 <= k < layout.len() && 0 <= j < nl.len() implies #[trigger] layout[k] != #[trigger] nl[j] by {
                    if j > 0 {
                        assert(nl[j] == list[j - 1]);
                    }
                }
            }
            assert(shape_ok(new_nodes, layout, nl));
            self.popped_list = Ghost(nl);
        }
    }

    /// Unlinks element `node`, at place `j` of the popped list, from it.
    pub(crate) fn detach_popped(&mut self, node: usize, Ghost(j): Ghost<int>)
        requires
            old(self).inv(),
            0 <= j < old(self).popped_list@.len(),
            old(self).popped_list@[j] == node,
        ensures
            final(self).inv(),
            final(self).popped_list@ == old(self).popped_list@.remove(j),
            final(self).layout@ == old(self).layout@,
            final(self).root == old(self).root,
            final(self).size == old(self).size,
            final(self).compare == old(self).compare,
            final(self).values@ == old(self).values@,
            final(self).nodes@.len() == old(self).nodes@.len(),
    {
        let ghost layout = self.layout@;
        let ghost list = self.popped_list@;
        let ghost old_nodes = self.nodes@;
        proof {
            assert(list_node_ok(old_nodes, list, j));
            if j > 0 {
                assert(list_node_ok(old_nodes, list, j - 1));
            }
            if j + 1 < list.len() {
                assert(list_node_ok(old_nodes, list, j + 1));
            }
        }
        let prev = self.left(node);
        let next = self.right(node);
        if let Some(p) = prev {
            self.set_right(p, next);
        } else {
            self.popped = next;
        }
        if let Some(nx) = next {
            self.set_left(nx, prev);
        }
        self.set_left(node, None);
        self.set_right(node, None);
        proof {
            let nl = list.remove(j);
            let new_nodes = self.nodes@;
            assert forall|t: int| 0 <= t < nl.len() implies #[trigger] nl[t] == (if t < j { list[t] } else { list[t + 1] }) by {}
            assert forall|k: int| 0 <= k < layout.len() implies #[trigger] tree_node_ok(new_nodes, layout, k) by {
                assert(tree_node_ok(old_nodes, layout, k));
                assert(layout[k] != node);
                if j > 0 {
                    assert(layout[k] != list[j - 1]);
                }
                if j + 1 < list.len() {
                    assert(layout[k] != list[j + 1]);
                }
            }
            assert forall|t: int| 0 <= t < nl.len() implies #[trigger] list_node_ok(new_nodes, nl, t) by {
                if t < j {
                    assert(list_node_ok(old_nodes, list, t));
                    assert(list[t] != node);
                    if t + 1 < j {
                        assert(list[t] != list[j - 1]);
                    }
                    if j + 1 < list.len() {
                        assert(list[t] != list[j + 1]);
                    }
                    if t > 0 {
                        assert(nl[t - 1] == list[t - 1]);
                    }
                    if t + 1 < nl.len() {
                        assert(nl[t + 1] == (if t + 1 < j { list[t + 1] } else { list[t + 2] }));
                    }
                } else {
                    assert(list_node_ok(old_nodes, list, t + 1));
                    assert(list[t + 1] != node);
                    if j > 0 {
                        assert(list[t + 1] != list[j - 1]);
                    }
                    if t > j {
                        assert(list[t + 1] != list[j + 1]);
                        assert(nl[t - 1] == list[t]);
                    }
                    if t + 1 < nl.len() {
                        assert(nl[t + 1] == list[t + 2]);
                    }
                }
            }
            assert forall|id: int|
                0 <= id < new_nodes.len() && !layout.contains(id as usize) && !nl.contains(id as usize)
                implies is_detached(#[trigger] new_nodes[id]) by {
                if id as usize != node {
                    assert(!list.contains(id as usize)) by {
                        if list.contains(id as usize) {
                            let t = choose|t: int| 0 <= t < list.len() && list[t] == id as usize;
                            assert(t != j);
                            if t < j {
                                assert(nl[t] == id as usize);
                            } else {
                                assert(nl[t - 1] == id as usize);
                            }
                        }
                    }
                    if j > 0 {
                        assert(id as usize != list[j - 1]);
                    }
                    if j + 1 < list.len() {
                        assert(id as usize != list[j + 1]);
                    }
                    assert(is_detached(old_nodes[id]));
                }
            }
            assert(nl.no_duplicates()) by {
                assert forall|a: int, b: int| 0 <= a < nl.len() && 0 <= b < nl.len() && a != b implies nl[a] != nl[b] by {
                    let oa = if a < j { a } else { a + 1 };
                    let ob = if b < j { b } else { b + 1 };
                    assert(nl[a] == list[oa] && nl[b] == list[ob]);
                }
            }
            assert(ids_below(nl, new_nodes.len())) by {
                assert forall|t: int| 0 <= t < nl.len() implies (#[trigger] nl[t]) < new_nodes.len() by {
                    let ot = if t < j { t } else { t + 1 };
                    assert(nl[t] == list[ot]);
                }
            }
            assert(disjoint(layout, nl)) by {
                assert forall|k: int, t: int| 0 <= k < layout.len() && 0 <= t < nl.len() implies #[trigger] layout[k] != #[trigger] nl[t] by {
                    let ot = if t < j { t } else { t + 1 };
                    assert(nl[t] == list[ot]);
                }
            }
            assert(shape_ok(new_nodes, layout, nl));
            self.popped_list = Ghost(nl);
            if j == 0 && nl.len() > 0 {
                assert(nl[0] == list[1]);
            }
            if j > 0 {
                assert(nl[0] == list[0]);
            }
        }
    }
}

} // verus!
