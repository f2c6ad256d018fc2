//! Walking and rewiring the linked tree.

use vstd::prelude::*;
use crate::heap::{MinHeap, shape_ok, tree_node_ok, list_node_ok, disjoint};
use crate::sift::swap_layout;
use crate::node::{MinHeapNode, swap_id, swap_refs, exchange_refs, exchange_link, is_detached};

verus! {

/// `m` is linked to `x` or `y`: it is one of their parents or children.
pub(crate) open spec fn is_neighbor(nx: MinHeapNode, ny: MinHeapNode, m: usize) -> bool {
    ||| nx.parent == Some(m)
    ||| nx.left == Some(m)
    ||| nx.right == Some(m)
    ||| ny.parent == Some(m)
    ||| ny.left == Some(m)
    ||| ny.right == Some(m)
}

/// The records after exchanging the places of `x` and `y` in the tree.
pub(crate) open spec fn swapped_record(
    nodes: Seq<MinHeapNode>,
    x: usize,
    y: usize,
    m: usize,
) -> MinHeapNode {
    swap_refs(nodes[swap_id(m, x, y) as int], x, y)
}


/// An element of the tree that is no neighbour of `x` or `y` (nor one of them)
/// has no link to either.
proof fn lemma_unrelated_links(
    nodes: Seq<MinHeapNode>,
    layout: Seq<usize>,
    list: Seq<usize>,
    i: int,
    j: int,
    m: usize,
)
    requires
        shape_ok(nodes, layout, list),
        0 <= i < layout.len(),
        0 <= j < layout.len(),
        i != j,
        m < nodes.len(),
        m != layout[i],
        m != layout[j],
        !is_neighbor(nodes[layout[i] as int], nodes[layout[j] as int], m),
    ensures
        swap_refs(nodes[m as int], layout[i], layout[j]) == nodes[m as int],
{
    let x = layout[i];
    let y = layout[j];
    let n = nodes[m as int];
    assert(tree_node_ok(nodes, layout, i));
    assert(tree_node_ok(nodes, layout, j));
    if layout.contains(m) {
        let k = layout.index_of(m);
        assert(tree_node_ok(nodes, layout, k));
        if k > 0 {
            let p = (k - 1) / 2;
            assert(layout[p] != x) by {
                if layout[p] == x {
                    assert(p == i);
                    assert(k == 2 * i + 1 || k == 2 * i + 2);
                }
            }
            assert(layout[p] != y) by {
                if layout[p] == y {
                    assert(p == j);
                    assert(k == 2 * j + 1 || k == 2 * j + 2);
                }
            }
        }
        if 2 * k + 1 < layout.len() {
            let c = 2 * k + 1;
            assert(layout[c] != x) by {
                if layout[c] == x {
                    assert(c == i);
                }
            }
            assert(layout[c] != y) by {
                if layout[c] == y {
                    assert(c == j);
                }
            }
        }
        if 2 * k + 2 < layout.len() {
            let c = 2 * k + 2;
            assert(layout[c] != x) by {
                if layout[c] == x {
                    assert(c == i);
                }
            }
            assert(layout[c] != y) by {
                if layout[c] == y {
                    assert(c == j);
                }
            }
        }
    } else if list.contains(m) {
        let jj = list.index_of(m);
        assert(list_node_ok(nodes, list, jj));
        if jj > 0 {
            assert(layout[i] != list[jj - 1]);
            assert(layout[j] != list[jj - 1]);
        }
        if jj + 1 < list.len() {
            assert(layout[i] != list[jj + 1]);
            assert(layout[j] != list[jj + 1]);
        }
    } else {
        assert(is_detached(nodes[m as int]));
    }
}

/// Exchanging the records and links of the elements at positions `i` and `j`
/// yields records that agree with the exchanged layout.
proof fn lemma_swap_shape(
    nodes: Seq<MinHeapNode>,
    new_nodes: Seq<MinHeapNode>,
    layout: Seq<usize>,
    list: Seq<usize>,
    i: int,
    j: int,
)
    requires
        shape_ok(nodes, layout, list),
        0 <= i < layout.len(),
        0 <= j < layout.len(),
        i != j,
        new_nodes.len() == nodes.len(),
        forall|m: int|
            0 <= m < nodes.len() ==> #[trigger] new_nodes[m] == swapped_record(
                nodes,
                layout[i],
                layout[j],
                m as usize,
            ),
    ensures
        shape_ok(new_nodes, swap_layout(layout, i, j), list),
{
    let x = layout[i];
    let y = layout[j];
    let nl = swap_layout(layout, i, j);
    assert forall|t: int| 0 <= t < layout.len() implies #[trigger] nl[t] == swap_id(layout[t], x, y) by {
        if t != i && t != j {
            assert(layout[t] != x);
            assert(layout[t] != y);
        }
    }
    assert(nl.no_duplicates()) by {
        assert forall|a: int, b: int| 0 <= a < nl.len() && 0 <= b < nl.len() && a != b implies nl[a] != nl[b] by {
            assert(nl[a] == swap_id(layout[a], x, y));
            assert(nl[b] == swap_id(layout[b], x, y));
        }
    }
    assert forall|t: int| 0 <= t < nl.len() implies #[trigger] nl[t] < new_nodes.len() by {
        assert(nl[t] == swap_id(layout[t], x, y));
    }
    assert(disjoint(nl, list)) by {
        assert forall|a: int, b: int| 0 <= a < nl.len() && 0 <= b < list.len() implies #[trigger] nl[a] != #[trigger] list[b] by {
            assert(nl[a] == swap_id(layout[a], x, y));
            assert(layout[i] != list[b]);
            assert(layout[j] != list[b]);
            assert(layout[a] != list[b]);
        }
    }
    // every record equals the exchanged record of its exchanged id
    assert forall|k: int| 0 <= k < nl.len() implies #[trigger] tree_node_ok(new_nodes, nl, k) by {
        let m = nl[k];
        assert(m == swap_id(layout[k], x, y));
        assert(swap_id(m, x, y) == layout[k]);
        assert(new_nodes[m as int] == swap_refs(nodes[layout[k] as int], x, y));
        assert(tree_node_ok(nodes, layout, k));
        if k > 0 {
            assert(nl[(k - 1) / 2] == swap_id(layout[(k - 1) / 2], x, y));
        }
        if 2 * k + 1 < nl.len() {
            assert(nl[2 * k + 1] == swap_id(layout[2 * k + 1], x, y));
        }
        if 2 * k + 2 < nl.len() {
            assert(nl[2 * k + 2] == swap_id(layout[2 * k + 2], x, y));
        }
    }
    assert forall|jj: int| 0 <= jj < list.len() implies #[trigger] list_node_ok(new_nodes, list, jj) by {
        let m = list[jj];
        assert(x != m && y != m);
        assert(list_node_ok(nodes, list, jj));
        let n = nodes[m as int];
        if jj > 0 {
            assert(x != list[jj - 1] && y != list[jj - 1]);
        }
        if jj + 1 < list.len() {
            assert(x != list[jj + 1] && y != list[jj + 1]);
        }
        assert(new_nodes[m as int] == swap_refs(n, x, y));
    }
    assert forall|id: int|
        0 <= id < new_nodes.len() && !nl.contains(id as usize) && !list.contains(id as usize)
        implies is_detached(#[trigger] new_nodes[id]) by {
        assert(id as usize != x) by {
            assert(nl[j] == x);
        }
        assert(id as usize != y) by {
            assert(nl[i] == y);
        }
        assert(!layout.contains(id as usize)) by {
            if layout.contains(id as usize) {
                let t = choose|t: int| 0 <= t < layout.len() && layout[t] == id as usize;
                assert(nl[t] == swap_id(layout[t], x, y));
                assert(nl[t] == id as usize);
                assert(nl.contains(id as usize));
            }
        }
        assert(is_detached(nodes[id]));
        assert(new_nodes[id] == swap_refs(nodes[id], x, y));
    }
}

impl MinHeap {
    /// The left link of element `id`.
    pub(crate) fn left(&self, id: usize) -> (r: Option<usize>)
        requires
            id < self.nodes.len(),
        ensures
            r == self.nodes@[id as int].left,
    {
        self.nodes[id].left
    }

    /// The right link of element `id`.
    pub(crate) fn right(&self, id: usize) -> (r: Option<usize>)
        requires
            id < self.nodes.len(),
        ensures
            r == self.nodes@[id as int].right,
    {
        self.nodes[id].right
    }

    /// The parent link of element `id`.
    pub(crate) fn parent(&self, id: usize) -> (r: Option<usize>)
        requires
            id < self.nodes.len(),
        ensures
            r == self.nodes@[id as int].parent,
    {
        self.nodes[id].parent
    }

    /// Replaces the record of element `id`.
    pub(crate) fn set_record(&mut self, id: usize, n: MinHeapNode)
        requires
            id < old(self).nodes.len(),
        ensures
            final(self).nodes@ == old(self).nodes@.update(id as int, n),
            final(self).only_links_changed(old(self)),
    {
        self.nodes.set(id, n);
    }

    /// Sets the left link of element `id`.
    pub(crate) fn set_left(&mut self, id: usize, child: Option<usize>)
        requires
            id < old(self).nodes.len(),
        ensures
            final(self).nodes@ == old(self).nodes@.update(
                id as int,
                MinHeapNode { left: child, ..old(self).nodes@[id as int] },
            ),
            final(self).only_links_changed(old(self)),
    {
        let mut n = self.nodes[id];
        n.left = child;
        self.nodes.set(id, n);
    }

    /// Sets the right link of element `id`.
    pub(crate) fn set_right(&mut self, id: usize, child: Option<usize>)
        requires
            id < old(self).nodes.len(),
        ensures
            final(self).nodes@ == old(self).nodes@.update(
                id as int,
                MinHeapNode { right: child, ..old(self).nodes@[id as int] },
            ),
            final(self).only_links_changed(old(self)),
    {
        let mut n = self.nodes[id];
        n.right = child;
        self.nodes.set(id, n);
    }

    /// Sets the parent link of element `id`.
    pub(crate) fn set_parent(&mut self, id: usize, parent: Option<usize>)
        requires
            id < old(self).nodes.len(),
        ensures
            final(self).nodes@ == old(self).nodes@.update(
                id as int,
                MinHeapNode { parent: parent, ..old(self).nodes@[id as int] },
            ),
            final(self).only_links_changed(old(self)),
    {
        let mut n = self.nodes[id];
        n.parent = parent;
        self.nodes.set(id, n);
    }

    /// Element `id` is in the tree: it is the root or has a parent.
    pub(crate) fn is_linked_in_heap(&self, id: usize) -> (r: bool)
        requires
            self.links_ok(),
            id < self.nodes.len(),
        ensures
            r == self.layout@.contains(id),
    {
        let ghost layout = self.layout@;
        let ghost list = self.popped_list@;
        proof {
            if layout.contains(id) {
                let k = layout.index_of(id);
                assert(tree_node_ok(self.nodes@, layout, k));
            } else if list.contains(id) {
                let j = list.index_of(id);
                assert(list_node_ok(self.nodes@, list, j));
            } else {
                assert(is_detached(self.nodes@[id as int]));
            }
            if self.root == Some(id) {
                assert(layout.contains(layout[0]));
            }
        }
        if self.root == Some(id) {
            return true;
        }
        self.nodes[id].parent.is_some()
    }

    /// The record of `n` with its links to `x` and `y` exchanged, paired with
    /// `n`, when `n` is an element other than `x` and `y`.
    fn relabeled(&self, n: Option<usize>, x: usize, y: usize) -> (r: Option<(usize, MinHeapNode)>)
        requires
            n matches Some(m) ==> m < self.nodes.len(),
        ensures
            r == (match n {
                Some(m) => if m != x && m != y {
                    Some((m, swap_refs(self.nodes@[m as int], x, y)))
                } else {
                    None
                },
                None => None,
            }),
    {
        match n {
            Some(m) => {
                if m != x && m != y {
                    Some((m, exchange_refs(self.nodes[m], x, y)))
                } else {
                    None
                }
            },
            None => None,
        }
    }

    /// Writes back a record computed by `relabeled`.
    fn write_back(&mut self, s: Option<(usize, MinHeapNode)>)
        requires
            s matches Some(p) ==> p.0 < old(self).nodes.len(),
        ensures
            final(self).nodes@ == (match s {
                Some(p) => old(self).nodes@.update(p.0 as int, p.1),
                None => old(self).nodes@,
            }),
            final(self).only_links_changed(old(self)),
    {
        if let Some(p) = s {
            self.set_record(p.0, p.1);
        }
    }

    /// Exchanges the places of elements `x` and `y` in the tree, keeping every
    /// other element where it is: each takes over the other's parent and
    /// children, and every link to one of them now leads to the other.
    #[verifier::spinoff_prover]
    #[verifier::rlimit(40)]
    pub(crate) fn swap_nodes(&mut self, x: usize, y: usize, Ghost(i): Ghost<int>, Ghost(j): Ghost<int>)
        requires
            old(self).links_ok(),
            0 <= i < old(self).layout@.len(),
            0 <= j < old(self).layout@.len(),
            old(self).layout@[i] == x,
            old(self).layout@[j] == y,
        ensures
            final(self).links_ok(),
            final(self).layout@ == swap_layout(old(self).layout@, i, j),
            final(self).popped == old(self).popped,
            final(self).size == old(self).size,
            final(self).compare == old(self).compare,
            final(self).values@ == old(self).values@,
            final(self).popped_list@ == old(self).popped_list@,
    {
        if x == y {
            proof {
                assert(i == j);
                assert(swap_layout(self.layout@, i, j) =~= self.layout@);
            }
            return;
        }
        let ghost old_nodes = self.nodes@;
        let ghost layout = self.layout@;
        let ghost list = self.popped_list@;
        proof {
            assert(tree_node_ok(old_nodes, layout, i));
            assert(tree_node_ok(old_nodes, layout, j));
            assert(i != j);
        }
        let nx = self.nodes[x];
        let ny = self.nodes[y];
        let s0 = self.relabeled(nx.parent, x, y);
        let s1 = self.relabeled(nx.left, x, y);
        let s2 = self.relabeled(nx.right, x, y);
        let s3 = self.relabeled(ny.parent, x, y);
        let s4 = self.relabeled(ny.left, x, y);
        let s5 = self.relabeled(ny.right, x, y);
        self.set_record(x, exchange_refs(ny, x, y));
        self.set_record(y, exchange_refs(nx, x, y));
        self.write_back(s0);
        self.write_back(s1);
        self.write_back(s2);
        self.write_back(s3);
        self.write_back(s4);
        self.write_back(s5);
        self.root = exchange_link(self.root, x, y);
        proof {
            let new_nodes = self.nodes@;
            assert forall|m: int| 0 <= m < old_nodes.len() implies #[trigger] new_nodes[m] == swapped_record(
                old_nodes,
                x,
                y,
                m as usize,
            ) by {
                if m != x && m != y && !is_neighbor(nx, ny, m as usize) {
                    lemma_unrelated_links(old_nodes, layout, list, i, j, m as usize);
                }
            }
            lemma_swap_shape(old_nodes, new_nodes, layout, list, i, j);
            let nl = swap_layout(layout, i, j);
            self.layout = Ghost(nl);
            if i == 0 {
                assert(nl[0] == y);
            } else if j == 0 {
                assert(nl[0] == x);
            } else if layout.len() > 0 {
                assert(layout[0] != x && layout[0] != y);
            }
        }
    }
}

} // verus!
