//! Putting an element into the tree and taking one out of it.

use vstd::prelude::*;
use vstd::arithmetic::power2::{lemma2_to64, lemma2_to64_rest, lemma_pow2_strictly_increases};
use vstd::set_lib::{set_int_range, lemma_int_range, lemma_len_subset};
use crate::heap::{MinHeap, shape_ok, tree_node_ok, list_node_ok, ids_below, edge_ok, heap_ordered};
use crate::node::{MinHeapNode, is_detached};
use crate::path::{path_height, path_direction, lemma_path_last_turn, lemma_path_bounds};
use crate::adjust::{ordered_but_above, ordered_but_below, lemma_swap_layout_set};
use crate::sift::{swap_layout, val, sift_up, sift_down, removal_layout, on_path_to, lemma_sift_up_path};

verus! {

/// Distinct ids below `len` that leave out `extra < len` are fewer than `len`.
proof fn lemma_ids_bound(s: Seq<usize>, len: nat, extra: usize)
    requires
        s.no_duplicates(),
        ids_below(s, len),
        extra < len,
        !s.contains(extra),
    ensures
        s.len() < len,
{
    let t = s.push(extra);
    let ti = t.map_values(|u: usize| u as int);
    assert(ti.no_duplicates()) by {
        assert forall|a: int, b: int| 0 <= a < ti.len() && 0 <= b < ti.len() && a != b implies ti[a] != ti[b] by {
            if a < s.len() && b < s.len() {
                assert(t[a] == s[a] && t[b] == s[b]);
            } else if a < s.len() {
                assert(t[a] == s[a]);
            } else {
                assert(t[b] == s[b]);
            }
        }
    }
    ti.unique_seq_to_set();
    lemma_int_range(0, len as int);
    assert(ti.to_set().subset_of(set_int_range(0, len as int))) by {
        assert forall|e: int| ti.to_set().contains(e) implies set_int_range(0, len as int).contains(e) by {
            let k = choose|k: int| 0 <= k < ti.len() && ti[k] == e;
            if k < s.len() {
                assert(t[k] == s[k]);
            }
        }
    }
    lemma_len_subset(ti.to_set(), set_int_range(0, len as int));
}

/// Whether tree position `s > 0`, reached by `path`, is a left child, read
/// off the deepest turn of the path.
pub(crate) fn is_left_child(path: (usize, usize), Ghost(s): Ghost<nat>) -> (r: bool)
    requires
        0 < s <= usize::MAX,
        path.0 == path_height(s),
        path.1 == path_direction(s),
    ensures
        r == (s % 2 == 1),
{
    proof {
        lemma_path_last_turn(s);
        lemma_path_bounds(s);
        lemma2_to64();
        lemma2_to64_rest();
        if path.0 > usize::BITS {
            lemma_pow2_strictly_increases(usize::BITS as nat, path.0 as nat);
        }
    }
    let t = path.0 - 1;
    let d = path.1;
    let bit = (1usize << t) & d;
    assert(bit == 0 <==> (d >> t) & 1 == 0) by (bit_vector)
        requires
            t < usize::BITS,
            bit == (1usize << t) & d,
    ;
    proof {
        vstd::bits::lemma_usize_shr_is_div(d, t);
    }
    let q = d >> t;
    assert(q <= 1 ==> (q & 1 == 0 <==> q == 0)) by (bit_vector);
    bit == 0
}

/// `o` is `Some(id)`.
pub(crate) fn holds(o: Option<usize>, id: usize) -> (r: bool)
    ensures
        r == (o == Some(id)),
{
    match o {
        Some(v) => v == id,
        None => false,
    }
}


/// Replacing the element at position `i` by the last element, and dropping
/// the last position, leaves at most one place out of order: above `i` when
/// the moved element comes before the parent of `i`, below `i` otherwise.
proof fn lemma_remove_order(order: crate::order::KeyOrder, values: Seq<u64>, layout: Seq<usize>, i: int)
    requires
        heap_ordered(order, values, layout),
        0 <= i < layout.len() - 1,
    ensures
        ({
            let nl = swap_layout(layout, i, layout.len() - 1).drop_last();
            let up = i > 0 && order.precedes(val(values, layout, layout.len() - 1), val(values, layout, (i - 1) / 2));
            &&& up ==> ordered_but_above(order, values, nl, i)
            &&& !up ==> ordered_but_below(order, values, nl, i)
        }),
{
    let n = layout.len();
    let nl = swap_layout(layout, i, n - 1).drop_last();
    let up = i > 0 && order.precedes(val(values, layout, n - 1), val(values, layout, (i - 1) / 2));
    assert(nl.len() == n - 1);
    assert forall|t: int| 0 <= t < n - 1 && t != i implies #[trigger] nl[t] == layout[t] by {}
    assert(nl[i] == layout[n - 1]);
    if i > 0 {
        assert(edge_ok(order, values, layout, i));
    }
    if 2 * i + 1 < n - 1 {
        assert(edge_ok(order, values, layout, 2 * i + 1));
    }
    if 2 * i + 2 < n - 1 {
        assert(edge_ok(order, values, layout, 2 * i + 2));
    }
    assert(edge_ok(order, values, layout, n - 1) || n - 1 == 0);
    if up {
        assert forall|c: int| 0 < c < nl.len() && c != i implies #[trigger] edge_ok(order, values, nl, c) by {
            assert(edge_ok(order, values, layout, c));
            if (c - 1) / 2 == i {
                assert(c == 2 * i + 1 || c == 2 * i + 2);
                assert(edge_ok(order, values, layout, i));
            }
        }
    } else {
        assert forall|c: int| 0 < c < nl.len() && (c - 1) / 2 != i implies #[trigger] edge_ok(order, values, nl, c) by {
            if c != i {
                assert(edge_ok(order, values, layout, c));
            }
        }
    }
}

/// The two links are equal.
pub(crate) fn same_link(a: Option<usize>, b: Option<usize>) -> (r: bool)
    ensures
        r == (a == b),
{
    match (a, b) {
        (Some(x), Some(y)) => x == y,
        (None, None) => true,
        _ => false,
    }
}

impl MinHeap {
    /// Inserts element `node` at the end of the tree and moves it up to its
    /// place. Refuses (returns `false`, changing nothing) an element that is
    /// already in the heap or on the popped list.
    pub(crate) fn push_node(&mut self, node: usize) -> (r: bool)
        requires
            old(self).inv(),
            node < old(self).nodes.len(),
        ensures
            r == !(old(self).layout@.contains(node) || old(self).popped_list@.contains(node)),
            final(self).inv(),
            r ==> final(self).layout@.to_set() == old(self).layout@.to_set().insert(node),
            !r ==> *final(self) == *old(self),
            final(self).size == old(self).size + (if r { 1int } else { 0int }),
            r ==> final(self).layout@ == sift_up(
                old(self).compare,
                old(self).values@,
                old(self).layout@.push(node),
                old(self).layout@.len() as int,
            ),
            r ==> forall|t: int|
                0 <= t < old(self).layout@.len() && !on_path_to(t, old(self).layout@.len() as int)
                    ==> #[trigger] final(self).layout@[t] == old(self).layout@[t],
            final(self).popped == old(self).popped,
            final(self).compare == old(self).compare,
            final(self).values@ == old(self).values@,
            final(self).popped_list@ == old(self).popped_list@,
            final(self).nodes@.len() == old(self).nodes@.len(),
    {
        let ghost layout = self.layout@;
        let ghost list = self.popped_list@;
        let ghost old_nodes = self.nodes@;
        proof {
            if layout.contains(node) {
                let k = layout.index_of(node);
                assert(tree_node_ok(old_nodes, layout, k));
                if k == 0 {
                    assert(self.root == Some(node));
                }
            } else if list.contains(node) {
                let j = list.index_of(node);
                assert(list_node_ok(old_nodes, list, j));
                if j == 0 {
                    assert(self.popped == Some(node));
                }
            } else {
                assert(is_detached(old_nodes[node as int]));
                if self.root == Some(node) {
                    assert(layout[0] == node);
                }
                if self.popped == Some(node) {
                    assert(list[0] == node);
                }
            }
        }
        if holds(self.root, node) || self.parent(node).is_some() || self.left(node).is_some()
            || self.right(node).is_some() || holds(self.popped, node) {
            return false;
        }
        proof {
            lemma_ids_bound(layout, old_nodes.len(), node);
        }
        let s = self.size;
        let mut path: (usize, usize) = (0, 0);
        proof {
            self.lemma_locate(s as int);
        }
        let (_current, parent) = self.node_at(s, &mut path);
        self.set_parent(node, parent);
        self.size = s + 1;
        let ghost nl = layout.push(node);
        proof {
            assert forall|t: int| 0 <= t < layout.len() implies #[trigger] nl[t] == layout[t] by {}
            assert(nl[s as int] == node);
        }
        match parent {
            None => {
                self.root = Some(node);
                proof {
                    assert(s == 0);
                    self.layout = Ghost(nl);
                    assert(nl.no_duplicates());
                    assert(tree_node_ok(self.nodes@, nl, 0));
                    assert forall|j: int| 0 <= j < list.len() implies #[trigger] list_node_ok(self.nodes@, list, j) by {
                        assert(list_node_ok(old_nodes, list, j));
                    }
                    assert forall|id: int|
                        0 <= id < self.nodes@.len() && !nl.contains(id as usize) && !list.contains(id as usize)
                        implies is_detached(#[trigger] self.nodes@[id]) by {
                        if id != node {
                            assert(!layout.contains(id as usize));
                        } else {
                            assert(nl[0] == node);
                        }
                    }
                    assert(heap_ordered(self.compare, self.values@, nl));
                    layout.lemma_push_to_set_commute(node);
                }
                return true;
            },
            Some(p) => {
                let ghost pi = (s - 1) / 2;
                proof {
                    assert(p == layout[pi]);
                    assert(tree_node_ok(old_nodes, layout, pi));
                }
                if is_left_child(path, Ghost(s as nat)) {
                    self.set_left(p, Some(node));
                } else {
                    self.set_right(p, Some(node));
                }
                proof {
                    let new_nodes = self.nodes@;
                    assert(s == 2 * pi + 1 || s == 2 * pi + 2);
                    assert forall|k: int| 0 <= k < nl.len() implies #[trigger] tree_node_ok(new_nodes, nl, k) by {
                        if k < s {
                            assert(tree_node_ok(old_nodes, layout, k));
                            assert(layout[k] != node);
                            if k > 0 {
                                assert(nl[(k - 1) / 2] == layout[(k - 1) / 2]);
                            }
                            if 2 * k + 1 < nl.len() {
                                assert(nl[2 * k + 1] == layout[2 * k + 1] || 2 * k + 1 == s);
                            }
                            if 2 * k + 2 < nl.len() {
                                assert(nl[2 * k + 2] == layout[2 * k + 2] || 2 * k + 2 == s);
                            }
                            if k != pi {
                                assert(2 * k + 1 != s && 2 * k + 2 != s);
                            }
                        } else {
                            assert(k == s);
                            assert(nl[pi] == p);
                        }
                    }
                    assert forall|j: int| 0 <= j < list.len() implies #[trigger] list_node_ok(new_nodes, list, j) by {
                        assert(list_node_ok(old_nodes, list, j));
                        assert(list[j] != p);
                    }
                    assert forall|id: int|
                        0 <= id < new_nodes.len() && !nl.contains(id as usize) && !list.contains(id as usize)
                        implies is_detached(#[trigger] new_nodes[id]) by {
                        assert(id as usize != node) by {
                            assert(nl[s as int] == node);
                        }
                        assert(!layout.contains(id as usize)) by {
                            if layout.contains(id as usize) {
                                let t = choose|t: int| 0 <= t < layout.len() && layout[t] == id as usize;
                                assert(nl[t] == id as usize);
                            }
                        }
                        assert(id as usize != p);
                    }
                    assert(nl.no_duplicates());
                    assert(ids_below(nl, new_nodes.len()));
                    assert(shape_ok(new_nodes, nl, list));
                    self.layout = Ghost(nl);
                    assert(ordered_but_above(self.compare, self.values@, nl, s as int)) by {
                        assert forall|c: int| 0 < c < nl.len() && c != s implies #[trigger] edge_ok(
                            self.compare,
                            self.values@,
                            nl,
                            c,
                        ) by {
                            assert(edge_ok(self.compare, self.values@, layout, c));
                        }
                    }
                    layout.lemma_push_to_set_commute(node);
                }
                self.bottom_up_adjust(node, Ghost(s as int));
                proof {
                    lemma_sift_up_path(self.compare, self.values@, nl, s as int);
                }
                true
            },
        }
    }

    /// Takes element `node`, at position `i`, out of the tree: the last
    /// element takes its place and is then moved up or down to restore the
    /// heap property. `node` ends up detached.
    pub(crate) fn inner_remove(&mut self, node: usize, Ghost(i): Ghost<int>)
        requires
            old(self).inv(),
            0 <= i < old(self).layout@.len(),
            old(self).layout@[i] == node,
        ensures
            final(self).inv(),
            final(self).layout@.to_set() == old(self).layout@.to_set().remove(node),
            final(self).layout@.len() == old(self).layout@.len() - 1,
            final(self).layout@ == removal_layout(old(self).compare, old(self).values@, old(self).layout@, i),
            final(self).popped == old(self).popped,
            final(self).compare == old(self).compare,
            final(self).values@ == old(self).values@,
            final(self).popped_list@ == old(self).popped_list@,
            final(self).nodes@.len() == old(self).nodes@.len(),
    {
        let ghost layout = self.layout@;
        let ghost list = self.popped_list@;
        let ghost values = self.values@;
        let ghost order = self.compare;
        let s = self.size;
        let ghost n = s as int;
        let mut path: (usize, usize) = (0, 0);
        proof {
            self.lemma_locate(s - 1);
        }
        let (last, last_parent) = self.node_at(s - 1, &mut path);
        let last = last.unwrap();
        proof {
            lemma_swap_layout_set(layout, i, n - 1);
        }
        self.swap_nodes(node, last, Ghost(i), Ghost(n - 1));
        let ghost l1 = self.layout@;
        let ghost nodes1 = self.nodes@;
        proof {
            assert(l1[n - 1] == node);
            assert(tree_node_ok(nodes1, l1, n - 1));
            lemma_drop_last_set(layout, l1, node);
        }
        self.set_parent(node, None);
        self.size = s - 1;
        let ghost l2 = l1.drop_last();
        match last_parent {
            None => {
                self.root = None;
                proof {
                    lemma_cut_last_shape(nodes1, self.nodes@, l1, list);
                    self.layout = Ghost(l2);
                }
                return;
            },
            Some(lp) => {
                let ghost pi = (n - 2) / 2;
                let is_left = is_left_child(path, Ghost((s - 1) as nat));
                let parent = if node == lp {
                    last
                } else {
                    lp
                };
                proof {
                    assert(lp == layout[pi]);
                    assert(l1[pi] == parent);
                    assert(parent != node);
                }
                if is_left {
                    self.set_left(parent, None);
                } else {
                    self.set_right(parent, None);
                }
                proof {
                    lemma_cut_last_shape(nodes1, self.nodes@, l1, list);
                    self.layout = Ghost(l2);
                    assert(l2[0] == l1[0]);
                }
                if node == last {
                    proof {
                        assert(l1 == layout);
                        lemma_drop_last_order(order, values, layout);
                    }
                    return;
                }
                proof {
                    lemma_remove_order(order, values, layout, i);
                    assert(l2 == swap_layout(layout, i, n - 1).drop_last());
                    assert(l2[i] == last);
                    assert(tree_node_ok(self.nodes@, l2, i));
                    if i > 0 {
                        assert(l2[(i - 1) / 2] == layout[(i - 1) / 2]);
                    }
                }
                match self.parent(last) {
                    Some(p) => {
                        if self.compare_nodes(last, p) {
                            self.bottom_up_adjust(last, Ghost(i));
                            return;
                        }
                    },
                    None => {},
                }
                self.top_down_adjust(last, Ghost(i));
            },
        }
    }
}

/// Dropping the last position, which holds `node`, of a rearrangement `l1`
/// of `layout` leaves the elements of `layout` but `node`.
proof fn lemma_drop_last_set(layout: Seq<usize>, l1: Seq<usize>, node: usize)
    requires
        l1.len() == layout.len() > 0,
        l1.to_set() == layout.to_set(),
        l1.no_duplicates(),
        l1[l1.len() - 1] == node,
    ensures
        l1.drop_last().to_set() == layout.to_set().remove(node),
        !l1.drop_last().contains(node),
{
    let n = l1.len();
    let l2 = l1.drop_last();
    assert forall|t: int| 0 <= t < n - 1 implies #[trigger] l2[t] == l1[t] by {}
    assert(!l2.contains(node)) by {
        if l2.contains(node) {
            let t = choose|t: int| 0 <= t < l2.len() && l2[t] == node;
            assert(l1[t] == node);
        }
    }
    assert forall|e: usize| l2.to_set().contains(e) <==> layout.to_set().remove(node).contains(e) by {
        if l2.contains(e) {
            let t = choose|t: int| 0 <= t < l2.len() && l2[t] == e;
            assert(l1[t] == e);
            assert(l1.contains(e));
        }
        if layout.to_set().remove(node).contains(e) {
            assert(l1.to_set().contains(e));
            let t = choose|t: int| 0 <= t < l1.len() && l1[t] == e;
            assert(t != n - 1);
            assert(l2[t] == e);
        }
    }
    assert(l2.to_set() =~= layout.to_set().remove(node));
}

/// Dropping the last position keeps a layout heap ordered.
proof fn lemma_drop_last_order(order: crate::order::KeyOrder, values: Seq<u64>, layout: Seq<usize>)
    requires
        heap_ordered(order, values, layout),
        layout.len() > 0,
    ensures
        heap_ordered(order, values, layout.drop_last()),
{
    let l2 = layout.drop_last();
    assert forall|c: int| 0 < c < l2.len() implies #[trigger] edge_ok(order, values, l2, c) by {
        assert(edge_ok(order, values, layout, c));
    }
}

/// Detaching the element at the last position of the tree, and clearing the
/// link its parent had to it, leaves links that agree with the shorter tree.
proof fn lemma_cut_last_shape(
    nodes1: Seq<MinHeapNode>,
    nodes2: Seq<MinHeapNode>,
    l1: Seq<usize>,
    list: Seq<usize>,
)
    requires
        shape_ok(nodes1, l1, list),
        l1.len() > 0,
        nodes1.len() <= usize::MAX,
        nodes2.len() == nodes1.len(),
        is_detached(nodes2[l1[l1.len() - 1] as int]),
        l1.len() > 1 ==> ({
            let c = l1.len() - 1;
            let p = l1[(c - 1) / 2] as int;
            &&& nodes2[p].parent == nodes1[p].parent
            &&& nodes2[p].left == (if c == 2 * ((c - 1) / 2) + 1 { None } else { nodes1[p].left })
            &&& nodes2[p].right == (if c == 2 * ((c - 1) / 2) + 2 { None } else { nodes1[p].right })
        }),
        forall|m: int|
            0 <= m < nodes1.len() && m != l1[l1.len() - 1] as int && (l1.len() > 1 ==> m
                != l1[(l1.len() - 2) / 2] as int) ==> #[trigger] nodes2[m] == nodes1[m],
    ensures
        shape_ok(nodes2, l1.drop_last(), list),
{
    let n = l1.len();
    let node = l1[n - 1];
    let l2 = l1.drop_last();
    let pi = (n - 2) / 2;
    assert forall|t: int| 0 <= t < n - 1 implies #[trigger] l2[t] == l1[t] by {}
    assert(tree_node_ok(nodes1, l1, n - 1));
    assert forall|k: int| 0 <= k < l2.len() implies #[trigger] tree_node_ok(nodes2, l2, k) by {
        assert(tree_node_ok(nodes1, l1, k));
        assert(l1[k] != node);
        if k > 0 {
            assert(l2[(k - 1) / 2] == l1[(k - 1) / 2]);
        }
        if 2 * k + 1 < l2.len() {
            assert(l2[2 * k + 1] == l1[2 * k + 1]);
        }
        if 2 * k + 2 < l2.len() {
            assert(l2[2 * k + 2] == l1[2 * k + 2]);
        }
        if k != pi {
            assert(2 * k + 1 != n - 1 && 2 * k + 2 != n - 1);
            assert(l1[k] != l1[pi] || n == 1);
        }
    }
    assert forall|j: int| 0 <= j < list.len() implies #[trigger] list_node_ok(nodes2, list, j) by {
        assert(list_node_ok(nodes1, list, j));
        assert(list[j] != node);
        if n > 1 {
            assert(list[j] != l1[pi]);
        }
    }
    assert forall|id: int|
        0 <= id < nodes2.len() && !l2.contains(id as usize) && !list.contains(id as usize)
        implies is_detached(#[trigger] nodes2[id]) by {
        if id as usize != node {
            assert(!l1.contains(id as usize)) by {
                if l1.contains(id as usize) {
                    let t = choose|t: int| 0 <= t < l1.len() && l1[t] == id as usize;
                    assert(t != n - 1);
                    assert(l2[t] == id as usize);
                }
            }
            if n > 1 {
                assert(id as usize != l1[pi]);
            }
            assert(is_detached(nodes1[id]));
        }
    }
    assert(l2.no_duplicates());
    assert(ids_below(l2, nodes2.len()));
}

} // verus!
