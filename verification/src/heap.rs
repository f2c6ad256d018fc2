//! The heap: its state, its invariant, and the operations its users call.

use vstd::prelude::*;
use crate::node::{MinHeapNode, IouMinHeapNodeMut, is_detached, lemma_view_detached};
use crate::order::KeyOrder;
use crate::grow::{holds, is_left_child, same_link};
use crate::sift::{sift_up, removal_layout, push_all, lowest_present, on_path_to, lemma_on_path_le, lemma_descend_on_path, lemma_lowest_present_through};
use crate::path::{compute_path, path_height, path_direction, descend, lemma_descend_grows, lemma_path_reaches};
use vstd::arithmetic::power2::lemma2_to64;

verus! {

/// `s[i]` when `i` is an index of `s`, else `None`.
pub(crate) open spec fn opt_at(s: Seq<usize>, i: int) -> Option<usize> {
    if 0 <= i < s.len() {
        Some(s[i])
    } else {
        None
    }
}

/// The parent of tree position `k`.
pub(crate) open spec fn parent_at(s: Seq<usize>, k: int) -> Option<usize> {
    if k == 0 {
        None
    } else {
        Some(s[(k - 1) / 2])
    }
}

/// The element at tree position `k` has exactly the links its position gives it.
pub(crate) open spec fn tree_node_ok(nodes: Seq<MinHeapNode>, layout: Seq<usize>, k: int) -> bool {
    let n = nodes[layout[k] as int];
    &&& n.parent == parent_at(layout, k)
    &&& n.left == opt_at(layout, 2 * k + 1)
    &&& n.right == opt_at(layout, 2 * k + 2)
}

/// The element at place `j` of the popped list links to its neighbours there.
pub(crate) open spec fn list_node_ok(nodes: Seq<MinHeapNode>, list: Seq<usize>, j: int) -> bool {
    let n = nodes[list[j] as int];
    &&& n.parent is None
    &&& n.left == parent_at_list(list, j)
    &&& n.right == opt_at(list, j + 1)
}

/// The predecessor of place `j` of a list.
pub(crate) open spec fn parent_at_list(list: Seq<usize>, j: int) -> Option<usize> {
    if j == 0 {
        None
    } else {
        Some(list[j - 1])
    }
}

/// Every id of `s` names an element of an arena of `len` elements.
pub(crate) open spec fn ids_below(s: Seq<usize>, len: nat) -> bool {
    forall|k: int| 0 <= k < s.len() ==> (#[trigger] s[k]) < len
}

/// No element is both in the tree and on the popped list.
pub(crate) open spec fn disjoint(a: Seq<usize>, b: Seq<usize>) -> bool {
    forall|k: int, j: int| 0 <= k < a.len() && 0 <= j < b.len() ==> #[trigger] a[k] != #[trigger] b[j]
}

/// The links of all elements agree with the tree layout and the popped list;
/// every other element is detached.
pub(crate) open spec fn shape_ok(nodes: Seq<MinHeapNode>, layout: Seq<usize>, list: Seq<usize>) -> bool {
    &&& layout.no_duplicates()
    &&& list.no_duplicates()
    &&& ids_below(layout, nodes.len())
    &&& ids_below(list, nodes.len())
    &&& disjoint(layout, list)
    &&& forall|k: int| 0 <= k < layout.len() ==> #[trigger] tree_node_ok(nodes, layout, k)
    &&& forall|j: int| 0 <= j < list.len() ==> #[trigger] list_node_ok(nodes, list, j)
    &&& forall|id: int|
        0 <= id < nodes.len() && !layout.contains(id as usize) && !list.contains(id as usize)
            ==> is_detached(#[trigger] nodes[id])
}

/// The element at position `c > 0` does not come before its parent.
pub(crate) open spec fn edge_ok(order: KeyOrder, values: Seq<u64>, layout: Seq<usize>, c: int) -> bool {
    !order.precedes(values[layout[c] as int], values[layout[(c - 1) / 2] as int])
}

/// The heap property holds on every edge of the tree.
pub(crate) open spec fn heap_ordered(order: KeyOrder, values: Seq<u64>, layout: Seq<usize>) -> bool {
    forall|c: int| 0 < c < layout.len() ==> #[trigger] edge_ok(order, values, layout, c)
}

/// A heap of elements kept in an arena. Element ids are indices into the
/// arena; each element has a value and a link record.
///
/// The elements in the heap form a complete binary tree in breadth-first
/// order (`layout`), linked through the records, and no element comes before
/// its parent. Popped elements form a list whose head is `popped`.
pub struct MinHeap {
    pub(crate) popped: Option<usize>,
    pub(crate) root: Option<usize>,
    pub(crate) size: usize,
    pub(crate) compare: KeyOrder,
    pub(crate) nodes: Vec<MinHeapNode>,
    pub(crate) values: Vec<u64>,
    pub(crate) layout: Ghost<Seq<usize>>,
    pub(crate) popped_list: Ghost<Seq<usize>>,
}

impl MinHeap {
    /// The links agree with the layout and the popped list.
    pub(crate) open spec fn links_ok(&self) -> bool {
        &&& self.nodes.len() == self.values.len()
        &&& self.size == self.layout@.len()
        &&& shape_ok(self.nodes@, self.layout@, self.popped_list@)
        &&& self.root == opt_at(self.layout@, 0)
        &&& self.popped == opt_at(self.popped_list@, 0)
    }

    /// The full invariant: consistent links and the heap property.
    pub(crate) open spec fn inv(&self) -> bool {
        &&& self.links_ok()
        &&& heap_ordered(self.compare, self.values@, self.layout@)
    }

    /// Nothing but the link records changed.
    pub(crate) open spec fn only_links_changed(&self, other: &MinHeap) -> bool {
        &&& self.popped == other.popped
        &&& self.root == other.root
        &&& self.size == other.size
        &&& self.compare == other.compare
        &&& self.values@ == other.values@
        &&& self.layout@ == other.layout@
        &&& self.popped_list@ == other.popped_list@
        &&& self.nodes@.len() == other.nodes@.len()
    }

    /// The heap is well formed.
    pub closed spec fn wf(&self) -> bool {
        self.inv()
    }

    /// The elements of the tree in breadth-first order: position `0` is the
    /// root, the children of position `k` are `2k + 1` and `2k + 2`.
    pub closed spec fn tree_layout(&self) -> Seq<usize> {
        self.layout@
    }

    /// The ids of the elements in the heap.
    pub open spec fn heap_ids(&self) -> Set<usize> {
        self.tree_layout().to_set()
    }

    /// The popped elements, most recently popped first.
    pub closed spec fn popped_ids(&self) -> Seq<usize> {
        self.popped_list@
    }

    /// The value of every element, by id.
    pub closed spec fn values(&self) -> Seq<u64> {
        self.values@
    }

    /// The order the heap ranks values by.
    pub closed spec fn key_order(&self) -> KeyOrder {
        self.compare
    }

    /// The element at the top of the heap (meaningful when it is not empty).
    pub open spec fn top(&self) -> usize {
        self.tree_layout()[0]
    }

    /// `id` is in the heap and no element of the heap comes before it.
    pub open spec fn is_min(&self, id: usize) -> bool {
        &&& self.heap_ids().contains(id)
        &&& forall|j: usize|
            #[trigger] self.heap_ids().contains(j) ==> !self.key_order().precedes(
                self.values()[j as int],
                self.values()[id as int],
            )
    }

    /// `id` is in the heap or on the popped list.
    pub open spec fn is_linked(&self, id: usize) -> bool {
        self.heap_ids().contains(id) || self.popped_ids().contains(id)
    }

    /// The element at tree position `i` (breadth-first order), if any.
    pub open spec fn position(&self, i: int) -> Option<usize> {
        if 0 <= i < self.tree_layout().len() {
            Some(self.tree_layout()[i])
        } else {
            None
        }
    }

    /// The links agree with a complete tree in breadth-first order and with
    /// the popped list: the whole invariant but the heap property.
    pub closed spec fn is_linked_tree(&self) -> bool {
        self.links_ok()
    }

    /// No element of the tree comes before its parent.
    pub open spec fn has_heap_property(&self) -> bool {
        forall|c: int|
            0 < c < self.heap_ids().len() ==> !self.key_order().precedes(
                self.values()[(#[trigger] self.position(c)).unwrap() as int],
                self.values()[self.position((c - 1) / 2).unwrap() as int],
            )
    }

    /// What `node_at` needs, and what its result means, at position `i`.
    pub(crate) proof fn lemma_locate(&self, i: int)
        requires
            self.links_ok(),
            0 <= i <= self.layout@.len(),
        ensures
            self.is_linked_tree(),
            i <= self.heap_ids().len(),
            self.position(i) == opt_at(self.layout@, i),
            i > 0 ==> self.position((i - 1) / 2) == opt_at(self.layout@, (i - 1) / 2),
    {
        self.layout@.unique_seq_to_set();
    }

    /// How the public view reads the internal state.
    pub(crate) proof fn lemma_view_bridge(&self)
        ensures
            self.wf() == self.inv(),
            self.heap_ids() == self.layout@.to_set(),
            self.popped_ids() == self.popped_list@,
            self.values() == self.values@,
            self.key_order() == self.compare,
            self.links_ok() ==> self.heap_ids().len() == self.layout@.len(),
            forall|i: int| #[trigger] self.position(i) == opt_at(self.layout@, i),
            self.is_linked_tree() == self.links_ok(),
            self.links_ok() ==> (self.has_heap_property() == heap_ordered(
                self.compare,
                self.values@,
                self.layout@,
            )),
    {
        if self.links_ok() {
            self.layout@.unique_seq_to_set();
            let layout = self.layout@;
            if self.has_heap_property() {
                assert forall|c: int| 0 < c < layout.len() implies #[trigger] edge_ok(
                    self.compare,
                    self.values@,
                    layout,
                    c,
                ) by {
                    assert(self.position(c) == opt_at(layout, c));
                    assert(self.position((c - 1) / 2) == opt_at(layout, (c - 1) / 2));
                }
            }
            if heap_ordered(self.compare, self.values@, layout) {
                assert forall|c: int| 0 < c < self.heap_ids().len() implies !self.key_order().precedes(
                    self.values()[(#[trigger] self.position(c)).unwrap() as int],
                    self.values()[self.position((c - 1) / 2).unwrap() as int],
                ) by {
                    assert(edge_ok(self.compare, self.values@, layout, c));
                }
            }
        }
    }

    /// The link record of every element, by id.
    pub closed spec fn link_records(&self) -> Seq<MinHeapNode> {
        self.nodes@
    }

    /// The link records follow from the tree layout and the popped list
    /// wherever the links are consistent (heap-ordered or not): two such heaps
    /// that agree on those (and on the number of elements) have the same
    /// records.
    pub proof fn lemma_links_follow_layout(a: &MinHeap, b: &MinHeap)
        requires
            a.is_linked_tree(),
            b.is_linked_tree(),
            a.tree_layout() == b.tree_layout(),
            a.popped_ids() == b.popped_ids(),
            a.values().len() == b.values().len(),
        ensures
            a.link_records() == b.link_records(),
    {
        let layout = a.layout@;
        let list = a.popped_list@;
        assert forall|id: int| 0 <= id < a.nodes@.len() implies #[trigger] a.nodes@[id] == b.nodes@[id] by {
            if layout.contains(id as usize) {
                let k = choose|k: int| 0 <= k < layout.len() && layout[k] == id as usize;
                assert(tree_node_ok(a.nodes@, layout, k));
                assert(tree_node_ok(b.nodes@, layout, k));
            } else if list.contains(id as usize) {
                let j = choose|j: int| 0 <= j < list.len() && list[j] == id as usize;
                assert(list_node_ok(a.nodes@, list, j));
                assert(list_node_ok(b.nodes@, list, j));
            } else {
                assert(is_detached(a.nodes@[id]));
                assert(is_detached(b.nodes@[id]));
            }
        }
        assert(a.nodes@ =~= b.nodes@);
    }

    /// What a well-formed heap guarantees about its parts.
    pub proof fn lemma_wf_facts(&self)
        requires
            self.wf(),
        ensures
            self.heap_ids().finite(),
            forall|id: usize| #[trigger] self.heap_ids().contains(id) ==> id < self.values().len(),
            forall|j: int| 0 <= j < self.popped_ids().len() ==> #[trigger] self.popped_ids()[j] < self.values().len(),
            forall|id: usize| #[trigger] self.heap_ids().contains(id) ==> !self.popped_ids().contains(id),
            self.popped_ids().no_duplicates(),
            !self.heap_ids().is_empty() ==> self.is_min(self.top()),
            self.heap_ids().is_empty() <==> self.heap_ids().len() == 0,
            !self.heap_ids().is_empty() ==> self.position(0) == Some(self.top()),
            self.is_linked_tree(),
            self.has_heap_property(),
            forall|i: int|
                0 <= i < self.heap_ids().len() ==> (#[trigger] self.position(i)) is Some
                    && self.heap_ids().contains(self.position(i).unwrap()),
            forall|i: int| !(0 <= i < self.heap_ids().len()) ==> (#[trigger] self.position(i)) is None,
            forall|c: int|
                0 < c < self.heap_ids().len() ==> !self.key_order().precedes(
                    self.values()[(#[trigger] self.position(c)).unwrap() as int],
                    self.values()[self.position((c - 1) / 2).unwrap() as int],
                ),
    {
        let layout = self.layout@;
        let list = self.popped_list@;
        layout.unique_seq_to_set();
        vstd::seq_lib::seq_to_set_is_finite(layout);
        assert forall|id: usize| #[trigger] self.heap_ids().contains(id) implies id < self.values().len() by {
            let k = layout.index_of(id);
            assert(layout[k] == id);
        }
        assert forall|id: usize| #[trigger] self.heap_ids().contains(id) implies !self.popped_ids().contains(id) by {
            let k = layout.index_of(id);
            if list.contains(id) {
                let j = list.index_of(id);
                assert(layout[k] != list[j]);
            }
        }
        assert forall|i: int| 0 <= i < self.heap_ids().len() implies (#[trigger] self.position(i)) is Some
            && self.heap_ids().contains(self.position(i).unwrap()) by {
            assert(layout.contains(layout[i]));
        }
        assert forall|c: int| 0 < c < self.heap_ids().len() implies !self.key_order().precedes(
            self.values()[(#[trigger] self.position(c)).unwrap() as int],
            self.values()[self.position((c - 1) / 2).unwrap() as int],
        ) by {
            assert(edge_ok(self.compare, self.values@, layout, c));
        }
        if !self.heap_ids().is_empty() {
            assert(self.heap_ids().len() > 0);
            assert(layout.len() > 0);
            assert(layout.contains(layout[0]));
            assert forall|j: usize| #[trigger] self.heap_ids().contains(j) implies !self.key_order().precedes(
                self.values()[j as int],
                self.values()[self.top() as int],
            ) by {
                let k = layout.index_of(j);
                lemma_root_is_min(self.compare, self.values@, layout, k);
            }
        }
    }

    /// An empty heap with no elements, ranking values by `compare`.
    pub fn new(compare: KeyOrder) -> (r: Self)
        ensures
            r.wf(),
            r.heap_ids().is_empty(),
            r.popped_ids().len() == 0,
            r.values().len() == 0,
            r.key_order() == compare,
    {
        let r = MinHeap {
            popped: None,
            root: None,
            size: 0,
            compare,
            nodes: Vec::new(),
            values: Vec::new(),
            layout: Ghost(Seq::empty()),
            popped_list: Ghost(Seq::empty()),
        };
        assert(r.heap_ids() =~= Set::empty());
        r
    }

    /// Adds a new detached element with value `value` to the arena and
    /// returns its id. The element is not in the heap until it is pushed.
    pub fn add_entry(&mut self, value: u64) -> (id: usize)
        requires
            old(self).wf(),
            old(self).values().len() < usize::MAX,
        ensures
            final(self).wf(),
            id == old(self).values().len(),
            final(self).values() == old(self).values().push(value),
            final(self).tree_layout() == old(self).tree_layout(),
            final(self).popped_ids() == old(self).popped_ids(),
            final(self).key_order() == old(self).key_order(),
            final(self).link_records().len() == old(self).link_records().len() + 1,
            final(self).link_records()[id as int]@ == (None::<usize>, None::<usize>, None::<usize>),
            forall|j: int| 0 <= j < id ==> #[trigger] final(self).link_records()[j] == old(self).link_records()[j],
    {
        let id = self.nodes.len();
        let node = MinHeapNode::new();
        proof {
            lemma_view_detached(node);
        }
        self.nodes.push(node);
        self.values.push(value);
        proof {
            let layout = self.layout@;
            let list = self.popped_list@;
            assert forall|k: int| 0 <= k < layout.len() implies #[trigger] tree_node_ok(self.nodes@, layout, k) by {
                assert(tree_node_ok(old(self).nodes@, layout, k));
            }
            assert forall|j: int| 0 <= j < list.len() implies #[trigger] list_node_ok(self.nodes@, list, j) by {
                assert(list_node_ok(old(self).nodes@, list, j));
            }
            assert forall|i: int|
                0 <= i < self.nodes@.len() && !layout.contains(i as usize) && !list.contains(i as usize)
                implies is_detached(#[trigger] self.nodes@[i]) by {
                if i < id {
                    assert(is_detached(old(self).nodes@[i]));
                }
            }
            assert(heap_ordered(self.compare, self.values@, layout)) by {
                assert forall|c: int| 0 < c < layout.len() implies #[trigger] edge_ok(self.compare, self.values@, layout, c) by {
                    assert(edge_ok(self.compare, old(self).values@, layout, c));
                }
            }
        }
        id
    }

    /// The number of elements in the heap.
    pub fn size(&self) -> (r: usize)
        requires
            self.wf(),
        ensures
            r == self.heap_ids().len(),
    {
        proof {
            self.layout@.unique_seq_to_set();
        }
        self.size
    }

    /// The value of element `id`.
    pub fn value_of(&self, id: usize) -> (r: u64)
        requires
            self.wf(),
            id < self.values().len(),
        ensures
            r == self.values()[id as int],
    {
        self.values[id]
    }

    /// The element a handle names, if any.
    pub fn iou_owner(iou: &IouMinHeapNodeMut) -> (r: Option<usize>)
        ensures
            r == iou@,
    {
        iou.target()
    }

    /// Puts element `id` into the heap and returns a handle on it. Returns
    /// `None`, changing nothing, when `id` names no element of the arena or
    /// the element is already in the heap or on the popped list.
    pub fn push(&mut self, id: usize) -> (r: Option<IouMinHeapNodeMut>)
        requires
            old(self).wf(),
        ensures
            final(self).wf(),
            (r is Some) == (id < old(self).values().len() && !old(self).is_linked(id)),
            r matches Some(iou) ==> iou@ == Some(id),
            r is None ==> *final(self) == *old(self),
            final(self).heap_ids() == (if r is Some {
                old(self).heap_ids().insert(id)
            } else {
                old(self).heap_ids()
            }),
            r is Some ==> final(self).tree_layout() == sift_up(
                old(self).key_order(),
                old(self).values(),
                old(self).tree_layout().push(id),
                old(self).tree_layout().len() as int,
            ),
            r is Some ==> forall|t: int|
                0 <= t < old(self).tree_layout().len() && !on_path_to(t, old(self).tree_layout().len() as int)
                    ==> #[trigger] final(self).tree_layout()[t] == old(self).tree_layout()[t],
            final(self).popped_ids() == old(self).popped_ids(),
            final(self).values() == old(self).values(),
            final(self).key_order() == old(self).key_order(),
    {
        if id >= self.nodes.len() {
            return None;
        }
        if self.push_node(id) {
            Some(IouMinHeapNodeMut::from_mut(id))
        } else {
            None
        }
    }

    /// Takes the element that `iou` names out of the heap, or off the popped
    /// list, and returns an empty handle. Returns `None`, changing nothing,
    /// when the element is in neither.
    pub fn remove(&mut self, iou: IouMinHeapNodeMut) -> (r: Option<IouMinHeapNodeMut>)
        requires
            old(self).wf(),
            iou@ is Some,
        ensures
            final(self).wf(),
            ({
                let id = iou@.unwrap();
                &&& (r is Some) == old(self).is_linked(id)
                &&& final(self).heap_ids() == old(self).heap_ids().remove(id)
                &&& final(self).popped_ids() == (if old(self).popped_ids().contains(id) {
                    old(self).popped_ids().remove(old(self).popped_ids().index_of(id))
                } else {
                    old(self).popped_ids()
                })
                &&& final(self).tree_layout() == (if old(self).heap_ids().contains(id) {
                    removal_layout(
                        old(self).key_order(),
                        old(self).values(),
                        old(self).tree_layout(),
                        old(self).tree_layout().index_of(id),
                    )
                } else {
                    old(self).tree_layout()
                })
            }),
            r matches Some(h) ==> h@ is None,
            r is None ==> *final(self) == *old(self),
            final(self).values() == old(self).values(),
            final(self).key_order() == old(self).key_order(),
    {
        let id = iou.target().unwrap();
        let ghost layout = self.layout@;
        let ghost list = self.popped_list@;
        proof {
            self.lemma_wf_facts();
        }
        if id >= self.nodes.len() {
            proof {
                assert(!layout.contains(id));
                assert(!list.contains(id)) by {
                    if list.contains(id) {
                        let j = list.index_of(id);
                        assert(list[j] < self.values.len());
                    }
                }
                assert(layout.to_set().remove(id) =~= layout.to_set());
            }
            return None;
        }
        if self.is_linked_in_heap(id) {
            let ghost i = layout.index_of(id);
            proof {
                assert(!list.contains(id));
            }
            self.inner_remove(id, Ghost(i));
            return Some(IouMinHeapNodeMut::new());
        }
        proof {
            assert(layout.to_set().remove(id) =~= layout.to_set());
            if list.contains(id) {
                let j = list.index_of(id);
                assert(list_node_ok(self.nodes@, list, j));
                if j == 0 {
                    assert(self.popped == Some(id));
                }
            } else {
                assert(is_detached(self.nodes@[id as int]));
                if self.popped == Some(id) {
                    assert(list[0] == id);
                }
            }
        }
        let on_list = match self.popped {
            Some(h) => h == id,
            None => false,
        } || self.nodes[id].left.is_some();
        if on_list {
            let ghost j = list.index_of(id);
            self.detach_popped(id, Ghost(j));
            return Some(IouMinHeapNodeMut::new());
        }
        None
    }

    /// Whether the element `iou` names is in the heap.
    pub fn is_active(&self, iou: &IouMinHeapNodeMut) -> (r: bool)
        requires
            self.wf(),
        ensures
            r == (iou@ matches Some(id) && self.heap_ids().contains(id)),
    {
        let id = match iou.target() {
            Some(id) => id,
            None => {
                return false;
            },
        };
        proof {
            self.lemma_wf_facts();
        }
        if id >= self.nodes.len() {
            return false;
        }
        self.is_linked_in_heap(id)
    }

    /// Takes the top element out of the heap and puts it at the front of the
    /// popped list; does nothing on an empty heap. Returns the heap.
    pub fn pop(&mut self) -> (r: &mut Self)
        requires
            old(self).wf(),
        ensures
            r.wf(),
            old(self).heap_ids().is_empty() ==> {
                &&& r.heap_ids() == old(self).heap_ids()
                &&& r.popped_ids() == old(self).popped_ids()
                &&& r.tree_layout() == old(self).tree_layout()
            },
            !old(self).heap_ids().is_empty() ==> {
                &&& r.heap_ids() == old(self).heap_ids().remove(old(self).top())
                &&& r.popped_ids() == seq![old(self).top()] + old(self).popped_ids()
                &&& old(self).is_min(r.popped_ids()[0])
                &&& r.tree_layout() == removal_layout(
                    old(self).key_order(),
                    old(self).values(),
                    old(self).tree_layout(),
                    0,
                )
            },
            r.values() == old(self).values(),
            r.key_order() == old(self).key_order(),
            *final(self) == *final(r),
    {
        proof {
            self.lemma_wf_facts();
            self.layout@.unique_seq_to_set();
        }
        let node = match self.root {
            Some(node) => node,
            None => {
                return self;
            },
        };
        proof {
            assert(self.layout@[0] == node);
            assert(!self.popped_list@.contains(node));
        }
        self.inner_remove(node, Ghost(0));
        self.push_popped_front(node);
        self
    }

    /// Replaces the value of every popped element by `f` of it.
    pub fn for_each_popped_value<F: Fn(u64) -> u64>(&mut self, f: F)
        requires
            old(self).wf(),
            forall|v: u64| call_requires(f, (v,)),
        ensures
            final(self).wf(),
            final(self).tree_layout() == old(self).tree_layout(),
            final(self).popped_ids() == old(self).popped_ids(),
            final(self).key_order() == old(self).key_order(),
            final(self).values().len() == old(self).values().len(),
            forall|t: int|
                0 <= t < old(self).popped_ids().len() ==> call_ensures(
                    f,
                    (old(self).values()[old(self).popped_ids()[t] as int],),
                    #[trigger] final(self).values()[old(self).popped_ids()[t] as int],
                ),
            forall|id: usize|
                id < old(self).values().len() && !old(self).popped_ids().contains(id)
                    ==> #[trigger] final(self).values()[id as int] == old(self).values()[id as int],
    {
        let ghost list = self.popped_list@;
        let ghost layout = self.layout@;
        let ghost old_values = self.values@;
        let mut current = self.popped;
        let ghost mut j: int = 0;
        while current.is_some()
            invariant
                self.links_ok(),
                self.layout@ == layout,
                self.popped_list@ == list,
                self.compare == old(self).compare,
                self.nodes@ == old(self).nodes@,
                self.root == old(self).root,
                self.popped == old(self).popped,
                self.size == old(self).size,
                old(self).inv(),
                old(self).values@ == old_values,
                layout == old(self).layout@,
                list == old(self).popped_list@,
                forall|v: u64| call_requires(f, (v,)),
                0 <= j <= list.len(),
                current == opt_at(list, j),
                self.values@.len() == old_values.len(),
                forall|t: int|
                    0 <= t < j ==> call_ensures(
                        f,
                        (old_values[list[t] as int],),
                        #[trigger] self.values@[list[t] as int],
                    ),
                forall|id: int|
                    0 <= id < old_values.len() && !list.take(j).contains(id as usize)
                        ==> #[trigger] self.values@[id] == old_values[id],
            decreases list.len() - j,
        {
            let id = current.unwrap();
            proof {
                assert(list_node_ok(self.nodes@, list, j));
            }
            current = self.right(id);
            let v = f(self.values[id]);
            self.values.set(id, v);
            proof {
                assert(!list.take(j).contains(id)) by {
                    if list.take(j).contains(id) {
                        let t = choose|t: int| 0 <= t < j && list.take(j)[t] == id;
                        assert(list[t] == id);
                    }
                }
                assert forall|t: int| 0 <= t < j implies list[t] != id by {}
                assert forall|id2: int|
                    0 <= id2 < old_values.len() && !list.take(j + 1).contains(id2 as usize)
                    implies #[trigger] self.values@[id2] == old_values[id2] by {
                    assert(list.take(j + 1)[j] == id);
                    if list.take(j).contains(id2 as usize) {
                        let t = choose|t: int| 0 <= t < j && list.take(j)[t] == id2 as usize;
                        assert(list.take(j + 1)[t] == id2 as usize);
                    }
                }
                j = j + 1;
            }
        }
        proof {
            assert(list.take(j) =~= list);
            assert forall|c: int| 0 < c < layout.len() implies #[trigger] edge_ok(self.compare, self.values@, layout, c) by {
                assert(edge_ok(old(self).compare, old_values, layout, c));
                assert(!list.contains(layout[c])) by {
                    if list.contains(layout[c]) {
                        let t = choose|t: int| 0 <= t < list.len() && list[t] == layout[c];
                        assert(layout[c] != list[t]);
                    }
                }
                assert(!list.contains(layout[(c - 1) / 2])) by {
                    if list.contains(layout[(c - 1) / 2]) {
                        let t = choose|t: int| 0 <= t < list.len() && list[t] == layout[(c - 1) / 2];
                        assert(layout[(c - 1) / 2] != list[t]);
                    }
                }
            }
            assert forall|id: usize|
                id < old_values.len() && !list.contains(id)
                implies #[trigger] self.values@[id as int] == old_values[id as int] by {}
        }
    }

    /// Moves back into the heap every popped element whose value `accept`
    /// accepts, walking the popped list from its front; the others stay on
    /// the list in their order. Returns how many were moved.
    pub fn move_chosen_popped_values_to_heap<F: Fn(u64) -> bool>(&mut self, accept: F) -> (r: usize)
        requires
            old(self).wf(),
            forall|v: u64| call_requires(accept, (v,)),
        ensures
            final(self).wf(),
            final(self).popped_ids() == old(self).popped_ids().filter(
                |x: usize| !final(self).heap_ids().contains(x),
            ),
            forall|x: usize|
                #[trigger] final(self).heap_ids().contains(x) <==> (old(self).heap_ids().contains(x) || (
                old(self).popped_ids().contains(x) && !final(self).popped_ids().contains(x))),
            forall|t: int|
                0 <= t < old(self).popped_ids().len() ==> call_ensures(
                    accept,
                    (old(self).values()[old(self).popped_ids()[t] as int],),
                    !final(self).popped_ids().contains(#[trigger] old(self).popped_ids()[t]),
                ),
            r == old(self).popped_ids().len() - final(self).popped_ids().len(),
            final(self).tree_layout() == push_all(
                old(self).key_order(),
                old(self).values(),
                old(self).tree_layout(),
                old(self).popped_ids().filter(|x: usize| !final(self).popped_ids().contains(x)),
            ),
            final(self).values() == old(self).values(),
            final(self).key_order() == old(self).key_order(),
    {
        let ghost list0 = self.popped_list@;
        let ghost layout0 = self.layout@;
        let ghost mut moved: Set<usize> = Set::empty();
        let ghost mut k: int = 0;
        let mut chosen: usize = 0;
        let mut current = self.popped;
        proof {
            self.lemma_wf_facts();
            assert(list0.take(0).filter(|x: usize| !moved.contains(x)) =~= Seq::<usize>::empty());
            assert(self.layout@.to_set() =~= layout0.to_set().union(moved));
            assert(list0.skip(0) =~= list0);
            assert(self.popped_list@ =~= list0.take(0).filter(|x: usize| !moved.contains(x)) + list0.skip(0));
            assert(list0.take(0).filter(|x: usize| moved.contains(x)) =~= Seq::<usize>::empty());
        }
        while current.is_some()
            invariant
                self.inv(),
                self.compare == old(self).compare,
                self.values@ == old(self).values@,
                old(self).inv(),
                list0 == old(self).popped_list@,
                layout0 == old(self).layout@,
                list0.no_duplicates(),
                forall|v: u64| call_requires(accept, (v,)),
                0 <= k <= list0.len(),
                self.popped_list@ == list0.take(k).filter(|x: usize| !moved.contains(x)) + list0.skip(k),
                current == opt_at(list0, k),
                moved.subset_of(list0.take(k).to_set()),
                self.layout@.to_set() == layout0.to_set().union(moved),
                forall|x: usize| #[trigger] moved.contains(x) ==> !layout0.contains(x),
                forall|t: int|
                    0 <= t < k ==> call_ensures(
                        accept,
                        (self.values@[list0[t] as int],),
                        #[trigger] moved.contains(list0[t]),
                    ),
                self.layout@ == push_all(
                    self.compare,
                    self.values@,
                    layout0,
                    list0.take(k).filter(|x: usize| moved.contains(x)),
                ),
                self.size == old(self).size + chosen,
                chosen == moved.len(),
                moved.finite(),
            decreases list0.len() - k,
        {
            let node = current.unwrap();
            let ghost kept = list0.take(k).filter(|x: usize| !moved.contains(x));
            let ghost list = self.popped_list@;
            proof {
                assert(list[kept.len() as int] == node);
                assert(list_node_ok(self.nodes@, list, kept.len() as int));
                if k + 1 < list0.len() {
                    assert(list[kept.len() as int + 1] == list0[k + 1]);
                }
                assert(list0.take(k + 1) =~= list0.take(k).push(node));
                assert(!moved.contains(node)) by {
                    if moved.contains(node) {
                        assert(list0.take(k).to_set().contains(node));
                        let t = choose|t: int| 0 <= t < k && list0.take(k)[t] == node;
                        assert(list0[t] == node);
                    }
                }
            }
            current = self.right(node);
            if !accept(self.values[node]) {
                proof {
                    list0.take(k).lemma_filter_push(node, |x: usize| !moved.contains(x));
                    list0.take(k).lemma_filter_push(node, |x: usize| moved.contains(x));
                    assert(list0.skip(k) =~= seq![node] + list0.skip(k + 1));
                    assert(list0.take(k + 1).filter(|x: usize| !moved.contains(x)) + list0.skip(k + 1)
                        =~= kept + list0.skip(k));
                    k = k + 1;
                }
                continue;
            }
            proof {
                assert(self.layout@.contains(node) == false) by {
                    let t = kept.len() as int;
                    if self.layout@.contains(node) {
                        let q = choose|q: int| 0 <= q < self.layout@.len() && self.layout@[q] == node;
                        assert(self.layout@[q] != list[t]);
                    }
                }
            }
            self.detach_popped(node, Ghost(kept.len() as int));
            let inserted = self.push_node(node);
            proof {
                let new_moved = moved.insert(node);
                assert(list.remove(kept.len() as int) =~= kept + list0.skip(k + 1));
                assert(inserted);
                assert forall|i: int| 0 <= i < k implies #[trigger] new_moved.contains(list0[i]) == moved.contains(list0[i]) by {
                    assert(list0[i] != node);
                }
                assert(list0.take(k).filter(|x: usize| !new_moved.contains(x))
                    == list0.take(k).filter(|x: usize| !moved.contains(x))) by {
                    lemma_filter_congruent(list0.take(k), |x: usize| !new_moved.contains(x), |x: usize| !moved.contains(x));
                }
                list0.take(k).lemma_filter_push(node, |x: usize| !new_moved.contains(x));
                let before = list0.take(k).filter(|x: usize| moved.contains(x));
                assert(list0.take(k).filter(|x: usize| new_moved.contains(x)) == before) by {
                    lemma_filter_congruent(list0.take(k), |x: usize| new_moved.contains(x), |x: usize| moved.contains(x));
                }
                list0.take(k).lemma_filter_push(node, |x: usize| new_moved.contains(x));
                assert(before.push(node).drop_last() =~= before);
                assert(list0.take(k + 1).filter(|x: usize| new_moved.contains(x)) == before.push(node));
                moved = new_moved;
                assert(self.layout@.to_set() =~= layout0.to_set().union(moved));
                assert(moved.subset_of(list0.take(k + 1).to_set())) by {
                    assert forall|x: usize| moved.contains(x) implies list0.take(k + 1).to_set().contains(x) by {
                        if x == node {
                            assert(list0.take(k + 1)[k] == node);
                        } else {
                            assert(list0.take(k).to_set().contains(x));
                            let t = choose|t: int| 0 <= t < k && list0.take(k)[t] == x;
                            assert(list0.take(k + 1)[t] == x);
                        }
                    }
                }
                assert(!layout0.contains(node)) by {
                    if layout0.contains(node) {
                        let q = choose|q: int| 0 <= q < layout0.len() && layout0[q] == node;
                        assert(layout0[q] != list0[k]);
                    }
                }
                k = k + 1;
            }
            chosen = chosen + 1;
        }
        proof {
            assert(list0.take(k) =~= list0);
            assert(list0.skip(k) =~= Seq::<usize>::empty());
            let fin = self.popped_list@;
            assert(fin =~= list0.filter(|x: usize| !moved.contains(x)));
            assert forall|x: usize| list0.contains(x) implies (fin.contains(x) <==> !moved.contains(x)) by {
                let t = choose|t: int| 0 <= t < list0.len() && list0[t] == x;
                broadcast use vstd::seq_lib::group_filter_ensures;
                if !moved.contains(x) {
                    list0.lemma_filter_contains_rev(|y: usize| !moved.contains(y), x);
                }
            }
            assert forall|x: usize| #[trigger] self.heap_ids().contains(x) <==> (old(self).heap_ids().contains(x) || (
                list0.contains(x) && !fin.contains(x))) by {
                if moved.contains(x) {
                    assert(list0.take(k).to_set().contains(x));
                }
            }
            assert forall|t: int| 0 <= t < list0.len() implies (#[trigger] self.heap_ids().contains(list0[t])) == moved.contains(list0[t]) by {
                assert(!layout0.contains(list0[t])) by {
                    if layout0.contains(list0[t]) {
                        let q = choose|q: int| 0 <= q < layout0.len() && layout0[q] == list0[t];
                        assert(layout0[q] != list0[t]);
                    }
                }
            }
            lemma_filter_congruent(list0, |x: usize| !self.heap_ids().contains(x), |x: usize| !moved.contains(x));
            lemma_filter_congruent(list0, |x: usize| !fin.contains(x), |x: usize| moved.contains(x));
            assert(fin.len() + moved.len() == list0.len()) by {
                lemma_filter_split_len(list0, moved);
            }
        }
        chosen
    }

    /// Checks, position by position, that every element of the tree sits
    /// where its position says: reached by the path from the root, linked to
    /// its parent and children accordingly, and not before its parent.
    /// Returns `false` at the first element that comes before its parent
    /// (where a panicking check would stop); given consistent links, that is
    /// the only check that can fail, so the result says whether the heap
    /// property holds.
    pub fn validate(&self) -> (r: bool)
        requires
            self.is_linked_tree(),
        ensures
            r == self.has_heap_property(),
    {
        proof {
            self.lemma_view_bridge();
        }
        let size = self.size;
        let mut i: usize = 0;
        while i < size
            invariant
                self.links_ok(),
                size == self.size,
                i <= size,
                forall|c: int| 0 < c < i ==> #[trigger] edge_ok(self.compare, self.values@, self.layout@, c),
            decreases size - i,
        {
            let ghost layout = self.layout@;
            let mut path: (usize, usize) = (0, 0);
            proof {
                self.lemma_view_bridge();
            }
            let (current, parent) = self.node_at(i, &mut path);
            let node = match current {
                Some(n) => n,
                None => {
                    return false;
                },
            };
            proof {
                assert(tree_node_ok(self.nodes@, layout, i as int));
            }
            if i >= size / 2 && self.left(node).is_some() {
                return false;
            }
            if i >= (size - 1) / 2 && self.right(node).is_some() {
                return false;
            }
            if !same_link(self.parent(node), parent) {
                return false;
            }
            match parent {
                None => {
                    proof {
                        lemma2_to64();
                    }
                    if path.0 != 0 || !holds(self.root, node) {
                        return false;
                    }
                },
                Some(p) => {
                    proof {
                        assert(tree_node_ok(self.nodes@, layout, (i as int - 1) / 2));
                    }
                    if self.compare_nodes(node, p) {
                        proof {
                            assert(!edge_ok(self.compare, self.values@, layout, i as int));
                            assert(!heap_ordered(self.compare, self.values@, layout));
                        }
                        return false;
                    }
                    let child = if is_left_child(path, Ghost(i as nat)) {
                        self.left(p)
                    } else {
                        self.right(p)
                    };
                    if !holds(child, node) {
                        return false;
                    }
                },
            }
            proof {
                if i > 0 {
                    assert(edge_ok(self.compare, self.values@, layout, i as int));
                }
            }
            i += 1;
        }
        proof {
            assert(heap_ordered(self.compare, self.values@, self.layout@));
        }
        true
    }

    /// Locates the element at tree position `i` by following, from the root,
    /// the turns that `compute_path` gives. Returns that element and its
    /// parent, and leaves the path in `path`.
    pub fn node_at(&self, i: usize, path: &mut (usize, usize)) -> (r: (
        Option<usize>,
        Option<usize>,
    ))
        requires
            self.is_linked_tree(),
        ensures
            final(path).0 == path_height(i as nat),
            final(path).1 == path_direction(i as nat),
            r.0 == self.position(i as int),
            r.1 == (if i == 0 || self.heap_ids().len() == 0 {
                None
            } else {
                self.position(lowest_present((i - 1) / 2, self.heap_ids().len() as int))
            }),
    {
        proof {
            self.layout@.unique_seq_to_set();
        }
        let (h0, d0) = compute_path(i);
        *path = (h0, d0);
        let mut height = h0;
        let mut direction = d0;
        let mut current = self.root;
        let mut current_parent: Option<usize> = None;
        let ghost layout = self.layout@;
        let ghost mut a: int = 0;
        proof {
            lemma_path_reaches(i as nat);
        }
        while height > 0 && current.is_some()
            invariant
                self.links_ok(),
                layout == self.layout@,
                0 <= a,
                descend(a as nat, direction as nat, height as nat) == i,
                current == opt_at(layout, a),
                current_parent == parent_at(layout, a),
                a > 0 ==> (a - 1) / 2 < layout.len(),
            decreases height,
        {
            proof {
                lemma_descend_grows(a as nat, direction as nat, height as nat);
            }
            let node = current.unwrap();
            proof {
                assert(tree_node_ok(self.nodes@, layout, a));
            }
            current_parent = current;
            let d = direction;
            let bit = d & 1;
            assert(bit == d % 2) by (bit_vector)
                requires bit == d & 1;
            current = if bit == 0 {
                self.left(node)
            } else {
                self.right(node)
            };
            assert(d >> 1 == d / 2) by (bit_vector);
            proof {
                a = 2 * a + 1 + bit;
            }
            direction = d >> 1;
            height -= 1;
        }
        proof {
            let n = layout.len() as int;
            lemma_descend_grows(a as nat, direction as nat, height as nat);
            lemma_descend_on_path(a as nat, direction as nat, height as nat);
            if i > 0 && n > 0 {
                assert(a > 0);
                if a == i {
                    assert((i - 1) / 2 < n);
                } else {
                    assert(a >= n);
                    lemma_on_path_le(a, i as int);
                    assert(on_path_to(a, (i - 1) / 2));
                    lemma_lowest_present_through(a, (i - 1) / 2, n);
                    assert(lowest_present(a, n) == lowest_present((a - 1) / 2, n));
                }
            }
        }
        (current, current_parent)
    }

    /// The element at the top of the heap: one that no element of the heap
    /// comes before. `None` when the heap is empty.
    pub fn peek(&self) -> (r: Option<usize>)
        requires
            self.wf(),
        ensures
            r == (if self.heap_ids().is_empty() { None } else { Some(self.top()) }),
            r matches Some(id) ==> self.is_min(id),
    {
        proof {
            self.lemma_wf_facts();
            self.layout@.unique_seq_to_set();
        }
        self.root
    }
}

/// Filtering by predicates that agree on every element gives the same result.
pub(crate) proof fn lemma_filter_congruent(s: Seq<usize>, p: spec_fn(usize) -> bool, q: spec_fn(usize) -> bool)
    requires
        forall|i: int| 0 <= i < s.len() ==> p(#[trigger] s[i]) == q(s[i]),
    ensures
        s.filter(p) == s.filter(q),
    decreases s.len(),
{
    reveal(Seq::filter);
    if s.len() > 0 {
        lemma_filter_congruent(s.drop_last(), p, q);
    }
}

/// A duplicate-free sequence splits into the elements of a subset of it and
/// the others.
pub(crate) proof fn lemma_filter_split_len(s: Seq<usize>, c: Set<usize>)
    requires
        s.no_duplicates(),
        c.subset_of(s.to_set()),
    ensures
        s.filter(|x: usize| !c.contains(x)).len() + c.len() == s.len(),
        c.finite(),
    decreases s.len(),
{
    reveal(Seq::filter);
    if s.len() == 0 {
        assert(c =~= Set::empty());
    } else {
        let last = s.last();
        let rest = s.drop_last();
        let c2 = c.remove(last);
        assert(c2.subset_of(rest.to_set())) by {
            assert forall|x: usize| c2.contains(x) implies rest.to_set().contains(x) by {
                let t = choose|t: int| 0 <= t < s.len() && s[t] == x;
                assert(t != s.len() - 1);
                assert(rest[t] == x);
            }
        }
        lemma_filter_split_len(rest, c2);
        lemma_filter_congruent(rest, |x: usize| !c2.contains(x), |x: usize| !c.contains(x));
        if c.contains(last) {
            assert(c2.insert(last) =~= c);
        } else {
            assert(c2 =~= c);
        }
    }
}

/// The root of a heap-ordered layout comes no later than any position `k`.
pub(crate) proof fn lemma_root_is_min(order: KeyOrder, values: Seq<u64>, layout: Seq<usize>, k: int)
    requires
        heap_ordered(order, values, layout),
        0 <= k < layout.len(),
    ensures
        !order.precedes(values[layout[k] as int], values[layout[0] as int]),
    decreases k,
{
    if k > 0 {
        assert(edge_ok(order, values, layout, k));
        lemma_root_is_min(order, values, layout, (k - 1) / 2);
    }
}

} // verus!
