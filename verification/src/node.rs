//! The link record that every element carries, and the handle that `push`
//! hands out for an element in the heap.

use vstd::prelude::*;

verus! {

/// The links of one element.
///
/// While the element is in the heap, `left` and `right` are its children in
/// the tree and `parent` its parent. While it is on the popped list, `left`
/// and `right` are its predecessor and successor there and `parent` is `None`.
/// A detached element has all three links `None`.
#[derive(Clone, Copy, Debug)]
pub struct MinHeapNode {
    pub(crate) left: Option<usize>,
    pub(crate) right: Option<usize>,
    pub(crate) parent: Option<usize>,
}

impl MinHeapNode {
    /// A detached link record.
    pub fn new() -> (r: Self)
        ensures
            r@ == (None::<usize>, None::<usize>, None::<usize>),
    {
        MinHeapNode { left: None, right: None, parent: None }
    }
}

impl Default for MinHeapNode {
    /// A detached link record, as `new` gives.
    fn default() -> (r: Self)
        ensures
            r@ == (None::<usize>, None::<usize>, None::<usize>),
    {
        MinHeapNode::new()
    }
}

impl View for MinHeapNode {
    /// The links `(left, right, parent)`.
    type V = (Option<usize>, Option<usize>, Option<usize>);

    closed spec fn view(&self) -> (Option<usize>, Option<usize>, Option<usize>) {
        (self.left, self.right, self.parent)
    }
}

/// A record whose view has no link is detached.
pub(crate) proof fn lemma_view_detached(n: MinHeapNode)
    requires
        n@ == (None::<usize>, None::<usize>, None::<usize>),
    ensures
        is_detached(n),
{
}

/// No link is set.
pub(crate) open spec fn is_detached(n: MinHeapNode) -> bool {
    &&& n.left is None
    &&& n.right is None
    &&& n.parent is None
}

/// Exchanges the ids `x` and `y`, leaving every other id as it is.
pub(crate) open spec fn swap_id(n: usize, x: usize, y: usize) -> usize {
    if n == x {
        y
    } else if n == y {
        x
    } else {
        n
    }
}

/// `swap_id` applied inside an optional link.
pub(crate) open spec fn swap_link(o: Option<usize>, x: usize, y: usize) -> Option<usize> {
    match o {
        Some(n) => Some(swap_id(n, x, y)),
        None => None,
    }
}

/// A link record with every link to `x` redirected to `y` and back.
pub(crate) open spec fn swap_refs(n: MinHeapNode, x: usize, y: usize) -> MinHeapNode {
    MinHeapNode {
        left: swap_link(n.left, x, y),
        right: swap_link(n.right, x, y),
        parent: swap_link(n.parent, x, y),
    }
}

pub(crate) fn exchange_link(o: Option<usize>, x: usize, y: usize) -> (r: Option<usize>)
    ensures
        r == swap_link(o, x, y),
{
    match o {
        Some(n) => {
            if n == x {
                Some(y)
            } else if n == y {
                Some(x)
            } else {
                Some(n)
            }
        },
        None => None,
    }
}

pub(crate) fn exchange_refs(n: MinHeapNode, x: usize, y: usize) -> (r: MinHeapNode)
    ensures
        r == swap_refs(n, x, y),
{
    MinHeapNode {
        left: exchange_link(n.left, x, y),
        right: exchange_link(n.right, x, y),
        parent: exchange_link(n.parent, x, y),
    }
}

/// A handle on an element that `push` put into a heap; it is what `remove`
/// and `is_active` take. An empty handle names no element.
#[derive(Debug)]
pub struct IouMinHeapNodeMut {
    pub(crate) node: Option<usize>,
}

impl View for IouMinHeapNodeMut {
    type V = Option<usize>;

    closed spec fn view(&self) -> Option<usize> {
        self.node
    }
}

impl Default for IouMinHeapNodeMut {
    /// An empty handle, as `new` gives.
    fn default() -> (r: Self)
        ensures
            r@ is None,
    {
        IouMinHeapNodeMut::new()
    }
}

impl IouMinHeapNodeMut {
    /// An empty handle.
    pub fn new() -> (r: Self)
        ensures
            r@ is None,
    {
        IouMinHeapNodeMut { node: None }
    }

    /// A handle on the element with id `id`.
    pub fn from_mut(id: usize) -> (r: Self)
        ensures
            r@ == Some(id),
    {
        IouMinHeapNodeMut { node: Some(id) }
    }

    /// The element the handle names.
    pub(crate) fn target(&self) -> (r: Option<usize>)
        ensures
            r == self@,
    {
        self.node
    }
}

} // verus!
