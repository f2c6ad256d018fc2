//! An intrusive-style minimum heap whose elements live in an arena and are
//! linked into a complete binary tree by parent/left/right links.
//!
//! Elements leave the heap either by `remove` or by `pop`; popped elements are
//! kept on a doubly linked "popped" list (sharing the same link fields) until
//! they are removed or moved back into the heap.

pub mod path;
pub mod order;
pub mod node;
pub mod sift;
pub mod heap;
pub mod laws;
pub(crate) mod tree;
pub(crate) mod adjust;
pub(crate) mod grow;
pub(crate) mod popped;

pub use heap::MinHeap;
pub use node::{IouMinHeapNodeMut, MinHeapNode};
pub use order::KeyOrder;
pub use path::compute_path;
