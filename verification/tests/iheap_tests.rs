use iheap::{compute_path, IouMinHeapNodeMut, KeyOrder, MinHeap};

fn top_value(heap: &MinHeap) -> u64 {
    heap.value_of(heap.peek().unwrap())
}

#[test]
fn test_nonzero_offset_push_pop() {
    let mut heap = MinHeap::new(KeyOrder::Ascending);
    let high = heap.add_entry(2);
    let low = heap.add_entry(1);
    let high_iou = heap.push(high).unwrap();
    let low_iou = heap.push(low).unwrap();
    assert_eq!(top_value(&heap), 1);
    heap.pop();
    assert_eq!(top_value(&heap), 2);
    assert!(heap.remove(low_iou).is_some());
    heap.pop();
    assert!(heap.peek().is_none());
    assert!(heap.remove(high_iou).is_some());
}

#[test]
fn test_compute_path() {
    assert_eq!(compute_path(0), (0, 0));
    assert_eq!(compute_path(1), (1, 0b0));
    assert_eq!(compute_path(2), (1, 0b1));
    assert_eq!(compute_path(3), (2, 0b00));
    assert_eq!(compute_path(4), (2, 0b10));
    assert_eq!(compute_path(5), (2, 0b01));
    assert_eq!(compute_path(6), (2, 0b11));
    assert_eq!(compute_path(7), (3, 0b000));
    assert_eq!(compute_path(8), (3, 0b100));
    assert_eq!(compute_path(9), (3, 0b010));
    assert_eq!(compute_path(10), (3, 0b110));
    assert_eq!(compute_path(11), (3, 0b001));
    assert_eq!(compute_path(12), (3, 0b101));
    assert_eq!(compute_path(13), (3, 0b011));
    assert_eq!(compute_path(14), (3, 0b111));
}

#[test]
fn test_basic_insertion() {
    let mut heap = MinHeap::new(KeyOrder::Ascending);
    let mut path = (0, 0);
    let (n, p) = heap.node_at(0, &mut path);
    assert!(n.is_none());
    assert!(p.is_none());
    assert_eq!(heap.size(), 0);
    let n0 = heap.add_entry(42);
    heap.push(n0);
    assert_eq!(heap.size(), 1);
    let root = heap.peek();
    assert!(root.is_some());
    assert_eq!(heap.value_of(root.unwrap()), 42);
    let n1 = heap.add_entry(37);
    heap.push(n1);
    assert_eq!(heap.size(), 2);
    let root = heap.peek();
    assert!(root.is_some());
    assert_eq!(heap.value_of(root.unwrap()), 37);
    let n2 = heap.add_entry(43);
    heap.push(n2);
    assert_eq!(heap.size(), 3);
    let root = heap.peek();
    assert!(root.is_some());
    assert_eq!(heap.value_of(root.unwrap()), 37);
    let n3 = heap.add_entry(23);
    heap.push(n3);
    assert_eq!(heap.size(), 4);
    let root = heap.peek();
    assert!(root.is_some());
    assert_eq!(heap.value_of(root.unwrap()), 23);
}

#[test]
fn test_removal() {
    let mut heap = MinHeap::new(KeyOrder::Ascending);
    let n0 = heap.add_entry(0);
    let n1 = heap.add_entry(1);
    let n2 = heap.add_entry(2);
    let n3 = heap.add_entry(3);
    let iou2 = heap.push(n2).unwrap();
    assert!(heap.validate());
    let iou1 = heap.push(n1).unwrap();
    assert!(heap.validate());
    let iou0 = heap.push(n0).unwrap();
    assert!(heap.validate());
    assert_eq!(heap.size(), 3);
    assert_eq!(top_value(&heap), 0);
    let iou3 = IouMinHeapNodeMut::from_mut(n3);
    assert!(heap.remove(iou3).is_none());
    assert_eq!(heap.size(), 3);
    assert_eq!(top_value(&heap), 0);
    assert!(heap.validate());
    heap.remove(iou0);
    assert!(heap.validate());
    assert_eq!(heap.size(), 2);
    assert_eq!(top_value(&heap), 1);
    heap.remove(iou2);
    assert!(heap.validate());
    assert_eq!(top_value(&heap), 1);
    let n3 = heap.add_entry(3);
    assert!(heap.validate());
    let iou3 = heap.push(n3).unwrap();
    assert_eq!(heap.size(), 2);
    assert_eq!(top_value(&heap), 1);
    heap.pop();
    assert_eq!(heap.size(), 1);
    assert!(heap.validate());
    heap.pop();
    assert!(heap.validate());
    assert_eq!(heap.size(), 0);
    assert!(heap.validate());
    heap.remove(iou1);
    assert!(heap.validate());
    heap.remove(iou3);
    assert!(heap.validate());
}

#[test]
fn test_stack_removal() {
    let mut heap = MinHeap::new(KeyOrder::Descending);
    let n0 = heap.add_entry(0);
    let b0 = heap.push(n0).unwrap();
    let n1 = heap.add_entry(1);
    let b1 = heap.push(n1).unwrap();
    let n2 = heap.add_entry(2);
    let b2 = heap.push(n2).unwrap();
    let n3 = heap.add_entry(3);
    let b3 = heap.push(n3).unwrap();
    let n4 = heap.add_entry(4);
    let b4 = heap.push(n4).unwrap();
    let n5 = heap.add_entry(5);
    let b5 = heap.push(n5).unwrap();
    assert_eq!(top_value(&heap), 5);
    heap.remove(b3);
    assert_eq!(top_value(&heap), 5);
    heap.remove(b5);
    assert_eq!(top_value(&heap), 4);
    heap.remove(b2);
    assert_eq!(top_value(&heap), 4);
    heap.remove(b4);
    assert_eq!(top_value(&heap), 1);
    heap.remove(b0);
    assert_eq!(top_value(&heap), 1);
    heap.remove(b1);
    assert!(heap.peek().is_none());
}

#[test]
fn test_remove_sibling() {
    let mut heap = MinHeap::new(KeyOrder::Ascending);
    let n0 = heap.add_entry(0);
    let n1 = heap.add_entry(1);
    let n2 = heap.add_entry(2);
    heap.push(n0);
    let iou1 = heap.push(n1).unwrap();
    heap.push(n2);
    assert!(heap.validate());
    heap.remove(iou1);
}

fn filled(n: u64) -> (MinHeap, Vec<usize>) {
    let mut iheap = MinHeap::new(KeyOrder::Descending);
    let mut ids = Vec::new();
    for i in 0..n {
        ids.push(iheap.add_entry(i));
    }
    (iheap, ids)
}

#[test]
fn fuzz() {
    let (mut iheap, vec) = filled(11);
    iheap.push(vec[0]);
    assert!(iheap.validate());
    iheap.push(vec[2]);
    assert!(iheap.validate());
    iheap.push(vec[4]);
    assert!(iheap.validate());
    iheap.push(vec[6]);
    assert!(iheap.validate());
    iheap.push(vec[8]);
    assert!(iheap.validate());
    iheap.push(vec[10]);
    assert!(iheap.validate());
    iheap.remove(IouMinHeapNodeMut::from_mut(vec[0]));
    assert!(iheap.validate());
    iheap.push(vec[1]);
    assert!(iheap.validate());
    iheap.remove(IouMinHeapNodeMut::from_mut(vec[2]));
    assert!(iheap.validate());
    iheap.push(vec[3]);
    assert!(iheap.validate());
    iheap.remove(IouMinHeapNodeMut::from_mut(vec[4]));
    assert!(iheap.validate());
    iheap.push(vec[5]);
    assert!(iheap.validate());
    iheap.remove(IouMinHeapNodeMut::from_mut(vec[6]));
    assert!(iheap.validate());
}

fn alternate(n: u64) {
    let (mut iheap, vec) = filled(n);
    for i in 0..3u64 {
        for &f in vec.iter() {
            if iheap.value_of(f) % 2 == i % 2 {
                assert!(iheap.validate());
                iheap.push(f);
                assert!(iheap.validate());
            } else {
                assert!(iheap.validate());
                iheap.remove(IouMinHeapNodeMut::from_mut(f));
                assert!(iheap.validate());
            }
        }
    }
}

#[test]
fn fuzz1() {
    alternate(4);
}

#[test]
fn fuzz2() {
    alternate(1 << 10);
}

#[test]
fn push_root_twice() {
    let mut iheap = MinHeap::new(KeyOrder::Descending);
    let root = iheap.add_entry(42);
    let iou = iheap.push(root);
    assert!(iou.is_some());
    let iou_again = iheap.push(root);
    assert!(iou_again.is_none());
}
