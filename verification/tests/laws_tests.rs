use iheap::{compute_path, IouMinHeapNodeMut, KeyOrder, MinHeap};

#[test]
fn pops_come_out_in_order() {
    let values = [7u64, 3, 9, 1, 4, 4, 8, 0, 6, 2];
    let mut heap = MinHeap::new(KeyOrder::Ascending);
    for v in values.iter() {
        let id = heap.add_entry(*v);
        assert!(heap.push(id).is_some());
    }
    let mut out = Vec::new();
    while let Some(top) = heap.peek() {
        out.push(heap.value_of(top));
        heap.pop();
        assert!(heap.validate());
    }
    assert_eq!(out, vec![0, 1, 2, 3, 4, 4, 6, 7, 8, 9]);
    assert_eq!(heap.size(), 0);
}

#[test]
fn descending_order_pops_largest_first() {
    let mut heap = MinHeap::new(KeyOrder::Descending);
    for v in [5u64, 11, 2].iter() {
        let id = heap.add_entry(*v);
        heap.push(id);
    }
    assert_eq!(heap.value_of(heap.peek().unwrap()), 11);
    heap.pop().pop();
    assert_eq!(heap.value_of(heap.peek().unwrap()), 2);
}

#[test]
fn remove_undoes_push() {
    let mut heap = MinHeap::new(KeyOrder::Ascending);
    let a = heap.add_entry(10);
    let b = heap.add_entry(20);
    heap.push(a);
    let iou = heap.push(b).unwrap();
    assert_eq!(heap.size(), 2);
    assert_eq!(MinHeap::iou_owner(&heap.remove(iou).unwrap()), None);
    assert_eq!(heap.size(), 1);
    assert_eq!(heap.peek(), Some(a));
    // the removed element can be pushed again
    assert!(heap.push(b).is_some());
    assert_eq!(heap.size(), 2);
}

#[test]
fn is_active_follows_membership() {
    let mut heap = MinHeap::new(KeyOrder::Ascending);
    let a = heap.add_entry(1);
    let empty = IouMinHeapNodeMut::new();
    assert!(!heap.is_active(&empty));
    let iou = heap.push(a).unwrap();
    assert!(heap.is_active(&iou));
    assert_eq!(MinHeap::iou_owner(&iou), Some(a));
    assert_eq!(MinHeap::iou_owner(&empty), None);
    heap.pop();
    assert!(!heap.is_active(&iou));
    // a popped element cannot be pushed until it is removed from the popped list
    assert!(heap.push(a).is_none());
    assert!(heap.remove(iou).is_some());
    assert!(heap.push(a).is_some());
    // an id outside the arena is refused
    assert!(heap.push(99).is_none());
    assert!(!heap.is_active(&IouMinHeapNodeMut::from_mut(99)));
    assert!(heap.remove(IouMinHeapNodeMut::from_mut(99)).is_none());
}

#[test]
fn popped_values_can_be_updated_and_moved_back() {
    let mut heap = MinHeap::new(KeyOrder::Ascending);
    let ids: Vec<usize> = (0..6u64).map(|v| heap.add_entry(v * 10)).collect();
    for &id in ids.iter() {
        heap.push(id);
    }
    heap.pop();
    heap.pop();
    heap.pop();
    // popped: 20, 10, 0 (most recent first); in the heap: 30, 40, 50
    assert_eq!(heap.size(), 3);
    heap.for_each_popped_value(|v| v + 1);
    assert_eq!(heap.value_of(ids[0]), 1);
    assert_eq!(heap.value_of(ids[1]), 11);
    assert_eq!(heap.value_of(ids[2]), 21);
    assert_eq!(heap.value_of(ids[3]), 30);
    let moved = heap.move_chosen_popped_values_to_heap(|v| v > 5);
    assert_eq!(moved, 2);
    assert_eq!(heap.size(), 5);
    assert!(heap.validate());
    assert_eq!(heap.value_of(heap.peek().unwrap()), 11);
    // the element left on the popped list is still there
    assert!(heap.remove(IouMinHeapNodeMut::from_mut(ids[0])).is_some());
    assert!(heap.remove(IouMinHeapNodeMut::from_mut(ids[0])).is_none());
}

#[test]
fn compute_path_routes_to_index() {
    for i in 0..200usize {
        let (h, d) = compute_path(i);
        let mut at = 0usize;
        for t in 0..h {
            at = 2 * at + 1 + ((d >> t) & 1);
        }
        assert_eq!(at, i);
    }
    assert_eq!(compute_path(usize::MAX), (64, 0));
}

#[test]
fn key_order_compares_strictly() {
    assert!(KeyOrder::Ascending.is_less(1, 2));
    assert!(!KeyOrder::Ascending.is_less(2, 2));
    assert!(KeyOrder::Descending.is_less(3, 2));
    assert!(!KeyOrder::Descending.is_less(2, 3));
}

#[test]
fn node_at_follows_the_layout() {
    let mut heap = MinHeap::new(KeyOrder::Ascending);
    for v in 0..7u64 {
        let id = heap.add_entry(v);
        heap.push(id);
    }
    let mut path = (0, 0);
    let (n, p) = heap.node_at(5, &mut path);
    assert_eq!(path, (2, 0b01));
    assert_eq!(n, Some(5));
    assert_eq!(p, Some(2));
    let (n, p) = heap.node_at(7, &mut path);
    assert_eq!(n, None);
    assert_eq!(p, Some(3));
}

fn layout_of(heap: &MinHeap) -> Vec<usize> {
    let mut out = Vec::new();
    let mut path = (0, 0);
    for i in 0..heap.size() {
        out.push(heap.node_at(i, &mut path).0.unwrap());
    }
    out
}

#[test]
fn sift_down_takes_left_child_on_tie() {
    let mut heap = MinHeap::new(KeyOrder::Ascending);
    let a = heap.add_entry(0);
    let b = heap.add_entry(3);
    let c = heap.add_entry(3);
    let d = heap.add_entry(5);
    for &id in [a, b, c, d].iter() {
        heap.push(id);
    }
    assert_eq!(layout_of(&heap), vec![a, b, c, d]);
    heap.pop();
    // d takes the root, then changes places with the left one of the equal children
    assert_eq!(layout_of(&heap), vec![b, d, c]);
}

#[test]
fn sift_up_stops_at_equal_parent() {
    let mut heap = MinHeap::new(KeyOrder::Ascending);
    let a = heap.add_entry(5);
    let b = heap.add_entry(1);
    let c = heap.add_entry(1);
    heap.push(a);
    heap.push(b);
    assert_eq!(layout_of(&heap), vec![b, a]);
    heap.push(c);
    assert_eq!(layout_of(&heap), vec![b, a, c]);
}

#[test]
fn node_at_past_the_end_gives_deepest_present_ancestor() {
    let mut heap = MinHeap::new(KeyOrder::Ascending);
    let mut path = (0, 0);
    assert_eq!(heap.node_at(9, &mut path), (None, None));
    for v in 0..3u64 {
        let id = heap.add_entry(v);
        heap.push(id);
    }
    // position 9 lies below 4, below 1; position 1 holds element 1
    assert_eq!(heap.node_at(9, &mut path), (None, Some(1)));
    assert_eq!(path, (3, 0b010));
    assert_eq!(heap.node_at(0, &mut path), (Some(0), None));
}

#[test]
fn drain_then_move_back_restores_heap() {
    let mut heap = MinHeap::new(KeyOrder::Descending);
    for v in [4u64, 8, 1, 8, 6].iter() {
        let id = heap.add_entry(*v);
        heap.push(id);
    }
    let mut out = Vec::new();
    while let Some(top) = heap.peek() {
        out.push(heap.value_of(top));
        heap.pop();
    }
    assert_eq!(out, vec![8, 8, 6, 4, 1]);
    assert_eq!(heap.move_chosen_popped_values_to_heap(|_| true), 5);
    assert_eq!(heap.size(), 5);
    assert!(heap.validate());
    assert_eq!(heap.move_chosen_popped_values_to_heap(|_| true), 0);
    assert_eq!(heap.value_of(heap.peek().unwrap()), 8);
}

#[test]
fn defaults_are_detached_and_empty() {
    let h = IouMinHeapNodeMut::default();
    assert_eq!(MinHeap::iou_owner(&h), None);
    let _node = iheap::MinHeapNode::default();
}

#[test]
fn add_entry_keeps_layout() {
    let mut heap = MinHeap::new(KeyOrder::Ascending);
    let a = heap.add_entry(2);
    let b = heap.add_entry(1);
    heap.push(a);
    heap.push(b);
    let before = layout_of(&heap);
    let c = heap.add_entry(0);
    assert_eq!(layout_of(&heap), before);
    assert!(heap.push(c).is_some());
}

#[test]
fn handle_stays_active_across_other_elements() {
    let mut heap = MinHeap::new(KeyOrder::Ascending);
    let ids: Vec<usize> = (0..5u64).map(|v| heap.add_entry(10 - v)).collect();
    let watched = heap.push(ids[0]).unwrap();
    for &id in ids[1..].iter() {
        heap.push(id);
        assert!(heap.is_active(&watched));
    }
    heap.remove(IouMinHeapNodeMut::from_mut(ids[2]));
    assert!(heap.is_active(&watched));
    heap.pop();
    assert!(heap.is_active(&watched));
    assert!(heap.remove(IouMinHeapNodeMut::from_mut(ids[0])).is_some());
    assert!(!heap.is_active(&watched));
}

#[test]
fn second_move_back_moves_nothing() {
    let mut heap = MinHeap::new(KeyOrder::Ascending);
    for v in 0..6u64 {
        let id = heap.add_entry(v);
        heap.push(id);
    }
    for _ in 0..4 {
        heap.pop();
    }
    assert_eq!(heap.move_chosen_popped_values_to_heap(|v| v % 2 == 0), 2);
    let layout = layout_of(&heap);
    let size = heap.size();
    assert_eq!(heap.move_chosen_popped_values_to_heap(|v| v % 2 == 0), 0);
    assert_eq!(layout_of(&heap), layout);
    assert_eq!(heap.size(), size);
}
