use hnsw::heap::{is_closer, Frontier, MaxSizeHeap};
use hnsw::node::{HnswNode, MAX_NEIGHBORS};

#[test]
fn test_hnsw_node_size() {
    assert!((MAX_NEIGHBORS) * std::mem::size_of::<usize>() < std::mem::size_of::<HnswNode>());
}

#[test]
fn node_starts_empty() {
    let node = HnswNode::new();
    assert_eq!(node.len(), 0);
    assert_eq!(node.neighbors(), Vec::<usize>::new());
    let other = HnswNode::default();
    assert_eq!(other.len(), 0);
}

#[test]
fn node_push_appends_in_order() {
    let mut node = HnswNode::new();
    node.push(7);
    node.push(3);
    node.push(9);
    assert_eq!(node.len(), 3);
    assert_eq!(node.neighbor(0), 7);
    assert_eq!(node.neighbor(1), 3);
    assert_eq!(node.neighbor(2), 9);
    assert_eq!(node.neighbors(), vec![7, 3, 9]);
}

#[test]
fn node_replace_overwrites_one_slot() {
    let mut node = HnswNode::new();
    node.push(1);
    node.push(2);
    node.push(3);
    node.replace(1, 8);
    assert_eq!(node.neighbors(), vec![1, 8, 3]);
    assert_eq!(node.len(), 3);
}

#[test]
fn node_clone_is_independent_copy() {
    let mut node = HnswNode::new();
    node.push(4);
    node.push(5);
    let copy = node.clone();
    node.push(6);
    node.replace(0, 0);
    assert_eq!(copy.neighbors(), vec![4, 5]);
    assert_eq!(node.neighbors(), vec![0, 5, 6]);
}

#[test]
fn node_holds_up_to_capacity() {
    let mut node = HnswNode::new();
    for j in 0..MAX_NEIGHBORS {
        node.push(100 + j);
    }
    assert_eq!(node.len(), MAX_NEIGHBORS);
    assert_eq!(node.neighbor(MAX_NEIGHBORS - 1), 100 + MAX_NEIGHBORS - 1);
}

#[test]
fn candidates_order_by_distance_then_index() {
    assert!(is_closer((1, 9), (2, 0)));
    assert!(!is_closer((2, 0), (1, 9)));
    assert!(is_closer((5, 1), (5, 2)));
    assert!(!is_closer((5, 2), (5, 1)));
    assert!(!is_closer((5, 2), (5, 2)));
}

#[test]
fn max_size_heap_keeps_the_closest() {
    let mut heap = MaxSizeHeap::new(3);
    assert_eq!(heap.len(), 0);
    assert_eq!(heap.peek(), None);
    for (d, i) in [(50u64, 0usize), (10, 1), (40, 2), (30, 3), (60, 4), (20, 5)] {
        heap.push((d, i));
    }
    assert_eq!(heap.len(), 3);
    assert_eq!(heap.peek(), Some(&(30, 3)));
    assert_eq!(heap.into_sorted_vec(), vec![(10, 1), (20, 5), (30, 3)]);
}

#[test]
fn max_size_heap_below_capacity_keeps_all() {
    let mut heap = MaxSizeHeap::new(10);
    heap.push((3, 0));
    heap.push((1, 1));
    heap.push((2, 2));
    assert_eq!(heap.len(), 3);
    assert_eq!(heap.peek(), Some(&(3, 0)));
    assert_eq!(heap.into_sorted_vec(), vec![(1, 1), (2, 2), (3, 0)]);
}

#[test]
fn max_size_heap_rejects_items_not_closer_than_top() {
    let mut heap = MaxSizeHeap::new(2);
    heap.push((5, 0));
    heap.push((7, 1));
    heap.push((7, 1));
    heap.push((7, 2));
    heap.push((9, 3));
    assert_eq!(heap.len(), 2);
    assert_eq!(heap.peek(), Some(&(7, 1)));
    heap.push((7, 0));
    assert_eq!(heap.peek(), Some(&(7, 0)));
    assert_eq!(heap.into_sorted_vec(), vec![(5, 0), (7, 0)]);
}

#[test]
fn max_size_heap_holds_equal_items() {
    let mut heap = MaxSizeHeap::new(4);
    heap.push((2, 2));
    heap.push((2, 2));
    heap.push((1, 1));
    assert_eq!(heap.len(), 3);
    assert_eq!(heap.into_sorted_vec(), vec![(1, 1), (2, 2), (2, 2)]);
}

#[test]
fn max_size_heap_of_size_zero_stays_empty() {
    let mut heap = MaxSizeHeap::new(0);
    heap.push((1, 1));
    assert_eq!(heap.len(), 0);
    assert_eq!(heap.peek(), None);
    assert_eq!(heap.into_sorted_vec(), Vec::<(u64, usize)>::new());
}

#[test]
fn max_size_heap_sorts_many() {
    let mut heap = MaxSizeHeap::new(64);
    let mut x: u64 = 12345;
    let mut all = Vec::new();
    for i in 0..200usize {
        x = x.wrapping_mul(6364136223846793005).wrapping_add(1442695040888963407);
        let item = ((x >> 40) % 1000, i);
        all.push(item);
        heap.push(item);
    }
    all.sort();
    all.truncate(64);
    assert_eq!(heap.len(), 64);
    assert_eq!(heap.peek(), Some(&all[63]));
    assert_eq!(heap.into_sorted_vec(), all);
}

#[test]
fn frontier_pops_closest_first() {
    let mut frontier = Frontier::new();
    assert_eq!(frontier.len(), 0);
    assert_eq!(frontier.pop(), None);
    for (d, i) in [(50u64, 0usize), (10, 1), (40, 2), (10, 0), (60, 4), (20, 5)] {
        frontier.push((d, i));
    }
    assert_eq!(frontier.len(), 6);
    let mut out = Vec::new();
    while let Some(c) = frontier.pop() {
        out.push(c);
    }
    assert_eq!(out, vec![(10, 0), (10, 1), (20, 5), (40, 2), (50, 0), (60, 4)]);
    assert_eq!(frontier.len(), 0);
}

#[test]
fn frontier_interleaves_push_and_pop() {
    let mut frontier = Frontier::new();
    frontier.push((5, 5));
    frontier.push((3, 3));
    assert_eq!(frontier.pop(), Some((3, 3)));
    frontier.push((1, 1));
    frontier.push((4, 4));
    assert_eq!(frontier.pop(), Some((1, 1)));
    assert_eq!(frontier.pop(), Some((4, 4)));
    assert_eq!(frontier.pop(), Some((5, 5)));
    assert_eq!(frontier.pop(), None);
}
