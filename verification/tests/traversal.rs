use hnsw::builder::{build_layer, insert_element, size_of_level};
use hnsw::link::connect_nodes;
use hnsw::node::{HnswNode, MAX_NEIGHBORS};
use hnsw::traversal::{find_entrypoint, search_for_neighbors, Traversal};

fn node(nbrs: &[usize]) -> HnswNode {
    let mut n = HnswNode::new();
    for &j in nbrs {
        n.push(j);
    }
    n
}

fn layer(rows: &[&[usize]]) -> Vec<HnswNode> {
    rows.iter().map(|r| node(r)).collect()
}

fn rows(layer: &[HnswNode]) -> Vec<Vec<usize>> {
    layer.iter().map(|n| n.neighbors()).collect()
}

fn gap(i: usize, j: usize) -> u64 {
    (if i > j { i - j } else { j - i }) as u64
}

#[test]
fn connect_appends_while_there_is_room() {
    let mut n = node(&[5, 9]);
    assert!(connect_nodes(&mut n, &gap, 7, 100));
    assert_eq!(n.neighbors(), vec![5, 9, 100]);
    let mut empty = HnswNode::new();
    assert!(connect_nodes(&mut empty, &gap, 0, 1));
    assert_eq!(empty.neighbors(), vec![1]);
}

#[test]
fn connect_replaces_the_farthest_of_a_full_node() {
    // node 0 with neighbours 1..=20: the farthest is 20, at distance 20
    let full: Vec<usize> = (1..=MAX_NEIGHBORS).collect();
    let mut n = node(&full);
    assert!(connect_nodes(&mut n, &gap, 0, 39));
    let mut expected = full.clone();
    expected[19] = 39;
    assert_eq!(n.neighbors(), expected);
    // now the farthest is 39; 77 is closer than twice that
    assert!(connect_nodes(&mut n, &gap, 0, 77));
    expected[19] = 77;
    assert_eq!(n.neighbors(), expected);
}

#[test]
fn connect_refuses_at_twice_the_farthest_distance() {
    let full: Vec<usize> = (1..=MAX_NEIGHBORS).collect();
    let mut n = node(&full);
    assert!(!connect_nodes(&mut n, &gap, 0, 40));
    assert_eq!(n.neighbors(), full);
    assert!(!connect_nodes(&mut n, &gap, 0, 1000));
    assert_eq!(n.neighbors(), full);
}

#[test]
fn connect_picks_the_last_of_equally_far_neighbours() {
    let flat = |_: usize, j: usize| if j == 99 { 3u64 } else { 2u64 };
    let full: Vec<usize> = (1..=MAX_NEIGHBORS).collect();
    let mut n = node(&full);
    assert!(connect_nodes(&mut n, &flat, 0, 99));
    let mut expected = full.clone();
    expected[19] = 99;
    assert_eq!(n.neighbors(), expected);

    let peak = |_: usize, j: usize| if j == 4 || j == 9 { 8u64 } else { 1u64 };
    let mut n = node(&full);
    assert!(connect_nodes(&mut n, &peak, 0, 50));
    let mut expected = full.clone();
    expected[8] = 50;
    assert_eq!(n.neighbors(), expected);
}

#[test]
fn connect_measures_without_overflow() {
    let huge = |_: usize, j: usize| if j == 0 { u64::MAX } else { u64::MAX - 1 };
    let full: Vec<usize> = (1..=MAX_NEIGHBORS).collect();
    let mut n = node(&full);
    // u64::MAX is less than twice u64::MAX - 1
    assert!(connect_nodes(&mut n, &huge, 50, 0));
    assert_eq!(n.neighbor(19), 0);
}

#[test]
fn traversal_of_a_chain() {
    let chain = layer(&[&[1], &[0, 2], &[1, 3], &[2, 4], &[3]]);
    let to_four = |i: usize| gap(i, 4);
    assert_eq!(search_for_neighbors(&chain, 0, &to_four, 10, 2), vec![(0, 4), (1, 3)]);
    assert_eq!(
        search_for_neighbors(&chain, 0, &to_four, 10, 5),
        vec![(0, 4), (1, 3), (2, 2), (3, 1), (4, 0)]
    );
    assert_eq!(search_for_neighbors(&chain, 0, &to_four, 2, 3), vec![(3, 1), (4, 0)]);
    assert_eq!(search_for_neighbors(&chain, 0, &to_four, 1, 3), vec![(4, 0)]);
    assert_eq!(search_for_neighbors(&chain, 0, &to_four, 0, 3), Vec::<(u64, usize)>::new());
    assert_eq!(search_for_neighbors(&chain, 0, &to_four, 10, 0), Vec::<(u64, usize)>::new());
    assert_eq!(search_for_neighbors(&chain, 3, &to_four, 1, 3), vec![(1, 3)]);
}

#[test]
fn traversal_expands_the_closest_candidate_first() {
    // from 0, node 2 is closer to the goal than node 1 and is expanded
    // first; with three expansions node 3 behind node 1 is never reached
    let fork = layer(&[&[1, 2], &[0, 3], &[0, 4], &[1], &[2]]);
    let d = |i: usize| [10u64, 8, 5, 1, 4][i];
    assert_eq!(search_for_neighbors(&fork, 0, &d, 3, 5), vec![(4, 4), (5, 2), (10, 0)]);
    assert_eq!(search_for_neighbors(&fork, 0, &d, 4, 5), vec![(4, 4), (5, 2), (8, 1), (10, 0)]);
    assert_eq!(search_for_neighbors(&fork, 0, &d, 5, 2), vec![(1, 3), (4, 4)]);
}

#[test]
fn traversal_visits_each_node_once() {
    let dense = layer(&[&[1, 2, 1, 2], &[0, 2, 2], &[0, 1, 0]]);
    let d = |i: usize| i as u64;
    assert_eq!(search_for_neighbors(&dense, 2, &d, 100, 100), vec![(0, 0), (1, 1), (2, 2)]);
}

#[test]
fn traversal_stays_within_the_entry_points_component() {
    let split = layer(&[&[1], &[0], &[3], &[2]]);
    let d = |i: usize| [5u64, 6, 0, 1][i];
    assert_eq!(search_for_neighbors(&split, 0, &d, 100, 4), vec![(5, 0), (6, 1)]);
    assert_eq!(search_for_neighbors(&split, 3, &d, 100, 4), vec![(0, 2), (1, 3)]);
}

#[test]
fn descent_through_no_layer_starts_at_node_zero() {
    let layers = vec![layer(&[&[]]), layer(&[&[1], &[0]])];
    let d = |i: usize| [7u64, 3][i];
    assert_eq!(find_entrypoint(&layers, 0, &d, 10), 0);
    assert_eq!(find_entrypoint(&layers, 1, &d, 10), 0);
    assert_eq!(find_entrypoint(&layers, 2, &d, 10), 1);
}

#[test]
fn descent_follows_the_closest_node_of_each_layer() {
    let layers = vec![
        layer(&[&[]]),
        layer(&[&[1], &[0]]),
        layer(&[&[2], &[3], &[0], &[1]]),
    ];
    let near_three = |i: usize| [9u64, 4, 8, 1][i];
    assert_eq!(find_entrypoint(&layers, 2, &near_three, 10), 1);
    assert_eq!(find_entrypoint(&layers, 3, &near_three, 10), 3);
    let near_two = |i: usize| [4u64, 9, 1, 8][i];
    assert_eq!(find_entrypoint(&layers, 2, &near_two, 10), 0);
    assert_eq!(find_entrypoint(&layers, 3, &near_two, 10), 2);
    // with a single expansion only the entry point itself is seen
    assert_eq!(find_entrypoint(&layers, 3, &near_three, 1), 0);
}

#[test]
fn insertion_links_both_ways() {
    let layers = vec![layer(&[&[]])];
    let mut below = layer(&[&[], &[], &[]]);
    insert_element(&layers, &mut below, &gap, 1, 10);
    assert_eq!(rows(&below), vec![vec![1], vec![0], vec![]]);
    insert_element(&layers, &mut below, &gap, 2, 10);
    // element 2 meets 1 at distance 1 before 0 at distance 2
    assert_eq!(rows(&below), vec![vec![1, 2], vec![0, 2], vec![1, 0]]);
}

#[test]
fn layer_is_built_from_the_one_above() {
    let layers = vec![layer(&[&[]]), layer(&[&[1], &[0]])];
    let built = build_layer(&layers, &gap, 4, 10);
    assert_eq!(
        rows(&built),
        vec![vec![1, 2, 3], vec![0, 2, 3], vec![1, 0, 3], vec![2, 1, 0]]
    );
    // nothing to insert: the layer above, copied
    let same = build_layer(&layers, &gap, 2, 10);
    assert_eq!(rows(&same), vec![vec![1], vec![0]]);
}

#[test]
fn exhaustive_traversal_returns_the_closest_reachable_nodes() {
    let n = 60usize;
    let mut x: u64 = 2024;
    let mut next = |m: usize| {
        x = x.wrapping_mul(6364136223846793005).wrapping_add(1442695040888963407);
        ((x >> 33) as usize) % m
    };
    let mut links: Vec<Vec<usize>> = Vec::new();
    for _ in 0..n {
        let count = next(3);
        let mut out = Vec::new();
        for _ in 0..count {
            out.push(next(n));
        }
        links.push(out);
    }
    let dists: Vec<u64> = (0..n).map(|_| next(1000) as u64).collect();
    let graph: Vec<HnswNode> = links.iter().map(|l| node(l)).collect();
    let d = |i: usize| dists[i];
    for entry in [0usize, 7, 31, 59] {
        let mut seen = vec![false; n];
        let mut stack = vec![entry];
        seen[entry] = true;
        while let Some(u) = stack.pop() {
            for &v in &links[u] {
                if !seen[v] {
                    seen[v] = true;
                    stack.push(v);
                }
            }
        }
        let mut reachable: Vec<(u64, usize)> =
            (0..n).filter(|&v| seen[v]).map(|v| (dists[v], v)).collect();
        reachable.sort();
        for k in [0usize, 1, 3, 10, 100] {
            let mut expected = reachable.clone();
            expected.truncate(k);
            assert_eq!(search_for_neighbors(&graph, entry, &d, n, k), expected);
            assert_eq!(search_for_neighbors(&graph, entry, &d, usize::MAX, k), expected);
        }
    }
}

fn drive(
    rows: &[Vec<usize>],
    entry: usize,
    d: &dyn Fn(usize) -> u64,
    max_search: usize,
    max_neighbors: usize,
) -> (Vec<usize>, Vec<(u64, usize)>) {
    let mut walk = Traversal::begin(entry, d(entry), max_search, max_neighbors);
    let mut order = Vec::new();
    while let Some(at) = walk.next() {
        order.push(at);
        for &n in &rows[at] {
            if walk.discover(n) {
                walk.push(n, d(n));
            }
        }
    }
    (order, walk.finish())
}

#[test]
fn stepwise_traversal_expands_closest_first() {
    let links = vec![vec![1, 2], vec![0, 3], vec![0, 4], vec![1], vec![2]];
    let d = |i: usize| [10u64, 8, 5, 1, 4][i];
    let (order, found) = drive(&links, 0, &d, 10, 5);
    assert_eq!(order, vec![0, 2, 4, 1, 3]);
    assert_eq!(found, vec![(1, 3), (4, 4), (5, 2), (8, 1), (10, 0)]);
    let (order, found) = drive(&links, 0, &d, 3, 2);
    assert_eq!(order, vec![0, 2, 4]);
    assert_eq!(found, vec![(4, 4), (5, 2)]);
    let (order, found) = drive(&links, 0, &d, 0, 2);
    assert_eq!(order, Vec::<usize>::new());
    assert_eq!(found, Vec::<(u64, usize)>::new());
}

#[test]
fn stepwise_traversal_agrees_with_the_whole_one() {
    let links = vec![vec![1], vec![0, 2], vec![1, 3, 5], vec![2, 4], vec![3], vec![2, 0]];
    let graph: Vec<HnswNode> = links.iter().map(|l| node(l)).collect();
    let d = |i: usize| [7u64, 3, 9, 2, 8, 2][i];
    for entry in 0..links.len() {
        for max_search in [0usize, 1, 2, 3, 6, 10] {
            for k in [0usize, 1, 2, 6] {
                let (_, found) = drive(&links, entry, &d, max_search, k);
                assert_eq!(found, search_for_neighbors(&graph, entry, &d, max_search, k));
            }
        }
    }
}

#[test]
fn stepwise_traversal_marks_each_node_once() {
    let mut walk = Traversal::begin(4, 9, 5, 5);
    assert!(!walk.discover(4));
    assert!(walk.discover(7));
    assert!(!walk.discover(7));
    walk.push(7, 1);
    assert_eq!(walk.next(), Some(7));
    assert_eq!(walk.next(), Some(4));
    assert_eq!(walk.next(), None);
    assert_eq!(walk.finish(), vec![(1, 7), (9, 4)]);
}

#[test]
fn node_knows_its_neighbours() {
    let n = node(&[4, 8, 15]);
    assert!(n.contains(4));
    assert!(n.contains(15));
    assert!(!n.contains(16));
    assert!(!HnswNode::new().contains(0));
}

#[test]
fn level_sizes_are_capped_powers() {
    let sizes: Vec<usize> = (0..6).map(|k| size_of_level(30, 3, k)).collect();
    assert_eq!(sizes, vec![1, 3, 9, 27, 30, 30]);
    assert_eq!(size_of_level(0, 12, 0), 0);
    assert_eq!(size_of_level(0, 12, 3), 0);
    assert_eq!(size_of_level(1000, 1, 10), 1);
    assert_eq!(size_of_level(100_000, 12, 4), 20736);
    assert_eq!(size_of_level(usize::MAX, usize::MAX, 1), usize::MAX);
    assert_eq!(size_of_level(usize::MAX, usize::MAX, 5), usize::MAX);
    assert_eq!(size_of_level(usize::MAX, 1 << 40, 2), usize::MAX);
}
