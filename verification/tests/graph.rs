use hnsw::builder::{size_of_level, Config, HnswBuilder, LEVELS, LEVEL_MULTIPLIER, MAX_INDEX_SEARCH};
use hnsw::error::Error;
use hnsw::index::Hnsw;
use hnsw::link::connect_nodes;
use hnsw::node::{HnswNode, MAX_NEIGHBORS};
use hnsw::traversal::{find_entrypoint, Traversal};
use rayon::iter::{IntoParallelIterator, ParallelIterator};
use std::sync::RwLock;

const SCALE: f64 = 4294967296.0;

fn euclid(a: &[f32; 3], b: &[f32; 3]) -> f32 {
    let mut sum = 0.0f32;
    for c in 0..3 {
        let d = a[c] - b[c];
        sum += d * d;
    }
    sum.sqrt()
}

fn key(d: f32) -> u64 {
    (d as f64 * SCALE).round() as u64
}

fn unkey(k: u64) -> f64 {
    k as f64 / SCALE
}

fn four_vectors() -> Vec<[f32; 3]> {
    let h = 1.0f32 / 2.0f32.sqrt();
    vec![[1.0, 0.0, 0.0], [0.0, 1.0, 0.0], [0.0, 0.0, 1.0], [h, h, 0.0]]
}

fn small_config() -> Config {
    Config { num_levels: 3, level_multiplier: 2, max_search: 50 }
}

fn random_unit_vectors(n: usize, seed: u64) -> Vec<[f32; 3]> {
    let mut x = seed;
    let mut out = Vec::with_capacity(n);
    while out.len() < n {
        let mut v = [0.0f32; 3];
        for c in 0..3 {
            x = x.wrapping_mul(6364136223846793005).wrapping_add(1442695040888963407);
            v[c] = ((x >> 11) as f64 / (1u64 << 53) as f64 * 2.0 - 1.0) as f32;
        }
        let norm = (v[0] * v[0] + v[1] * v[1] + v[2] * v[2]).sqrt();
        if norm > 0.1 && norm <= 1.0 {
            out.push([v[0] / norm, v[1] / norm, v[2] / norm]);
        }
    }
    out
}

fn build(elements: &[[f32; 3]], config: Config) -> HnswBuilder {
    let mut builder = HnswBuilder::with_config(elements.len(), config);
    let dist = |i: usize, j: usize| key(euclid(&elements[i], &elements[j]));
    assert_eq!(builder.build_index(&dist), Ok(()));
    builder
}

fn query(index: &Hnsw, elements: &[[f32; 3]], goal: &[f32; 3], k: usize, max_search: usize) -> Vec<(usize, u64)> {
    index.search(&|i: usize| key(euclid(&elements[i], goal)), k, max_search)
}

fn brute_force(elements: &[[f32; 3]], goal: &[f32; 3]) -> (u64, usize) {
    let mut best = (u64::MAX, usize::MAX);
    for (i, e) in elements.iter().enumerate() {
        let c = (key(euclid(e, goal)), i);
        if c < best {
            best = c;
        }
    }
    best
}

fn assert_structure(builder: &HnswBuilder, n: usize, multiplier: usize) {
    let mut expected = 1usize;
    for k in 0..builder.num_levels() {
        let size = builder.level_len(k);
        assert_eq!(size, expected.min(n));
        expected = expected.saturating_mul(multiplier);
        for i in 0..size {
            let nbrs = builder.neighbors(k, i);
            assert!(nbrs.len() <= MAX_NEIGHBORS);
            assert!(size < 2 || !nbrs.is_empty());
            for (q, &j) in nbrs.iter().enumerate() {
                assert!(j < size);
                assert_ne!(j, i);
                assert!(!nbrs[..q].contains(&j));
            }
            if k > 0 && i < builder.level_len(k - 1) {
                let above = builder.neighbors(k - 1, i);
                assert!(above.len() <= nbrs.len());
                if nbrs.len() < MAX_NEIGHBORS {
                    assert_eq!(&nbrs[..above.len()], &above[..]);
                    for j in &above {
                        assert!(nbrs.contains(j));
                    }
                }
            }
        }
    }
}

#[test]
fn test_hnsw() {
    let elements = four_vectors();
    let builder = build(&elements, Config::default());
    assert_eq!(builder.num_levels(), LEVELS);
    assert!(builder.is_built());
}

#[test]
fn default_configuration() {
    let config = Config::default();
    assert_eq!(config.num_levels, 5);
    assert_eq!(config.level_multiplier, 12);
    assert_eq!(config.max_search, 500);
    assert_eq!(LEVELS, 5);
    assert_eq!(LEVEL_MULTIPLIER, 12);
    assert_eq!(MAX_INDEX_SEARCH, 500);
    assert_eq!(MAX_NEIGHBORS, 20);
    assert_eq!(hnsw::index::MAX_SEARCH, 800);
    let builder = HnswBuilder::new(7);
    assert_eq!(builder.len(), 7);
    assert!(!builder.is_built());
    assert_eq!(builder.num_levels(), 0);
}

#[test]
fn four_vectors_nearest_two() {
    let elements = four_vectors();
    let builder = build(&elements, small_config());
    let index = builder.get_index().unwrap();
    let found = query(&index, &elements, &elements[0], 2, 50);
    assert_eq!(found.len(), 2);
    assert_eq!(found[0], (0, 0));
    assert_eq!(found[1].0, 3);
    let expected = (2.0f64 - 2.0f64.sqrt()).sqrt();
    assert!((unkey(found[1].1) - expected).abs() < 1e-6);
    assert_eq!(found[1].1, key(euclid(&elements[3], &elements[0])));
}

#[test]
fn four_vectors_graph_is_exact() {
    let elements = four_vectors();
    let builder = build(&elements, small_config());
    assert_eq!(builder.num_levels(), 3);
    assert_eq!(builder.level_len(0), 1);
    assert_eq!(builder.level_len(1), 2);
    assert_eq!(builder.level_len(2), 4);
    assert_eq!(builder.neighbors(0, 0), Vec::<usize>::new());
    assert_eq!(builder.neighbors(1, 0), vec![1]);
    assert_eq!(builder.neighbors(1, 1), vec![0]);
    // element 2 is equally far from 0 and 1 and meets them in index order;
    // element 3 meets 0 and 1 at equal distance first, then 2, and each of
    // them takes 3 in return
    assert_eq!(builder.neighbors(2, 2), vec![0, 1, 3]);
    assert_eq!(builder.neighbors(2, 3), vec![0, 1, 2]);
    assert_eq!(builder.neighbors(2, 0), vec![1, 2, 3]);
    assert_eq!(builder.neighbors(2, 1), vec![0, 2, 3]);
    assert_structure(&builder, 4, 2);
}

#[test]
fn four_vectors_after_save_and_load() {
    let elements = four_vectors();
    let builder = build(&elements, small_config());
    let direct = query(&builder.get_index().unwrap(), &elements, &elements[0], 2, 50);
    let mut bytes = Vec::new();
    assert_eq!(builder.write(&mut bytes), Ok(()));
    let loaded = Hnsw::load(&bytes, elements.len()).unwrap();
    assert!(loaded.is_searchable());
    let found = query(&loaded, &elements, &elements[0], 2, 50);
    assert_eq!(found, direct);
    assert_eq!(found[0], (0, 0));
    assert_eq!(found[1].0, 3);
}

#[test]
fn thousand_vectors_recall() {
    let elements = random_unit_vectors(1000, 42);
    let builder = build(&elements, Config { num_levels: 5, level_multiplier: 12, max_search: 60 });
    assert_structure(&builder, 1000, 12);
    let index = builder.get_index().unwrap();
    let queries = random_unit_vectors(50, 4242);
    let mut agree = 0;
    for q in &queries {
        let found = query(&index, &elements, q, 1, 800);
        assert_eq!(found.len(), 1);
        let best = brute_force(&elements, q);
        if found[0] == (best.1, best.0) {
            agree += 1;
        }
    }
    assert!(agree >= 45, "only {} of 50 queries agree with exact search", agree);
}

#[test]
fn thousand_vectors_find_themselves() {
    let elements = random_unit_vectors(1000, 7);
    let builder = build(&elements, Config { num_levels: 5, level_multiplier: 12, max_search: 60 });
    let index = builder.get_index().unwrap();
    let mut hits = 0;
    for i in 0..200 {
        let found = query(&index, &elements, &elements[i * 5], 1, 800);
        if found[0].0 == i * 5 {
            hits += 1;
        }
    }
    assert!(hits >= 190, "only {} of 200 elements found themselves", hits);
}

#[test]
fn doubled_vectors_return_both_copies() {
    let mut elements = four_vectors();
    elements.extend(four_vectors());
    // four layers, so that the bottom one has room for all eight
    let builder = build(&elements, Config { num_levels: 4, level_multiplier: 2, max_search: 50 });
    assert_eq!(builder.level_len(3), 8);
    assert_structure(&builder, 8, 2);
    let index = builder.get_index().unwrap();
    let found = query(&index, &elements, &elements[0], 2, 50);
    assert_eq!(found, vec![(0, 0), (4, 0)]);
}

#[test]
fn concurrent_queries_agree_with_baseline() {
    let elements = random_unit_vectors(200, 99);
    let builder = build(&elements, Config { num_levels: 4, level_multiplier: 6, max_search: 40 });
    let index = builder.get_index().unwrap();
    let queries = random_unit_vectors(100, 1234);
    let baseline: Vec<Vec<(usize, u64)>> =
        queries.iter().map(|q| query(&index, &elements, q, 5, 50)).collect();
    let agreeing: Vec<bool> = (0..4usize)
        .into_par_iter()
        .map(|t| {
            let mut same = true;
            for round in 0..10_000usize {
                let at = (round * 7 + t) % queries.len();
                let found = query(&index, &elements, &queries[at], 5, 50);
                same = same && found == baseline[at];
            }
            same
        })
        .collect();
    assert_eq!(agreeing, vec![true; 4]);
}

#[test]
fn single_element_graph() {
    let elements = vec![[0.0f32, 1.0, 0.0]];
    let builder = build(&elements, Config::default());
    assert_eq!(builder.num_levels(), 5);
    for k in 0..5 {
        assert_eq!(builder.level_len(k), 1);
        assert_eq!(builder.neighbors(k, 0), Vec::<usize>::new());
    }
    let index = builder.get_index().unwrap();
    let goal = [1.0f32, 0.0, 0.0];
    let found = query(&index, &elements, &goal, 1, 10);
    assert_eq!(found, vec![(0, key(euclid(&elements[0], &goal)))]);
    assert_eq!(found[0].1, key(2.0f32.sqrt()));
}

#[test]
fn corpus_smaller_than_multiplier() {
    let elements = random_unit_vectors(5, 3);
    let builder = build(&elements, Config::default());
    assert_eq!(builder.level_len(0), 1);
    for k in 1..5 {
        assert_eq!(builder.level_len(k), 5);
    }
    assert_structure(&builder, 5, 12);
}

#[test]
fn layer_sizes_follow_powers_of_multiplier() {
    let elements = random_unit_vectors(30, 5);
    let builder = build(&elements, Config { num_levels: 6, level_multiplier: 3, max_search: 30 });
    let sizes: Vec<usize> = (0..6).map(|k| builder.level_len(k)).collect();
    assert_eq!(sizes, vec![1, 3, 9, 27, 30, 30]);
    assert_structure(&builder, 30, 3);
}

#[test]
fn asking_for_more_than_there_is() {
    let elements = four_vectors();
    let builder = build(&elements, small_config());
    let index = builder.get_index().unwrap();
    let all = query(&index, &elements, &elements[1], usize::MAX, usize::MAX);
    assert_eq!(all.len(), 4);
    let found = query(&index, &elements, &elements[1], 10, 50);
    assert_eq!(found, all);
    assert_eq!(found.len(), 4);
    assert_eq!(found[0], (1, 0));
    let mut seen: Vec<usize> = found.iter().map(|r| r.0).collect();
    seen.sort();
    assert_eq!(seen, vec![0, 1, 2, 3]);
    for w in found.windows(2) {
        assert!(w[0].1 <= w[1].1);
    }
}

#[test]
fn search_bound_below_result_count() {
    let elements = random_unit_vectors(40, 11);
    let builder = build(&elements, Config { num_levels: 3, level_multiplier: 8, max_search: 30 });
    let index = builder.get_index().unwrap();
    let found = query(&index, &elements, &elements[17], 5, 3);
    assert!(found.len() <= 3);
    assert!(!found.is_empty());
    let none = query(&index, &elements, &elements[17], 5, 0);
    assert!(none.is_empty());
    let zero = query(&index, &elements, &elements[17], 0, 10);
    assert!(zero.is_empty());
}

#[test]
fn full_nodes_replace_their_farthest_neighbour() {
    // points on a line, one unit apart; every node fills up
    let n = 60usize;
    let mut builder = HnswBuilder::with_config(n, Config { num_levels: 2, level_multiplier: 100, max_search: 100 });
    let dist = |i: usize, j: usize| (if i > j { i - j } else { j - i }) as u64;
    assert_eq!(builder.build_index(&dist), Ok(()));
    assert_eq!(builder.level_len(1), n);
    let mut full = 0;
    for i in 0..n {
        let nbrs = builder.neighbors(1, i);
        assert!(!nbrs.is_empty());
        assert!(nbrs.len() <= MAX_NEIGHBORS);
        for (q, &j) in nbrs.iter().enumerate() {
            assert!(j < n && j != i);
            assert!(!nbrs[..q].contains(&j));
        }
        if nbrs.len() == MAX_NEIGHBORS {
            full += 1;
        }
    }
    assert!(full > 0);
    // node 0 is among the twenty closest of nodes 1 to 20 only
    assert_eq!(builder.neighbors(1, 0), (1..=20).collect::<Vec<usize>>());
    // node 20 was full with 19 down to 0 when 21 arrived at distance 1 and
    // took the place of node 0, the farthest, in the last slot; 22 then
    // took the place of node 1
    let twentieth = builder.neighbors(1, 20);
    assert_eq!(twentieth.len(), MAX_NEIGHBORS);
    assert_eq!(twentieth[0], 19);
    assert_eq!(twentieth[19], 21);
    assert_eq!(twentieth[18], 22);
    assert!(!twentieth.contains(&1));
    assert!(!twentieth.contains(&0));
    assert!(twentieth.contains(&19));
}

#[test]
fn bottom_layer_holds_no_more_than_the_last_power() {
    let elements = random_unit_vectors(8, 21);
    let builder = build(&elements, small_config());
    assert_eq!(builder.level_len(2), 4);
    let index = builder.get_index().unwrap();
    let found = query(&index, &elements, &elements[6], 8, 50);
    assert_eq!(found.len(), 4);
    assert!(found.iter().all(|r| r.0 < 4));
}

#[test]
fn full_node_may_lose_an_inherited_neighbour() {
    // points on a line; node 20 is full in the middle layer already
    let n = 60usize;
    let config = Config { num_levels: 3, level_multiplier: 30, max_search: 100 };
    let mut builder = HnswBuilder::with_config(n, config);
    let dist = |i: usize, j: usize| (if i > j { i - j } else { j - i }) as u64;
    assert_eq!(builder.build_index(&dist), Ok(()));
    assert_eq!(builder.level_len(1), 30);
    assert_eq!(builder.level_len(2), 60);
    let above = builder.neighbors(1, 20);
    let below = builder.neighbors(2, 20);
    assert_eq!(above.len(), MAX_NEIGHBORS);
    assert_eq!(below.len(), MAX_NEIGHBORS);
    assert!(above.iter().any(|j| !below.contains(j)));
    // a node with room keeps what it had, in place
    for i in 0..30 {
        let above = builder.neighbors(1, i);
        let below = builder.neighbors(2, i);
        if below.len() < MAX_NEIGHBORS {
            assert_eq!(&below[..above.len()], &above[..]);
        }
    }
}

#[test]
fn full_node_refuses_a_candidate_at_twice_the_farthest() {
    // elements 0..=20 are ten apart from each other; 21 is twenty from
    // element 0 and 22 is nineteen from it; both are thirty from the rest
    let dist = |i: usize, j: usize| -> u64 {
        let (a, b) = if i < j { (i, j) } else { (j, i) };
        if a == b {
            0
        } else if b <= 20 {
            10
        } else if a == 0 && b == 21 {
            20
        } else if a == 0 && b == 22 {
            19
        } else {
            30
        }
    };
    let config = Config { num_levels: 2, level_multiplier: 100, max_search: 100 };
    let mut builder = HnswBuilder::with_config(22, config);
    assert_eq!(builder.build_index(&dist), Ok(()));
    // node 0 is full with 1..=20, all at distance 10; 21 at distance 20 is
    // not less than twice as far and stays out
    assert_eq!(builder.neighbors(1, 0), (1..=20).collect::<Vec<usize>>());
    // 21 itself took its twenty closest as neighbours
    assert_eq!(builder.neighbors(1, 21), (0..20).collect::<Vec<usize>>());
    for i in 1..20 {
        assert!(!builder.neighbors(1, i).contains(&21));
    }

    let mut builder = HnswBuilder::with_config(23, config);
    assert_eq!(builder.build_index(&dist), Ok(()));
    // 22 at distance 19 is less than twice as far: it takes the place of
    // the farthest neighbour, the last of the equally far ones
    let mut expected: Vec<usize> = (1..=19).collect();
    expected.push(22);
    assert_eq!(builder.neighbors(1, 0), expected);
    assert_eq!(builder.neighbors(1, 22), (0..20).collect::<Vec<usize>>());
    assert_eq!(builder.neighbors(1, 20), (0..20).collect::<Vec<usize>>());
}

#[test]
fn build_twice_is_refused() {
    let elements = four_vectors();
    let mut builder = HnswBuilder::with_config(elements.len(), small_config());
    let dist = |i: usize, j: usize| key(euclid(&elements[i], &elements[j]));
    assert_eq!(builder.build_index(&dist), Ok(()));
    let before: Vec<Vec<usize>> = (0..4).map(|i| builder.neighbors(2, i)).collect();
    assert_eq!(builder.build_index(&dist), Err(Error::AlreadyBuilt));
    assert_eq!(builder.num_levels(), 3);
    let after: Vec<Vec<usize>> = (0..4).map(|i| builder.neighbors(2, i)).collect();
    assert_eq!(before, after);
}

#[test]
fn build_without_elements_is_refused() {
    let mut builder = HnswBuilder::new(0);
    let dist = |_: usize, _: usize| 0u64;
    assert_eq!(builder.build_index(&dist), Err(Error::NoElements));
    assert!(!builder.is_built());
}

#[test]
fn build_with_bad_configuration_is_refused() {
    let dist = |_: usize, _: usize| 0u64;
    for config in [
        Config { num_levels: 0, level_multiplier: 12, max_search: 500 },
        Config { num_levels: 5, level_multiplier: 0, max_search: 500 },
        Config { num_levels: 5, level_multiplier: 12, max_search: 0 },
        Config { num_levels: usize::MAX, level_multiplier: 12, max_search: 500 },
    ] {
        let mut builder = HnswBuilder::with_config(3, config);
        assert_eq!(builder.build_index(&dist), Err(Error::InvalidConfig));
        assert!(!builder.is_built());
    }
}

#[test]
fn unbuilt_builder_has_nothing_to_save_or_query() {
    let builder = HnswBuilder::new(4);
    let mut bytes = vec![1u8, 2, 3];
    assert_eq!(builder.write(&mut bytes), Err(Error::NotBuilt));
    assert_eq!(bytes, vec![1u8, 2, 3]);
    assert!(matches!(builder.get_index(), Err(Error::NotBuilt)));
}

fn insert_behind_locks(
    layers: &Vec<Vec<HnswNode>>,
    layer: &[RwLock<HnswNode>],
    elements: &[[f32; 3]],
    idx: usize,
    max_search: usize,
) {
    let to_goal = |i: usize| key(euclid(&elements[i], &elements[idx]));
    let between = |i: usize, j: usize| key(euclid(&elements[i], &elements[j]));
    let entry = find_entrypoint(layers, layers.len(), &to_goal, max_search);
    let mut walk = Traversal::begin(entry, to_goal(entry), max_search, MAX_NEIGHBORS);
    while let Some(at) = walk.next() {
        let neighbors = layer[at].read().unwrap().neighbors();
        for n in neighbors {
            if walk.discover(n) {
                walk.push(n, to_goal(n));
            }
        }
    }
    for (_, n) in walk.finish() {
        if n != idx {
            for (own, other) in [(idx, n), (n, idx)] {
                let mut node = layer[own].write().unwrap();
                if !node.contains(other) {
                    connect_nodes(&mut node, &between, own, other);
                }
            }
        }
    }
}

#[test]
fn layers_built_by_many_threads_are_sound() {
    let elements = random_unit_vectors(400, 77);
    let n = elements.len();
    let mut layers = vec![vec![HnswNode::new()]];
    for level in 1..4 {
        let size = size_of_level(n, 8, level);
        let above = &layers[layers.len() - 1];
        let layer: Vec<RwLock<HnswNode>> = (0..size)
            .map(|i| RwLock::new(if i < above.len() { above[i].clone() } else { HnswNode::new() }))
            .collect();
        (above.len()..size)
            .into_par_iter()
            .for_each(|idx| insert_behind_locks(&layers, &layer, &elements, idx, 60));
        let built: Vec<HnswNode> = layer.into_iter().map(|l| l.into_inner().unwrap()).collect();
        layers.push(built);
    }
    let sizes: Vec<usize> = layers.iter().map(|l| l.len()).collect();
    assert_eq!(sizes, vec![1, 8, 64, 400]);
    for layer in &layers[1..] {
        for (i, node) in layer.iter().enumerate() {
            let nbrs = node.neighbors();
            assert!(!nbrs.is_empty() && nbrs.len() <= MAX_NEIGHBORS);
            for (q, &j) in nbrs.iter().enumerate() {
                assert!(j < layer.len() && j != i);
                assert!(!nbrs[..q].contains(&j));
            }
        }
    }
    let index = Hnsw::from_layers(layers, n);
    assert!(index.is_searchable());
    let queries = random_unit_vectors(50, 78);
    let mut agree = 0;
    for q in &queries {
        let found = query(&index, &elements, q, 1, 400);
        let best = brute_force(&elements, q);
        if found[0] == (best.1, best.0) {
            agree += 1;
        }
    }
    assert!(agree >= 45, "only {} of 50 queries agree with exact search", agree);
}
