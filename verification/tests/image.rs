use hnsw::builder::{Config, HnswBuilder};
use hnsw::codec::{NODE_BYTES, NODE_WORDS, WORD_BYTES};
use hnsw::error::Error;
use hnsw::index::Hnsw;
use hnsw::node::{HnswNode, MAX_NEIGHBORS};

fn words(ws: &[u64]) -> Vec<u8> {
    let mut out = Vec::new();
    for w in ws {
        out.extend_from_slice(&w.to_le_bytes());
    }
    out
}

fn record(nbrs: &[u64]) -> Vec<u64> {
    let mut out = vec![nbrs.len() as u64];
    out.extend_from_slice(nbrs);
    out.resize(NODE_WORDS, 0);
    out
}

fn encode(levels: &[Vec<Vec<u64>>]) -> Vec<u8> {
    let total: usize = levels.iter().map(|l| l.len()).sum();
    let mut ws = vec![total as u64, levels.len() as u64];
    for l in levels {
        ws.push(l.len() as u64);
    }
    for l in levels {
        for n in l {
            ws.extend(record(n));
        }
    }
    words(&ws)
}

fn line(i: usize, j: usize) -> u64 {
    (if i > j { i - j } else { j - i }) as u64
}

fn chain() -> Vec<Vec<Vec<u64>>> {
    vec![vec![vec![]], vec![vec![1], vec![0, 2], vec![1, 3], vec![2, 4], vec![3]]]
}

#[test]
fn record_sizes() {
    assert_eq!(WORD_BYTES, 8);
    assert_eq!(NODE_WORDS, MAX_NEIGHBORS + 1);
    assert_eq!(NODE_BYTES, NODE_WORDS * WORD_BYTES);
    assert_eq!(NODE_BYTES, 168);
}

#[test]
fn image_of_a_single_node() {
    let mut builder = HnswBuilder::with_config(1, Config { num_levels: 1, level_multiplier: 12, max_search: 10 });
    assert_eq!(builder.build_index(&line), Ok(()));
    let mut bytes = Vec::new();
    assert_eq!(builder.write(&mut bytes), Ok(()));
    assert_eq!(bytes.len(), 8 * 3 + 168);
    let mut expected = vec![0u8; 8 * 3 + 168];
    expected[0] = 1;
    expected[8] = 1;
    expected[16] = 1;
    assert_eq!(bytes, expected);
}

#[test]
fn image_of_two_linked_nodes() {
    let mut builder = HnswBuilder::with_config(2, Config { num_levels: 2, level_multiplier: 2, max_search: 10 });
    assert_eq!(builder.build_index(&line), Ok(()));
    let mut bytes = vec![0xAAu8];
    assert_eq!(builder.write(&mut bytes), Ok(()));
    let mut expected = vec![0xAAu8];
    expected.extend(encode(&[vec![vec![]], vec![vec![1], vec![0]]]));
    assert_eq!(bytes.len(), 1 + 8 * 4 + 3 * 168);
    assert_eq!(bytes, expected);
    // the second record of the bottom layer: one neighbour, node 0
    let at = 1 + 8 * 4 + 2 * 168;
    assert_eq!(&bytes[at..at + 8], &[1u8, 0, 0, 0, 0, 0, 0, 0]);
    // the first record of the bottom layer: one neighbour, node 1
    let at = 1 + 8 * 4 + 168;
    assert_eq!(&bytes[at..at + 16], &[1u8, 0, 0, 0, 0, 0, 0, 0, 1, 0, 0, 0, 0, 0, 0, 0]);
}

#[test]
fn loading_reads_back_every_node() {
    let bytes = encode(&chain());
    let index = Hnsw::load(&bytes, 5).unwrap();
    assert_eq!(index.num_levels(), 2);
    assert_eq!(index.level_len(0), 1);
    assert_eq!(index.level_len(1), 5);
    assert_eq!(index.neighbors(0, 0), Vec::<usize>::new());
    assert_eq!(index.neighbors(1, 0), vec![1]);
    assert_eq!(index.neighbors(1, 1), vec![0, 2]);
    assert_eq!(index.neighbors(1, 2), vec![1, 3]);
    assert_eq!(index.neighbors(1, 3), vec![2, 4]);
    assert_eq!(index.neighbors(1, 4), vec![3]);
    assert!(index.is_searchable());
}

#[test]
fn loaded_layers_equal_the_builders() {
    let n = 50usize;
    let mut builder = HnswBuilder::with_config(n, Config { num_levels: 4, level_multiplier: 4, max_search: 30 });
    let dist = |i: usize, j: usize| {
        let (a, b) = ((i * 37) % 101, (j * 37) % 101);
        (if a > b { a - b } else { b - a }) as u64
    };
    assert_eq!(builder.build_index(&dist), Ok(()));
    let mut bytes = Vec::new();
    assert_eq!(builder.write(&mut bytes), Ok(()));
    let index = Hnsw::load(&bytes, n).unwrap();
    assert_eq!(index.num_levels(), builder.num_levels());
    for k in 0..builder.num_levels() {
        assert_eq!(index.level_len(k), builder.level_len(k));
        for i in 0..builder.level_len(k) {
            assert_eq!(index.neighbors(k, i), builder.neighbors(k, i));
        }
    }
    let own = builder.get_index().unwrap();
    for goal in 0..n {
        let to_goal = |i: usize| dist(i, goal);
        assert_eq!(index.search(&to_goal, 4, 25), own.search(&to_goal, 4, 25));
    }
}

#[test]
fn trailing_bytes_are_ignored() {
    let mut bytes = encode(&chain());
    bytes.extend_from_slice(&[9, 9, 9]);
    let index = Hnsw::load(&bytes, 5).unwrap();
    assert_eq!(index.neighbors(1, 3), vec![2, 4]);
}

#[test]
fn truncated_image_is_refused() {
    let mut builder = HnswBuilder::with_config(6, Config { num_levels: 3, level_multiplier: 2, max_search: 20 });
    assert_eq!(builder.build_index(&line), Ok(()));
    let mut bytes = Vec::new();
    assert_eq!(builder.write(&mut bytes), Ok(()));
    assert!(Hnsw::load(&bytes, 6).is_ok());
    bytes.pop();
    assert!(matches!(Hnsw::load(&bytes, 6), Err(Error::LoadFormat)));
}

#[test]
fn short_buffers_are_refused() {
    assert!(matches!(Hnsw::load(&[], 5), Err(Error::LoadFormat)));
    assert!(matches!(Hnsw::load(&[0u8; 15], 5), Err(Error::LoadFormat)));
    // a header that announces a layer whose size word is missing
    assert!(matches!(Hnsw::load(&words(&[0, 1]), 5), Err(Error::LoadFormat)));
    // a header without layers
    assert!(matches!(Hnsw::load(&words(&[0, 0]), 5), Err(Error::LoadFormat)));
    // a layer count beyond anything the buffer could hold
    assert!(matches!(Hnsw::load(&words(&[0, u64::MAX, 0]), 5), Err(Error::LoadFormat)));
    assert!(matches!(Hnsw::load(&words(&[u64::MAX, 1, 1]), 5), Err(Error::LoadFormat)));
}

#[test]
fn inconsistent_counts_are_refused() {
    let good = encode(&chain());
    assert!(Hnsw::load(&good, 5).is_ok());
    // node count one too many
    let mut bytes = good.clone();
    bytes[0] = 7;
    bytes.extend(words(&record(&[])));
    assert!(matches!(Hnsw::load(&bytes, 5), Err(Error::LoadFormat)));
    // node count one too few
    let mut bytes = good.clone();
    bytes[0] = 5;
    assert!(matches!(Hnsw::load(&bytes, 5), Err(Error::LoadFormat)));
    // a layer size larger than the node count
    let mut bytes = good.clone();
    bytes[16] = 200;
    assert!(matches!(Hnsw::load(&bytes, 5), Err(Error::LoadFormat)));
}

#[test]
fn bottom_layer_larger_than_corpus_is_refused() {
    let bytes = encode(&chain());
    assert!(matches!(Hnsw::load(&bytes, 4), Err(Error::LoadFormat)));
    assert!(Hnsw::load(&bytes, 5).is_ok());
    assert!(Hnsw::load(&bytes, 6).is_ok());
}

#[test]
fn oversized_node_record_is_refused() {
    let mut bytes = encode(&chain());
    let at = 8 * 4 + 168 * 2;
    bytes[at] = 21;
    assert!(matches!(Hnsw::load(&bytes, 5), Err(Error::LoadFormat)));
    bytes[at] = 20;
    assert!(Hnsw::load(&bytes, 5).is_ok());
}

#[test]
fn node_contents_are_not_validated_on_load() {
    let graph = vec![vec![vec![]], vec![vec![1], vec![7]]];
    let index = Hnsw::load(&encode(&graph), 2).unwrap();
    assert_eq!(index.neighbors(1, 1), vec![7]);
    assert!(!index.is_searchable());
    // layers must not shrink
    let graph = vec![vec![vec![], vec![]], vec![vec![]]];
    let index = Hnsw::load(&encode(&graph), 2).unwrap();
    assert!(!index.is_searchable());
    // nor be empty
    let graph = vec![vec![], vec![vec![]]];
    let index = Hnsw::load(&encode(&graph), 2).unwrap();
    assert!(!index.is_searchable());
}

#[test]
fn search_walks_the_loaded_chain() {
    let index = Hnsw::load(&encode(&chain()), 5).unwrap();
    assert!(index.is_searchable());
    let to_four = |i: usize| line(i, 4);
    // enough budget to walk the whole chain
    assert_eq!(index.search(&to_four, 2, 10), vec![(4, 0), (3, 1)]);
    assert_eq!(index.search(&to_four, 5, 10), vec![(4, 0), (3, 1), (2, 2), (1, 3), (0, 4)]);
    // two expansions reach nodes 0 and 1 only
    assert_eq!(index.search(&to_four, 3, 2), vec![(1, 3), (0, 4)]);
    // one expansion sees the entry point alone
    assert_eq!(index.search(&to_four, 3, 1), vec![(0, 4)]);
}

#[test]
fn search_breaks_ties_by_index() {
    let star = vec![vec![vec![]], vec![vec![3, 2, 1], vec![0], vec![0], vec![0]]];
    let index = Hnsw::load(&encode(&star), 4).unwrap();
    let flat = |i: usize| if i == 0 { 9u64 } else { 5u64 };
    assert_eq!(index.search(&flat, 2, 10), vec![(1, 5), (2, 5)]);
    assert_eq!(index.search(&flat, 4, 10), vec![(1, 5), (2, 5), (3, 5), (0, 9)]);
}

#[test]
fn descent_picks_the_entry_point_for_the_bottom_layer() {
    // top layer: 0 alone; middle: 0 - 1; bottom: two separate pairs
    let graph = vec![
        vec![vec![]],
        vec![vec![1], vec![0]],
        vec![vec![2], vec![3], vec![0], vec![1]],
    ];
    let index = Hnsw::load(&encode(&graph), 4).unwrap();
    assert!(index.is_searchable());
    // node 1 is closer than node 0, so the bottom traversal starts at 1
    let near_one = |i: usize| [8u64, 2, 9, 1][i];
    assert_eq!(index.search(&near_one, 4, 10), vec![(3, 1), (1, 2)]);
    let near_zero = |i: usize| [2u64, 8, 1, 9][i];
    assert_eq!(index.search(&near_zero, 4, 10), vec![(2, 1), (0, 2)]);
}

#[test]
fn index_made_of_layers_writes_its_image() {
    let mut top = Vec::new();
    top.push(HnswNode::new());
    let mut bottom = Vec::new();
    for nbrs in [vec![1usize, 2], vec![0], vec![0]] {
        let mut node = HnswNode::new();
        for j in nbrs {
            node.push(j);
        }
        bottom.push(node);
    }
    let index = Hnsw::from_layers(vec![top, bottom], 3);
    assert!(index.is_searchable());
    assert_eq!(index.neighbors(1, 0), vec![1, 2]);
    let mut bytes = Vec::new();
    assert_eq!(index.write(&mut bytes), Ok(()));
    assert_eq!(bytes, encode(&[vec![vec![]], vec![vec![1, 2], vec![0], vec![0]]]));
    let back = Hnsw::load(&bytes, 3).unwrap();
    assert_eq!(back.neighbors(1, 0), vec![1, 2]);
    assert_eq!(back.neighbors(1, 2), vec![0]);
}

#[test]
fn index_without_layers_has_no_image() {
    let index = Hnsw::from_layers(Vec::new(), 3);
    assert!(!index.is_searchable());
    let mut bytes = vec![5u8];
    assert_eq!(index.write(&mut bytes), Err(Error::NotBuilt));
    assert_eq!(bytes, vec![5u8]);
}

#[test]
fn index_and_builder_write_the_same_image() {
    let mut builder = HnswBuilder::with_config(9, Config { num_levels: 3, level_multiplier: 3, max_search: 20 });
    assert_eq!(builder.build_index(&line), Ok(()));
    let mut from_builder = Vec::new();
    assert_eq!(builder.write(&mut from_builder), Ok(()));
    let mut from_index = Vec::new();
    assert_eq!(builder.get_index().unwrap().write(&mut from_index), Ok(()));
    assert_eq!(from_builder, from_index);
}
