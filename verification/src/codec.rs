//! The flat byte image of a graph.
//!
//! The image is a sequence of 8-byte little-endian words: the total number
//! of nodes, the number of layers, the number of nodes of each layer, and
//! then every node of every layer in order. A node is a record of fixed
//! size: its number of neighbours, followed by one word for each of the
//! `MAX_NEIGHBORS` slots, the unused ones zero.

use crate::node::{graph_view, layer_view, HnswNode, MAX_NEIGHBORS};
use vstd::bytes::{
    lemma_auto_spec_u64_to_from_le_bytes, spec_u64_from_le_bytes, spec_u64_to_le_bytes,
    u64_from_le_bytes, u64_to_le_bytes,
};
use vstd::prelude::*;
use vstd::slice::slice_subrange;

verus! {

/// The number of bytes of a word.
pub const WORD_BYTES: usize = 8;

/// The number of words of a node record.
pub const NODE_WORDS: usize = 21;

/// The number of bytes of a node record.
pub const NODE_BYTES: usize = 168;

/// The words of one node record.
pub open spec fn node_words(nbrs: Seq<usize>) -> Seq<u64> {
    Seq::new(
        NODE_WORDS as nat,
        |w: int|
            if w == 0 {
                nbrs.len() as u64
            } else if w <= nbrs.len() {
                nbrs[w - 1] as u64
            } else {
                0u64
            },
    )
}

/// The words of the node records of one layer.
pub open spec fn layer_words(layer: Seq<Seq<usize>>) -> Seq<u64> {
    Seq::new((21 * layer.len()) as nat, |w: int| node_words(layer[w / 21])[w % 21])
}

/// The number of nodes in the first `k` layers.
pub open spec fn nodes_before(graph: Seq<Seq<Seq<usize>>>, k: int) -> nat
    decreases k,
{
    if k <= 0 {
        0
    } else {
        nodes_before(graph, k - 1) + graph[k - 1].len()
    }
}

/// The words of the node records of the first `k` layers.
pub open spec fn body_words(graph: Seq<Seq<Seq<usize>>>, k: int) -> Seq<u64>
    decreases k,
{
    if k <= 0 {
        Seq::empty()
    } else {
        body_words(graph, k - 1) + layer_words(graph[k - 1])
    }
}

/// The words in front of the node records: the node count, the layer count
/// and the size of each layer.
pub open spec fn header_words(graph: Seq<Seq<Seq<usize>>>) -> Seq<u64> {
    Seq::new(
        (2 + graph.len()) as nat,
        |w: int|
            if w == 0 {
                nodes_before(graph, graph.len() as int) as u64
            } else if w == 1 {
                graph.len() as u64
            } else {
                graph[w - 2].len() as u64
            },
    )
}

/// All words of a graph.
pub open spec fn graph_words(graph: Seq<Seq<Seq<usize>>>) -> Seq<u64> {
    header_words(graph) + body_words(graph, graph.len() as int)
}

/// The bytes of a sequence of words, each word little-endian.
pub open spec fn words_bytes(ws: Seq<u64>) -> Seq<u8> {
    Seq::new((8 * ws.len()) as nat, |b: int| spec_u64_to_le_bytes(ws[b / 8])[b % 8])
}

/// The byte image of a graph.
pub open spec fn image(graph: Seq<Seq<Seq<usize>>>) -> Seq<u8> {
    words_bytes(graph_words(graph))
}

proof fn lemma_words_bytes_push(ws: Seq<u64>, x: u64)
    ensures
        words_bytes(ws.push(x)) == words_bytes(ws) + spec_u64_to_le_bytes(x),
{
    lemma_auto_spec_u64_to_from_le_bytes();
    assert(words_bytes(ws.push(x)) =~= words_bytes(ws) + spec_u64_to_le_bytes(x));
}

fn put_word(buffer: &mut Vec<u8>, x: u64, Ghost(base): Ghost<Seq<u8>>, Ghost(ws): Ghost<Seq<u64>>)
    requires
        old(buffer)@ == base + words_bytes(ws),
    ensures
        final(buffer)@ == base + words_bytes(ws.push(x)),
{
    let bytes = u64_to_le_bytes(x);
    let ghost before = buffer@;
    let mut b: usize = 0;
    while b < 8
        invariant
            b <= 8,
            bytes@.len() == 8,
            buffer@ == before + bytes@.subrange(0, b as int),
        decreases 8 - b,
    {
        buffer.push(bytes[b]);
        proof {
            assert(buffer@ =~= before + bytes@.subrange(0, b + 1));
        }
        b += 1;
    }
    proof {
        lemma_words_bytes_push(ws, x);
        assert(bytes@.subrange(0, 8) =~= bytes@);
        assert(buffer@ =~= base + words_bytes(ws.push(x)));
    }
}

fn put_node(
    buffer: &mut Vec<u8>,
    node: &HnswNode,
    Ghost(base): Ghost<Seq<u8>>,
    Ghost(ws): Ghost<Seq<u64>>,
)
    requires
        old(buffer)@ == base + words_bytes(ws),
    ensures
        final(buffer)@ == base + words_bytes(ws + node_words(node@)),
{
    let len = node.len();
    let ghost record = node_words(node@);
    put_word(buffer, len as u64, Ghost(base), Ghost(ws));
    proof {
        assert(ws.push(len as u64) =~= ws + record.subrange(0, 1));
    }
    let mut q: usize = 0;
    while q < MAX_NEIGHBORS
        invariant
            q <= MAX_NEIGHBORS,
            len == node@.len(),
            len <= MAX_NEIGHBORS,
            record == node_words(node@),
            buffer@ == base + words_bytes(ws + record.subrange(0, 1 + q)),
        decreases MAX_NEIGHBORS - q,
    {
        let x: u64 = if q < len {
            node.neighbor(q) as u64
        } else {
            0
        };
        put_word(buffer, x, Ghost(base), Ghost(ws + record.subrange(0, 1 + q)));
        proof {
            assert((ws + record.subrange(0, 1 + q)).push(x) =~= ws + record.subrange(0, 2 + q));
        }
        q += 1;
    }
    proof {
        assert(record.subrange(0, 21) =~= record);
    }
}

/// The number of nodes counted up to a layer never exceeds the number
/// counted up to a later layer.
pub proof fn lemma_nodes_before_grows(graph: Seq<Seq<Seq<usize>>>, a: int, b: int)
    requires
        a <= b,
    ensures
        nodes_before(graph, a) <= nodes_before(graph, b),
    decreases b - a,
{
    if a < b {
        lemma_nodes_before_grows(graph, a, b - 1);
    }
}

/// Counts the nodes of all layers, if a machine word can hold their number.
pub(crate) fn count_nodes(levels: &Vec<Vec<HnswNode>>) -> (total: Option<usize>)
    ensures
        match total {
            Some(t) => t == nodes_before(graph_view(levels@), levels.len() as int),
            None => nodes_before(graph_view(levels@), levels.len() as int) > usize::MAX,
        },
{
    let ghost graph = graph_view(levels@);
    let count = levels.len();
    let mut total: usize = 0;
    let mut k: usize = 0;
    while k < count
        invariant
            k <= count,
            count == levels.len(),
            graph == graph_view(levels@),
            total == nodes_before(graph, k as int),
        decreases count - k,
    {
        proof {
            assert(graph[k as int].len() == levels[k as int].len());
        }
        match total.checked_add(levels[k].len()) {
            Some(sum) => {
                total = sum;
            },
            None => {
                proof {
                    lemma_nodes_before_grows(graph, k + 1, count as int);
                }
                return None;
            },
        }
        k += 1;
    }
    Some(total)
}

/// Appends the image of the graph held in `levels` to `buffer`.
pub(crate) fn write_graph(levels: &Vec<Vec<HnswNode>>, buffer: &mut Vec<u8>)
    requires
        nodes_before(graph_view(levels@), levels.len() as int) <= usize::MAX,
    ensures
        final(buffer)@ == old(buffer)@ + image(graph_view(levels@)),
{
    let ghost graph = graph_view(levels@);
    let ghost base = buffer@;
    let count = levels.len();
    let mut total: usize = 0;
    let mut k: usize = 0;
    while k < count
        invariant
            k <= count,
            count == levels.len(),
            graph == graph_view(levels@),
            total == nodes_before(graph, k as int),
            nodes_before(graph, count as int) <= usize::MAX,
        decreases count - k,
    {
        proof {
            lemma_nodes_before_grows(graph, k + 1, count as int);
            assert(graph[k as int].len() == levels[k as int].len());
        }
        total = total + levels[k].len();
        k += 1;
    }
    let ghost header = header_words(graph);
    proof {
        assert(buffer@ =~= base + words_bytes(Seq::<u64>::empty()));
    }
    put_word(buffer, total as u64, Ghost(base), Ghost(Seq::<u64>::empty()));
    put_word(buffer, count as u64, Ghost(base), Ghost(Seq::<u64>::empty().push(total as u64)));
    proof {
        assert(Seq::<u64>::empty().push(total as u64).push(count as u64) =~= header.subrange(0, 2));
    }
    let mut k: usize = 0;
    while k < count
        invariant
            k <= count,
            count == levels.len(),
            graph == graph_view(levels@),
            header == header_words(graph),
            buffer@ == base + words_bytes(header.subrange(0, 2 + k)),
        decreases count - k,
    {
        let size = levels[k].len();
        proof {
            assert(graph[k as int].len() == size);
        }
        put_word(buffer, size as u64, Ghost(base), Ghost(header.subrange(0, 2 + k)));
        proof {
            assert(header.subrange(0, 2 + k).push(size as u64) =~= header.subrange(0, 3 + k));
        }
        k += 1;
    }
    proof {
        assert(header.subrange(0, 2 + count) =~= header);
        assert(header + body_words(graph, 0) =~= header);
    }
    let mut k: usize = 0;
    while k < count
        invariant
            k <= count,
            count == levels.len(),
            graph == graph_view(levels@),
            header == header_words(graph),
            buffer@ == base + words_bytes(header + body_words(graph, k as int)),
        decreases count - k,
    {
        let layer = &levels[k];
        let size = layer.len();
        let ghost rows = layer_view(layer@);
        let ghost done = header + body_words(graph, k as int);
        proof {
            assert(graph[k as int] == rows);
            assert(done + layer_words(rows).subrange(0, 0) =~= done);
        }
        let mut i: usize = 0;
        while i < size
            invariant
                i <= size,
                size == layer.len(),
                rows == layer_view(layer@),
                buffer@ == base + words_bytes(done + layer_words(rows).subrange(0, 21 * i)),
            decreases size - i,
        {
            put_node(
                buffer,
                &layer[i],
                Ghost(base),
                Ghost(done + layer_words(rows).subrange(0, 21 * i)),
            );
            proof {
                assert(rows[i as int] == layer@[i as int]@);
                assert(done + layer_words(rows).subrange(0, 21 * i) + node_words(rows[i as int])
                    =~= done + layer_words(rows).subrange(0, 21 * (i + 1)));
            }
            i += 1;
        }
        proof {
            assert(layer_words(rows).subrange(0, 21 * size) =~= layer_words(rows));
            assert(done + layer_words(rows) =~= header + body_words(graph, k + 1));
        }
        k += 1;
    }
}

/// The word that starts at byte `8 * w`.
pub open spec fn word_at(bytes: Seq<u8>, w: int) -> u64 {
    spec_u64_from_le_bytes(bytes.subrange(8 * w, 8 * w + 8))
}

/// The node count that an image declares.
pub open spec fn image_total(bytes: Seq<u8>) -> nat {
    word_at(bytes, 0) as nat
}

/// The layer count that an image declares.
pub open spec fn image_levels(bytes: Seq<u8>) -> nat {
    word_at(bytes, 1) as nat
}

/// The size that an image declares for layer `k`.
pub open spec fn image_count(bytes: Seq<u8>, k: int) -> nat {
    word_at(bytes, 2 + k) as nat
}

/// The number of nodes that an image declares for the first `k` layers.
pub open spec fn image_before(bytes: Seq<u8>, k: int) -> nat
    decreases k,
{
    if k <= 0 {
        0
    } else {
        image_before(bytes, k - 1) + image_count(bytes, k - 1)
    }
}

/// The position of the first word of node record `j`.
pub open spec fn image_base(bytes: Seq<u8>, j: int) -> int {
    2 + image_levels(bytes) + 21 * j
}

/// Node record `j` declares no more neighbours than a node can hold, and
/// each of them fits a machine word.
pub open spec fn node_valid(bytes: Seq<u8>, j: int) -> bool {
    &&& word_at(bytes, image_base(bytes, j)) <= MAX_NEIGHBORS
    &&& forall|q: int|
        0 <= q < word_at(bytes, image_base(bytes, j)) ==> #[trigger] word_at(
            bytes,
            image_base(bytes, j) + 1 + q,
        ) <= usize::MAX
}

/// The neighbours that node record `j` holds.
pub open spec fn image_node(bytes: Seq<u8>, j: int) -> Seq<usize> {
    Seq::new(
        word_at(bytes, image_base(bytes, j)) as nat,
        |q: int| word_at(bytes, image_base(bytes, j) + 1 + q) as usize,
    )
}

/// The graph that an image holds.
pub open spec fn image_graph(bytes: Seq<u8>) -> Seq<Seq<Seq<usize>>> {
    Seq::new(
        image_levels(bytes),
        |k: int|
            Seq::new(
                image_count(bytes, k),
                |i: int| image_node(bytes, image_before(bytes, k) + i),
            ),
    )
}

/// `bytes` begin with the image of a graph over at most `n` elements: the
/// header is complete and declares at least one layer, the layer sizes add
/// up to the node count, all node records are present and valid, and the
/// bottom layer has no more than `n` nodes.
pub open spec fn image_valid(bytes: Seq<u8>, n: nat) -> bool {
    &&& bytes.len() >= 16
    &&& image_levels(bytes) >= 1
    &&& bytes.len() >= 8 * (2 + image_levels(bytes))
    &&& image_before(bytes, image_levels(bytes) as int) == image_total(bytes)
    &&& bytes.len() >= 8 * (2 + image_levels(bytes) + 21 * image_total(bytes))
    &&& image_count(bytes, image_levels(bytes) - 1) <= n
    &&& forall|j: int| 0 <= j < image_total(bytes) ==> node_valid(bytes, j)
}

/// The number of nodes declared up to a layer never exceeds the number
/// declared up to a later layer.
pub proof fn lemma_image_before_grows(bytes: Seq<u8>, a: int, b: int)
    requires
        a <= b,
    ensures
        image_before(bytes, a) <= image_before(bytes, b),
    decreases b - a,
{
    if a < b {
        lemma_image_before_grows(bytes, a, b - 1);
    }
}

fn read_word(buffer: &[u8], w: usize) -> (x: u64)
    requires
        8 * w + 8 <= buffer@.len(),
    ensures
        x == word_at(buffer@, w as int),
{
    let size = buffer.len();
    assert(8 * w + 8 <= size);
    u64_from_le_bytes(slice_subrange(buffer, 8 * w, 8 * w + 8))
}

fn read_node(buffer: &[u8], base: usize, Ghost(j): Ghost<int>) -> (node: Option<HnswNode>)
    requires
        8 * (base + 21) <= buffer@.len(),
        base == image_base(buffer@, j),
    ensures
        match node {
            Some(n) => node_valid(buffer@, j) && n@ == image_node(buffer@, j),
            None => !node_valid(buffer@, j),
        },
{
    let size = buffer.len();
    let declared = read_word(buffer, base);
    if declared > MAX_NEIGHBORS as u64 {
        return None;
    }
    let len = declared as usize;
    let mut node = HnswNode::new();
    let mut q: usize = 0;
    while q < len
        invariant
            q <= len <= MAX_NEIGHBORS,
            len == word_at(buffer@, base as int),
            8 * (base + 21) <= buffer@.len(),
            size == buffer@.len(),
            base == image_base(buffer@, j),
            node@.len() == q,
            forall|b: int|
                0 <= b < q ==> #[trigger] word_at(buffer@, base + 1 + b) <= usize::MAX && node@[b]
                    == word_at(buffer@, base + 1 + b) as usize,
        decreases len - q,
    {
        let x = read_word(buffer, base + 1 + q);
        if x > usize::MAX as u64 {
            return None;
        }
        node.push(x as usize);
        q += 1;
    }
    proof {
        assert(node@ =~= image_node(buffer@, j));
    }
    Some(node)
}

/// Decodes the graph that `buffer` begins with, if it begins with the image
/// of one over at most `num_elements` elements.
#[verifier::loop_isolation(false)]
pub(crate) fn read_graph(buffer: &[u8], num_elements: usize) -> (levels: Option<
    Vec<Vec<HnswNode>>,
>)
    ensures
        match levels {
            Some(v) => image_valid(buffer@, num_elements as nat) && graph_view(v@) == image_graph(
                buffer@,
            ),
            None => !image_valid(buffer@, num_elements as nat),
        },
{
    let ghost bytes = buffer@;
    let size = buffer.len();
    if size < 16 {
        return None;
    }
    let words = size / 8;
    let total_word = read_word(buffer, 0);
    let count_word = read_word(buffer, 1);
    if count_word == 0 {
        return None;
    }
    if count_word > (words - 2) as u64 {
        return None;
    }
    let count = count_word as usize;
    let room = words - 2 - count;
    if total_word > (room / 21) as u64 {
        return None;
    }
    let total = total_word as usize;

    let mut sizes: Vec<usize> = Vec::with_capacity(count);
    let mut sum: usize = 0;
    let mut k: usize = 0;
    while k < count
        invariant
            k <= count,
            sum == image_before(bytes, k as int),
            sum <= total,
            sizes.len() == k,
            forall|a: int| 0 <= a < k ==> #[trigger] sizes@[a] == image_count(bytes, a),
        decreases count - k,
    {
        let c = read_word(buffer, 2 + k);
        if c > (total - sum) as u64 {
            proof {
                lemma_image_before_grows(bytes, k + 1, count as int);
            }
            return None;
        }
        sum = sum + c as usize;
        sizes.push(c as usize);
        k += 1;
    }
    if sum != total {
        return None;
    }
    if sizes[count - 1] > num_elements {
        return None;
    }
    let mut levels: Vec<Vec<HnswNode>> = Vec::with_capacity(count);
    let mut j: usize = 0;
    let mut k: usize = 0;
    while k < count
        invariant
            k <= count,
            j == image_before(bytes, k as int),
            j <= total,
            levels.len() == k,
            forall|a: int| 0 <= a < k ==> layer_view((#[trigger] levels@[a])@) == image_graph(bytes)[a],
            forall|b: int| 0 <= b < j ==> node_valid(bytes, b),
        decreases count - k,
    {
        let width = sizes[k];
        let ghost first = j;
        proof {
            lemma_image_before_grows(bytes, k + 1, count as int);
        }
        let mut layer: Vec<HnswNode> = Vec::with_capacity(width);
        let mut i: usize = 0;
        while i < width
            invariant
                i <= width,
                j == first + i,
                first + width <= total,
                layer.len() == i,
                forall|a: int| 0 <= a < i ==> (#[trigger] layer@[a])@ == image_node(bytes, first + a),
                forall|b: int| 0 <= b < j ==> node_valid(bytes, b),
            decreases width - i,
        {
            match read_node(buffer, 2 + count + 21 * j, Ghost(j as int)) {
                Some(node) => {
                    layer.push(node);
                },
                None => {
                    return None;
                },
            }
            i += 1;
            j += 1;
        }
        proof {
            assert(layer_view(layer@) =~= image_graph(bytes)[k as int]);
        }
        levels.push(layer);
        k += 1;
    }
    proof {
        assert(graph_view(levels@) =~= image_graph(bytes));
    }
    Some(levels)
}

/// A graph that has an image: its layers and nodes can be counted in a
/// machine word, and no node has more neighbours than a node can hold.
pub open spec fn encodable(graph: Seq<Seq<Seq<usize>>>) -> bool {
    &&& graph.len() <= usize::MAX
    &&& nodes_before(graph, graph.len() as int) <= usize::MAX
    &&& forall|k: int, i: int|
        0 <= k < graph.len() && 0 <= i < graph[k].len() ==> (#[trigger] graph[k][i]).len()
            <= MAX_NEIGHBORS
}

proof fn lemma_word_of_words(ws: Seq<u64>, w: int)
    requires
        0 <= w < ws.len(),
    ensures
        word_at(words_bytes(ws), w) == ws[w],
{
    lemma_auto_spec_u64_to_from_le_bytes();
    assert(words_bytes(ws).subrange(8 * w, 8 * w + 8) =~= spec_u64_to_le_bytes(ws[w]));
}

proof fn lemma_body_len(graph: Seq<Seq<Seq<usize>>>, k: int)
    requires
        0 <= k <= graph.len(),
    ensures
        body_words(graph, k).len() == 21 * nodes_before(graph, k),
    decreases k,
{
    if k > 0 {
        lemma_body_len(graph, k - 1);
    }
}

proof fn lemma_body_word(graph: Seq<Seq<Seq<usize>>>, upto: int, k: int, i: int, r: int)
    requires
        0 <= k < upto <= graph.len(),
        0 <= i < graph[k].len(),
        0 <= r < 21,
    ensures
        21 * (nodes_before(graph, k) + i) + r < body_words(graph, upto).len(),
        body_words(graph, upto)[21 * (nodes_before(graph, k) + i) + r] == node_words(
            graph[k][i],
        )[r],
    decreases upto,
{
    lemma_body_len(graph, upto - 1);
    lemma_body_len(graph, upto);
    if k == upto - 1 {
        let w = 21 * i + r;
        assert(w / 21 == i && w % 21 == r);
        assert(layer_words(graph[k])[w] == node_words(graph[k][i])[r]);
    } else {
        lemma_body_word(graph, upto - 1, k, i, r);
    }
}

proof fn lemma_locate(graph: Seq<Seq<Seq<usize>>>, upto: int, j: int) -> (at: (int, int))
    requires
        0 <= upto <= graph.len(),
        0 <= j < nodes_before(graph, upto),
    ensures
        0 <= at.0 < upto,
        0 <= at.1 < graph[at.0].len(),
        j == nodes_before(graph, at.0) + at.1,
    decreases upto,
{
    if j >= nodes_before(graph, upto - 1) {
        (upto - 1, j - nodes_before(graph, upto - 1))
    } else {
        lemma_locate(graph, upto - 1, j)
    }
}

proof fn lemma_image_header(graph: Seq<Seq<Seq<usize>>>)
    requires
        encodable(graph),
    ensures
        image(graph).len() == 8 * (2 + graph.len() + 21 * nodes_before(graph, graph.len() as int)),
        image_total(image(graph)) == nodes_before(graph, graph.len() as int),
        image_levels(image(graph)) == graph.len(),
        forall|k: int|
            0 <= k < graph.len() ==> #[trigger] image_count(image(graph), k) == graph[k].len(),
        forall|k: int|
            0 <= k <= graph.len() ==> #[trigger] image_before(image(graph), k) == nodes_before(
                graph,
                k,
            ),
{
    let ws = graph_words(graph);
    let count = graph.len() as int;
    lemma_body_len(graph, count);
    lemma_word_of_words(ws, 0);
    lemma_word_of_words(ws, 1);
    assert forall|k: int| 0 <= k < graph.len() implies #[trigger] image_count(image(graph), k)
        == graph[k].len() by {
        lemma_word_of_words(ws, 2 + k);
        lemma_nodes_before_grows(graph, k + 1, count);
    }
    assert forall|k: int| 0 <= k <= graph.len() implies #[trigger] image_before(image(graph), k)
        == nodes_before(graph, k) by {
        lemma_image_before_matches(graph, k);
    }
}

proof fn lemma_image_before_matches(graph: Seq<Seq<Seq<usize>>>, k: int)
    requires
        encodable(graph),
        0 <= k <= graph.len(),
    ensures
        image_before(image(graph), k) == nodes_before(graph, k),
    decreases k,
{
    if k > 0 {
        lemma_image_before_matches(graph, k - 1);
        lemma_body_len(graph, graph.len() as int);
        lemma_word_of_words(graph_words(graph), 2 + (k - 1));
        lemma_nodes_before_grows(graph, k, graph.len() as int);
    }
}

proof fn lemma_image_node(graph: Seq<Seq<Seq<usize>>>, k: int, i: int)
    requires
        encodable(graph),
        0 <= k < graph.len(),
        0 <= i < graph[k].len(),
    ensures
        node_valid(image(graph), nodes_before(graph, k) + i),
        image_node(image(graph), nodes_before(graph, k) + i) == graph[k][i],
{
    let bytes = image(graph);
    let ws = graph_words(graph);
    let count = graph.len() as int;
    let j = nodes_before(graph, k) + i;
    let base = image_base(bytes, j);
    let nbrs = graph[k][i];
    lemma_image_header(graph);
    lemma_body_len(graph, count);
    assert forall|r: int| 0 <= r < 21 implies word_at(bytes, base + r) == #[trigger] node_words(
        nbrs,
    )[r] by {
        lemma_body_word(graph, count, k, i, r);
        lemma_word_of_words(ws, base + r);
        assert(ws[base + r] == body_words(graph, count)[21 * j + r]);
    }
    assert(word_at(bytes, base) == node_words(nbrs)[0]);
    assert(word_at(bytes, base) == nbrs.len());
    assert forall|q: int| 0 <= q < nbrs.len() implies #[trigger] word_at(bytes, base + 1 + q)
        == nbrs[q] by {
        assert(word_at(bytes, base + (1 + q)) == node_words(nbrs)[1 + q]);
    }
    assert(node_valid(bytes, j)) by {
        assert forall|q: int| 0 <= q < word_at(bytes, image_base(bytes, j)) implies #[trigger] word_at(
            bytes,
            image_base(bytes, j) + 1 + q,
        ) <= usize::MAX by {
            assert(word_at(bytes, base + 1 + q) == nbrs[q]);
        }
    }
    assert(image_node(bytes, j) =~= nbrs);
}

/// The image of a graph is valid and holds that graph.
pub proof fn lemma_image_round_trip(graph: Seq<Seq<Seq<usize>>>, n: nat)
    requires
        encodable(graph),
        graph.len() >= 1,
        graph.last().len() <= n,
    ensures
        image_valid(image(graph), n),
        image_graph(image(graph)) == graph,
{
    let bytes = image(graph);
    let count = graph.len() as int;
    lemma_image_header(graph);
    assert(image_before(bytes, count) == nodes_before(graph, count));
    assert(image_count(bytes, count - 1) == graph[count - 1].len());
    assert forall|j: int| 0 <= j < image_total(bytes) implies node_valid(bytes, j) by {
        let at = lemma_locate(graph, count, j);
        lemma_image_node(graph, at.0, at.1);
    }
    assert forall|k: int| 0 <= k < count implies #[trigger] image_graph(bytes)[k] == graph[k] by {
        assert(image_count(bytes, k) == graph[k].len());
        assert(image_before(bytes, k) == nodes_before(graph, k));
        assert forall|i: int| 0 <= i < graph[k].len() implies #[trigger] image_graph(
            bytes,
        )[k][i] == graph[k][i] by {
            lemma_image_node(graph, k, i);
        }
        assert(image_graph(bytes)[k] =~= graph[k]);
    }
    assert(image_graph(bytes) =~= graph);
}

/// An image that has lost its last byte is not valid.
pub proof fn lemma_truncated_image_invalid(graph: Seq<Seq<Seq<usize>>>, n: nat)
    requires
        encodable(graph),
        graph.len() >= 1,
    ensures
        !image_valid(image(graph).drop_last(), n),
{
    let bytes = image(graph);
    let cut = bytes.drop_last();
    lemma_image_header(graph);
    assert(cut.subrange(0, 8) =~= bytes.subrange(0, 8));
    assert(cut.subrange(8, 16) =~= bytes.subrange(8, 16));
    assert(word_at(cut, 0) == word_at(bytes, 0));
    assert(word_at(cut, 1) == word_at(bytes, 1));
}

} // verus!
