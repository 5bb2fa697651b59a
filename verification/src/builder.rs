//! Construction of the layered graph: the insertion of one element into
//! the layer under construction, the construction of a layer below the
//! finished ones, and the build of all layers.

use crate::codec::{encodable, image, nodes_before, write_graph};
use crate::error::Error;
use crate::heap::{in_order, lemma_in_order, Candidate};
use crate::index::{searchable, Hnsw};
use crate::link::{
    connect, connect_nodes, extends, layer_linked, layer_sound, lemma_connect_sound,
    lemma_extends_trans, node_sound,
};
use crate::metric::{from_node, measures_pairs, pairs, reports, toward};
use crate::node::{graph_view, layer_closed, layer_view, nested, HnswNode, MAX_NEIGHBORS};
use crate::traversal::{descend, descend_through, nearest, traverse};
use vstd::arithmetic::power::{lemma_pow_increases, lemma_pow_positive, pow};
use vstd::prelude::*;

verus! {

/// The number of layers of a graph built with the default configuration.
pub const LEVELS: usize = 5;

/// The default factor by which each layer is larger than the one above it.
pub const LEVEL_MULTIPLIER: usize = 12;

/// The default bound on the candidates expanded by one traversal during
/// construction.
pub const MAX_INDEX_SEARCH: usize = 500;

/// Both directions of one link: `n` is proposed to `idx`, then `idx` to `n`.
pub open spec fn link(
    layer: Seq<Seq<usize>>,
    metric: spec_fn(usize, usize) -> u64,
    idx: usize,
    n: usize,
) -> Seq<Seq<usize>> {
    let first = layer.update(idx as int, connect(layer[idx as int], from_node(metric, idx), n));
    first.update(n as int, connect(first[n as int], from_node(metric, n), idx))
}

/// The layer after `idx` was linked with each candidate in turn, itself
/// excepted.
pub open spec fn link_all(
    layer: Seq<Seq<usize>>,
    metric: spec_fn(usize, usize) -> u64,
    idx: usize,
    candidates: Seq<Candidate>,
) -> Seq<Seq<usize>>
    decreases candidates.len(),
{
    if candidates.len() == 0 {
        layer
    } else {
        let prev = link_all(layer, metric, idx, candidates.drop_last());
        let n = candidates.last().1;
        if n == idx {
            prev
        } else {
            link(prev, metric, idx, n)
        }
    }
}

/// The layer after element `idx` was inserted: the entry point comes from
/// a descent through the finished layers `graph`, the candidates from a
/// traversal of the layer itself, closest first.
pub open spec fn inserted(
    graph: Seq<Seq<Seq<usize>>>,
    layer: Seq<Seq<usize>>,
    metric: spec_fn(usize, usize) -> u64,
    idx: usize,
    max_search: nat,
) -> Seq<Seq<usize>> {
    let goal = toward(metric, idx);
    let entry = descend(graph, goal, max_search, graph.len());
    link_all(
        layer,
        metric,
        idx,
        in_order(nearest(layer, entry, goal, max_search, MAX_NEIGHBORS as nat)),
    )
}

/// Inserts element `idx` into the layer under construction.
pub fn insert_element<F: Fn(usize, usize) -> u64>(
    layers: &Vec<Vec<HnswNode>>,
    layer: &mut Vec<HnswNode>,
    dist: &F,
    idx: usize,
    max_search: usize,
)
    requires
        layers.len() > 0,
        nested(graph_view(layers@)),
        layers[layers.len() - 1].len() <= idx < old(layer).len(),
        measures_pairs(dist, old(layer).len() as nat),
        layer_sound(layer_view(old(layer)@), idx as nat),
        layer_linked(layer_view(old(layer)@), idx as nat),
        max_search > 0,
    ensures
        final(layer).len() == old(layer).len(),
        layer_sound(layer_view(final(layer)@), (idx + 1) as nat),
        layer_linked(layer_view(final(layer)@), (idx + 1) as nat),
        layer_view(final(layer)@) == inserted(
            graph_view(layers@),
            layer_view(old(layer)@),
            pairs(dist),
            idx,
            max_search as nat,
        ),
        forall|p: int|
            0 <= p < old(layer).len() ==> extends(
                #[trigger] layer_view(old(layer)@)[p],
                layer_view(final(layer)@)[p],
            ),
{
    let size = layer.len();
    let ghost graph = graph_view(layers@);
    let ghost rows0 = layer_view(layer@);
    let ghost metric = pairs(dist);
    let ghost goal = toward(metric, idx);
    let to_goal = |i: usize| -> (d: u64)
        requires
            i < size,
        ensures
            call_ensures(*dist, (i, idx), d),
        { dist(i, idx) };
    proof {
        assert forall|i: usize, d: u64|
            i < size && call_ensures(to_goal, (i,), d) implies d == goal(i) by {
            assert(call_ensures(*dist, (i, idx), d));
        }
        assert(reports(&to_goal, goal, size as nat));
        assert(graph[layers.len() - 1].len() == layers[layers.len() - 1].len());
        assert(layer_closed(rows0)) by {
            assert forall|p: int, q: int|
                0 <= p < rows0.len() && 0 <= q < rows0[p].len() implies #[trigger] rows0[p][q]
                < rows0.len() by {
                assert(node_sound(rows0[p], p, idx as nat));
            }
        }
    }
    let entry = descend_through(layers, layers.len(), &to_goal, max_search, Ghost(goal));
    let neighbors = traverse(
        layer,
        entry,
        &to_goal,
        max_search,
        MAX_NEIGHBORS,
        Ghost(goal),
    );
    proof {
        lemma_in_order(neighbors@);
        assert forall|t: int| 0 <= t < neighbors.len() implies (#[trigger] neighbors@[t]).1
            < idx by {
            let v = neighbors@[t].1;
            if v != entry {
                let (p, q) = choose|p: int, q: int|
                    0 <= p < rows0.len() && 0 <= q < rows0[p].len() && #[trigger] rows0[p][q] == v;
                assert(node_sound(rows0[p], p, idx as nat));
            }
        }
        assert forall|t: int| 0 <= t < neighbors.len() implies !(#[trigger] rows0[neighbors@[t].1 as int]).contains(idx) by {
            assert(node_sound(rows0[neighbors@[t].1 as int], neighbors@[t].1 as int, idx as nat));
        }
        assert(neighbors@.subrange(0, 0) =~= Seq::<Candidate>::empty());
        assert forall|p: int| 0 <= p < rows0.len() implies node_sound(
            #[trigger] rows0[p],
            p,
            (idx + 1) as nat,
        ) by {
            assert(node_sound(rows0[p], p, idx as nat));
        }
    }
    let mut t: usize = 0;
    while t < neighbors.len()
        invariant
            t <= neighbors.len(),
            neighbors.len() <= MAX_NEIGHBORS,
            layer.len() == size,
            idx < size,
            rows0.len() == size,
            metric == pairs(dist),
            measures_pairs(dist, size as nat),
            forall|a: int| 0 <= a < neighbors.len() ==> (#[trigger] neighbors@[a]).1 < idx,
            forall|a: int, b: int|
                0 <= a < b < neighbors.len() ==> (#[trigger] neighbors@[a]).1 != (
                #[trigger] neighbors@[b]).1,
            layer_sound(layer_view(layer@), (idx + 1) as nat),
            layer_view(layer@) == link_all(rows0, metric, idx, neighbors@.subrange(0, t as int)),
            layer_view(layer@)[idx as int].len() == t,
            forall|a: int|
                0 <= a < t ==> #[trigger] layer_view(layer@)[idx as int][a] == neighbors@[a].1,
            forall|a: int|
                t <= a < neighbors.len() ==> !(#[trigger] layer_view(
                    layer@,
                )[neighbors@[a].1 as int]).contains(idx),
            forall|p: int|
                0 <= p < size ==> extends(#[trigger] rows0[p], layer_view(layer@)[p]),
            forall|a: int|
                0 <= a < t ==> (#[trigger] layer_view(layer@)[neighbors@[a].1 as int]).len() >= 1,
        decreases neighbors.len() - t,
    {
        let n = neighbors[t].1;
        let ghost rows = layer_view(layer@);
        proof {
            assert(neighbors@[t as int].1 < idx);
            assert(neighbors@.subrange(0, t + 1).drop_last() =~= neighbors@.subrange(0, t as int));
            assert(neighbors@.subrange(0, t + 1).last() == neighbors@[t as int]);
            assert(node_sound(rows[idx as int], idx as int, (idx + 1) as nat));
            assert(node_sound(rows[n as int], n as int, (idx + 1) as nat));
        }
        if n != idx {
            proof {
                assert(!rows[idx as int].contains(n)) by {
                    if rows[idx as int].contains(n) {
                        let a = choose|a: int| 0 <= a < rows[idx as int].len() && rows[idx as int][a] == n;
                        assert(neighbors@[a].1 != neighbors@[t as int].1);
                    }
                }
                lemma_connect_sound(rows[idx as int], from_node(metric, idx), n, idx as int, (idx + 1) as nat);
            }
            connect_nodes(&mut layer[idx], dist, idx, n);
            let ghost first = layer_view(layer@);
            proof {
                assert(first =~= rows.update(
                    idx as int,
                    connect(rows[idx as int], from_node(metric, idx), n),
                ));
                assert(first[n as int] == rows[n as int]);
                assert(!rows[n as int].contains(idx));
                lemma_connect_sound(first[n as int], from_node(metric, n), idx, n as int, (idx + 1) as nat);
            }
            connect_nodes(&mut layer[n], dist, n, idx);
            proof {
                let second = layer_view(layer@);
                assert(second =~= first.update(
                    n as int,
                    connect(first[n as int], from_node(metric, n), idx),
                ));
                assert(second == link(rows, metric, idx, n));
                assert forall|p: int| 0 <= p < size implies extends(
                    #[trigger] rows0[p],
                    second[p],
                ) by {
                    lemma_extends_trans(rows0[p], rows[p], second[p]);
                }
                assert forall|a: int| t + 1 <= a < neighbors.len() implies !(#[trigger] second[neighbors@[a].1 as int]).contains(idx) by {
                    assert(neighbors@[t as int].1 != neighbors@[a].1);
                    assert(second[neighbors@[a].1 as int] == rows[neighbors@[a].1 as int]);
                }
                assert forall|a: int| 0 <= a < t + 1 implies (#[trigger] second[neighbors@[a].1 as int]).len()
                    >= 1 by {
                    if a < t {
                        assert(neighbors@[a].1 != neighbors@[t as int].1);
                        assert(second[neighbors@[a].1 as int] == rows[neighbors@[a].1 as int]);
                    }
                }
            }
        }
        t += 1;
    }
    proof {
        assert(neighbors@.subrange(0, neighbors.len() as int) =~= neighbors@);
        let last = layer_view(layer@);
        assert forall|p: int| 0 <= p < idx + 1 && p < last.len() implies (#[trigger] last[p]).len()
            >= 1 by {
            if p < idx {
                if idx >= 2 {
                    assert(rows0[p].len() >= 1);
                    assert(extends(rows0[p], last[p]));
                } else {
                    assert(neighbors@[0].1 < idx);
                    assert(last[neighbors@[0].1 as int].len() >= 1);
                }
            }
        }
    }
}

/// The number of nodes in layer `k` of a graph over `n` elements: the
/// `k`-th power of the multiplier, capped at `n`.
pub open spec fn level_size(n: nat, multiplier: nat, k: nat) -> nat {
    if n <= pow(multiplier as int, k) {
        n
    } else {
        pow(multiplier as int, k) as nat
    }
}

/// Layer sizes never shrink from one layer to the next.
pub proof fn lemma_level_size_grows(n: nat, multiplier: nat, k: nat, l: nat)
    requires
        multiplier >= 1,
        k <= l,
    ensures
        level_size(n, multiplier, k) <= level_size(n, multiplier, l) <= n,
        n >= 1 ==> level_size(n, multiplier, k) >= 1,
{
    lemma_pow_positive(multiplier as int, k);
    lemma_pow_positive(multiplier as int, l);
    lemma_pow_increases(multiplier, k, l);
}

fn next_size(size: usize, multiplier: usize, n: usize, Ghost(k): Ghost<nat>) -> (r: usize)
    requires
        multiplier >= 1,
        size == level_size(n as nat, multiplier as nat, k),
    ensures
        r == level_size(n as nat, multiplier as nat, k + 1),
{
    proof {
        lemma_pow_positive(multiplier as int, k);
        lemma_pow_increases(multiplier as nat, k, k + 1);
        assert(pow(multiplier as int, k + 1) == multiplier * pow(multiplier as int, k)) by {
            reveal(pow);
        }
        assert(size * multiplier >= size) by (nonlinear_arith)
            requires
                multiplier >= 1,
        ;
        assert(size * multiplier == multiplier * size) by (nonlinear_arith);
    }
    match size.checked_mul(multiplier) {
        Some(p) => if p < n {
            p
        } else {
            n
        },
        None => n,
    }
}

/// Computes the number of nodes in layer `k` of a graph over `n` elements.
pub fn size_of_level(n: usize, multiplier: usize, k: usize) -> (size: usize)
    requires
        multiplier >= 1,
    ensures
        size == level_size(n as nat, multiplier as nat, k as nat),
{
    proof {
        vstd::arithmetic::power::lemma_pow0(multiplier as int);
    }
    let mut size: usize = if n < 1 {
        n
    } else {
        1
    };
    let mut level: usize = 0;
    while level < k
        invariant
            level <= k,
            multiplier >= 1,
            size == level_size(n as nat, multiplier as nat, level as nat),
        decreases k - level,
    {
        size = next_size(size, multiplier, n, Ghost(level as nat));
        level += 1;
    }
    size
}

/// The layer that construction starts from: the nodes of the layer above,
/// followed by empty nodes up to `size`.
pub open spec fn fresh_layer(above: Seq<Seq<usize>>, size: nat) -> Seq<Seq<usize>> {
    Seq::new(
        size,
        |p: int|
            if p < above.len() {
                above[p]
            } else {
                Seq::<usize>::empty()
            },
    )
}

/// The layer after the elements from `first` up to, but not including,
/// `upto` were inserted in turn.
pub open spec fn grown(
    graph: Seq<Seq<Seq<usize>>>,
    layer: Seq<Seq<usize>>,
    metric: spec_fn(usize, usize) -> u64,
    max_search: nat,
    first: nat,
    upto: nat,
) -> Seq<Seq<usize>>
    decreases upto,
{
    if upto <= first {
        layer
    } else {
        inserted(
            graph,
            grown(graph, layer, metric, max_search, first, (upto - 1) as nat),
            metric,
            (upto - 1) as usize,
            max_search,
        )
    }
}

/// The layer of `size` nodes that is built below the finished layers
/// `graph`.
pub open spec fn built_layer(
    graph: Seq<Seq<Seq<usize>>>,
    metric: spec_fn(usize, usize) -> u64,
    max_search: nat,
    size: nat,
) -> Seq<Seq<usize>> {
    grown(graph, fresh_layer(graph.last(), size), metric, max_search, graph.last().len(), size)
}

/// The first `levels` layers of the graph over `n` elements: a single empty
/// node on top, and below each layer the one built from it.
pub open spec fn built_graph(
    n: nat,
    metric: spec_fn(usize, usize) -> u64,
    multiplier: nat,
    max_search: nat,
    levels: nat,
) -> Seq<Seq<Seq<usize>>>
    decreases levels,
{
    if levels == 0 {
        Seq::empty()
    } else if levels == 1 {
        seq![seq![Seq::<usize>::empty()]]
    } else {
        let above = built_graph(n, metric, multiplier, max_search, (levels - 1) as nat);
        above.push(
            built_layer(above, metric, max_search, level_size(n, multiplier, (levels - 1) as nat)),
        )
    }
}

/// The structure that every built graph has: layer `k` holds the first
/// `level_size(n, multiplier, k)` elements, each node is sound, no node of
/// a layer of two or more is without a neighbour, and each node's list has
/// grown out of the list it had in the layer above.
pub open spec fn graph_sound(graph: Seq<Seq<Seq<usize>>>, n: nat, multiplier: nat) -> bool {
    &&& n >= 1
    &&& multiplier >= 1
    &&& forall|k: int|
        0 <= k < graph.len() ==> (#[trigger] graph[k]).len() == level_size(n, multiplier, k as nat)
            && layer_sound(graph[k], graph[k].len()) && layer_linked(graph[k], graph[k].len())
    &&& forall|k: int, p: int|
        1 <= k < graph.len() && 0 <= p < graph[k - 1].len() ==> extends(
            graph[k - 1][p],
            #[trigger] graph[k][p],
        )
}

/// A sound layer is closed.
pub proof fn lemma_sound_closed(layer: Seq<Seq<usize>>)
    requires
        layer_sound(layer, layer.len()),
    ensures
        layer_closed(layer),
{
    assert forall|p: int, q: int|
        0 <= p < layer.len() && 0 <= q < layer[p].len() implies #[trigger] layer[p][q]
        < layer.len() by {
        assert(node_sound(layer[p], p, layer.len()));
    }
}

/// The layers of a sound graph are non-empty, closed and nested.
pub proof fn lemma_sound_nested(graph: Seq<Seq<Seq<usize>>>, n: nat, multiplier: nat)
    requires
        graph_sound(graph, n, multiplier),
    ensures
        nested(graph),
{
    assert forall|k: int| 0 <= k < graph.len() implies (#[trigger] graph[k]).len() > 0
        && layer_closed(graph[k]) by {
        lemma_level_size_grows(n, multiplier, k as nat, k as nat);
        lemma_sound_closed(graph[k]);
    }
    assert forall|k: int, l: int| 0 <= k <= l < graph.len() implies (#[trigger] graph[k]).len() <= (
    #[trigger] graph[l]).len() by {
        lemma_level_size_grows(n, multiplier, k as nat, l as nat);
    }
}

/// Builds the layer of `size` nodes below the finished layers.
pub fn build_layer<F: Fn(usize, usize) -> u64>(
    layers: &Vec<Vec<HnswNode>>,
    dist: &F,
    size: usize,
    max_search: usize,
) -> (layer: Vec<HnswNode>)
    requires
        layers.len() > 0,
        nested(graph_view(layers@)),
        layer_sound(graph_view(layers@).last(), graph_view(layers@).last().len()),
        layer_linked(graph_view(layers@).last(), graph_view(layers@).last().len()),
        layers[layers.len() - 1].len() <= size,
        measures_pairs(dist, size as nat),
        max_search > 0,
    ensures
        layer.len() == size,
        layer_sound(layer_view(layer@), size as nat),
        layer_linked(layer_view(layer@), size as nat),
        layer_view(layer@) == built_layer(
            graph_view(layers@),
            pairs(dist),
            max_search as nat,
            size as nat,
        ),
        forall|p: int|
            0 <= p < layers[layers.len() - 1].len() ==> extends(
                graph_view(layers@).last()[p],
                #[trigger] layer_view(layer@)[p],
            ),
{
    let ghost graph = graph_view(layers@);
    let ghost metric = pairs(dist);
    let above = &layers[layers.len() - 1];
    let ghost top = layer_view(above@);
    let inherited = above.len();
    proof {
        assert(graph.last() == top);
    }
    let mut layer: Vec<HnswNode> = Vec::with_capacity(size);
    let mut p: usize = 0;
    while p < inherited
        invariant
            p <= inherited,
            inherited == above.len(),
            layer.len() == p,
            forall|a: int| 0 <= a < p ==> (#[trigger] layer@[a])@ == above@[a]@,
        decreases inherited - p,
    {
        layer.push(above[p].clone());
        p += 1;
    }
    while p < size
        invariant
            inherited <= p <= size,
            inherited == above.len(),
            layer.len() == p,
            forall|a: int| 0 <= a < inherited ==> (#[trigger] layer@[a])@ == above@[a]@,
            forall|a: int| inherited <= a < p ==> (#[trigger] layer@[a])@ == Seq::<usize>::empty(),
        decreases size - p,
    {
        layer.push(HnswNode::default());
        p += 1;
    }
    let ghost fresh = layer_view(layer@);
    proof {
        assert(fresh =~= fresh_layer(top, size as nat));
        assert forall|a: int| 0 <= a < fresh.len() implies node_sound(
            #[trigger] fresh[a],
            a,
            inherited as nat,
        ) by {
            if a < inherited {
                assert(node_sound(top[a], a, top.len()));
            }
        }
        assert forall|a: int| 0 <= a < inherited && a < fresh.len() implies (#[trigger] fresh[a]).len()
            >= top[a].len() by {}
    }
    let mut idx: usize = inherited;
    while idx < size
        invariant
            inherited <= idx <= size,
            inherited == layers[layers.len() - 1].len(),
            layers.len() > 0,
            graph == graph_view(layers@),
            nested(graph),
            layer.len() == size,
            fresh.len() == size,
            metric == pairs(dist),
            measures_pairs(dist, size as nat),
            max_search > 0,
            layer_sound(layer_view(layer@), idx as nat),
            layer_linked(layer_view(layer@), idx as nat),
            layer_view(layer@) == grown(
                graph,
                fresh,
                metric,
                max_search as nat,
                inherited as nat,
                idx as nat,
            ),
            forall|a: int| 0 <= a < size ==> extends(#[trigger] fresh[a], layer_view(layer@)[a]),
        decreases size - idx,
    {
        let ghost rows = layer_view(layer@);
        insert_element(layers, &mut layer, dist, idx, max_search);
        proof {
            let next = layer_view(layer@);
            assert forall|a: int| 0 <= a < size implies extends(#[trigger] fresh[a], next[a]) by {
                assert(extends(rows[a], next[a]));
                lemma_extends_trans(fresh[a], rows[a], next[a]);
            }
        }
        idx += 1;
    }
    proof {
        assert forall|a: int| 0 <= a < inherited implies extends(
            graph.last()[a],
            #[trigger] layer_view(layer@)[a],
        ) by {
            assert(fresh[a] == top[a]);
            assert(extends(fresh[a], layer_view(layer@)[a]));
        }
    }
    layer
}

/// How a graph is to be built.
#[derive(Clone, Copy, Debug)]
pub struct Config {
    /// The number of layers.
    pub num_levels: usize,
    /// The factor by which each layer is larger than the one above it.
    pub level_multiplier: usize,
    /// The bound on the candidates expanded by one traversal during
    /// construction.
    pub max_search: usize,
}

impl Config {
    /// At least one layer, and a level multiplier and a search bound that
    /// are not zero.
    pub open spec fn valid(&self) -> bool {
        self.num_levels >= 1 && self.level_multiplier >= 1 && self.max_search >= 1
    }
}

impl Default for Config {
    fn default() -> (config: Self)
        ensures
            config.num_levels == LEVELS,
            config.level_multiplier == LEVEL_MULTIPLIER,
            config.max_search == MAX_INDEX_SEARCH,
    {
        Config {
            num_levels: LEVELS,
            level_multiplier: LEVEL_MULTIPLIER,
            max_search: MAX_INDEX_SEARCH,
        }
    }
}

/// Builds the layered graph over a corpus of `num_elements` elements. Its
/// view is the graph built so far, layer by layer; before the build it is
/// empty.
pub struct HnswBuilder {
    levels: Vec<Vec<HnswNode>>,
    num_elements: usize,
    config: Config,
}

impl View for HnswBuilder {
    type V = Seq<Seq<Seq<usize>>>;

    closed spec fn view(&self) -> Seq<Seq<Seq<usize>>> {
        graph_view(self.levels@)
    }
}

/// Why a build over `n` elements is refused, if it is.
pub open spec fn build_refusal(built: bool, config: Config, n: nat) -> Option<Error> {
    if built {
        Some(Error::AlreadyBuilt)
    } else if !config.valid() || config.num_levels * n > usize::MAX {
        Some(Error::InvalidConfig)
    } else if n == 0 {
        Some(Error::NoElements)
    } else {
        None
    }
}

impl HnswBuilder {
    /// The number of elements of the corpus.
    pub closed spec fn num_elements(&self) -> nat {
        self.num_elements as nat
    }

    /// The configuration the builder was made with.
    pub closed spec fn config(&self) -> Config {
        self.config
    }

    /// Either nothing is built, or the graph is complete and sound.
    pub open spec fn wf(&self) -> bool {
        self@.len() > 0 ==> {
            &&& self@.len() == self.config().num_levels
            &&& self.config().num_levels * self.num_elements() <= usize::MAX
            &&& graph_sound(self@, self.num_elements(), self.config().level_multiplier as nat)
        }
    }

    /// A builder with the default configuration for a corpus of
    /// `num_elements` elements.
    pub fn new(num_elements: usize) -> (builder: Self)
        ensures
            builder.wf(),
            builder@.len() == 0,
            builder.num_elements() == num_elements,
            builder.config().num_levels == LEVELS,
            builder.config().level_multiplier == LEVEL_MULTIPLIER,
            builder.config().max_search == MAX_INDEX_SEARCH,
    {
        HnswBuilder { levels: Vec::new(), num_elements, config: Config::default() }
    }

    /// A builder with the given configuration for a corpus of
    /// `num_elements` elements.
    pub fn with_config(num_elements: usize, config: Config) -> (builder: Self)
        ensures
            builder.wf(),
            builder@.len() == 0,
            builder.num_elements() == num_elements,
            builder.config() == config,
    {
        HnswBuilder { levels: Vec::new(), num_elements, config }
    }

    /// Builds all layers, top layer first, inserting the elements of each
    /// layer in the order of their indices.
    pub fn build_index<F: Fn(usize, usize) -> u64>(&mut self, dist: &F) -> (result: Result<
        (),
        Error,
    >)
        requires
            old(self).wf(),
            measures_pairs(dist, old(self).num_elements()),
        ensures
            final(self).wf(),
            final(self).num_elements() == old(self).num_elements(),
            final(self).config() == old(self).config(),
            result == match build_refusal(
                old(self)@.len() > 0,
                old(self).config(),
                old(self).num_elements(),
            ) {
                Some(e) => Err::<(), Error>(e),
                None => Ok(()),
            },
            result is Err ==> final(self)@ == old(self)@,
            result is Ok ==> final(self)@ == built_graph(
                final(self).num_elements(),
                pairs(dist),
                final(self).config().level_multiplier as nat,
                final(self).config().max_search as nat,
                final(self).config().num_levels as nat,
            ),
            result is Ok ==> final(self)@.len() == final(self).config().num_levels && graph_sound(
                final(self)@,
                final(self).num_elements(),
                final(self).config().level_multiplier as nat,
            ),
    {
        let n = self.num_elements;
        let multiplier = self.config.level_multiplier;
        let max_search = self.config.max_search;
        let num_levels = self.config.num_levels;
        if self.levels.len() > 0 {
            return Err(Error::AlreadyBuilt);
        }
        if num_levels == 0 || multiplier == 0 || max_search == 0 {
            return Err(Error::InvalidConfig);
        }
        if num_levels.checked_mul(n).is_none() {
            return Err(Error::InvalidConfig);
        }
        if n == 0 {
            return Err(Error::NoElements);
        }
        let ghost metric = pairs(dist);
        let mut top: Vec<HnswNode> = Vec::new();
        top.push(HnswNode::default());
        self.levels.push(top);
        proof {
            let graph = graph_view(self.levels@);
            assert(graph[0] =~= seq![Seq::<usize>::empty()]);
            assert(graph =~= seq![seq![Seq::<usize>::empty()]]);
            vstd::arithmetic::power::lemma_pow0(multiplier as int);
            assert(node_sound(graph[0][0], 0, 1));
            assert(layer_sound(graph[0], 1));
        }
        let mut size: usize = 1;
        let mut level: usize = 1;
        while level < num_levels
            invariant
                1 <= level <= num_levels,
                n >= 1,
                multiplier >= 1,
                max_search >= 1,
                self.num_elements == n,
                self.config == old(self).config,
                self.config.level_multiplier == multiplier,
                self.config.max_search == max_search,
                self.config.num_levels == num_levels,
                num_levels * n <= usize::MAX,
                metric == pairs(dist),
                measures_pairs(dist, n as nat),
                self.levels.len() == level,
                size == level_size(n as nat, multiplier as nat, (level - 1) as nat),
                graph_sound(graph_view(self.levels@), n as nat, multiplier as nat),
                graph_view(self.levels@) == built_graph(
                    n as nat,
                    metric,
                    multiplier as nat,
                    max_search as nat,
                    level as nat,
                ),
            decreases num_levels - level,
        {
            let ghost graph = graph_view(self.levels@);
            let above = size;
            size = next_size(size, multiplier, n, Ghost((level - 1) as nat));
            proof {
                lemma_sound_nested(graph, n as nat, multiplier as nat);
                lemma_level_size_grows(n as nat, multiplier as nat, (level - 1) as nat, level as nat);
                assert(graph.last() == graph[level - 1]);
                assert(graph[level - 1].len() == self.levels[level - 1].len());
            }
            let new_layer = build_layer(&self.levels, dist, size, max_search);
            self.levels.push(new_layer);
            proof {
                let next = graph_view(self.levels@);
                assert(next =~= graph.push(layer_view(new_layer@)));
                assert forall|k: int| 0 <= k < next.len() implies (#[trigger] next[k]).len()
                    == level_size(n as nat, multiplier as nat, k as nat) && layer_sound(
                    next[k],
                    next[k].len(),
                ) && layer_linked(next[k], next[k].len()) by {
                    if k < level {
                        assert(next[k] == graph[k]);
                    }
                }
                assert forall|k: int, p: int|
                    1 <= k < next.len() && 0 <= p < next[k - 1].len() implies extends(
                    next[k - 1][p],
                    #[trigger] next[k][p],
                ) by {
                    if k < level {
                        assert(next[k] == graph[k] && next[k - 1] == graph[k - 1]);
                        assert(extends(graph[k - 1][p], graph[k][p]));
                    }
                }
            }
            level += 1;
        }
        Ok(())
    }

    /// The number of elements of the corpus.
    pub fn len(&self) -> (n: usize)
        ensures
            n == self.num_elements(),
    {
        self.num_elements
    }

    /// Whether the graph has been built.
    pub fn is_built(&self) -> (built: bool)
        ensures
            built == (self@.len() > 0),
    {
        self.levels.len() > 0
    }

    /// The number of layers built.
    pub fn num_levels(&self) -> (n: usize)
        ensures
            n == self@.len(),
    {
        self.levels.len()
    }

    /// The number of nodes in layer `k`.
    pub fn level_len(&self, k: usize) -> (n: usize)
        requires
            k < self@.len(),
        ensures
            n == self@[k as int].len(),
    {
        self.levels[k].len()
    }

    /// The neighbours of node `i` in layer `k`.
    pub fn neighbors(&self, k: usize, i: usize) -> (out: Vec<usize>)
        requires
            k < self@.len(),
            i < self@[k as int].len(),
        ensures
            out@ == self@[k as int][i as int],
    {
        self.levels[k][i].neighbors()
    }

    /// Appends the byte image of the built graph to `buffer`.
    pub fn write(&self, buffer: &mut Vec<u8>) -> (result: Result<(), Error>)
        requires
            self.wf(),
        ensures
            match result {
                Ok(()) => self@.len() > 0 && final(buffer)@ == old(buffer)@ + image(self@),
                Err(e) => e == Error::NotBuilt && self@.len() == 0 && final(buffer)@ == old(
                    buffer,
                )@,
            },
    {
        if self.levels.len() == 0 {
            return Err(Error::NotBuilt);
        }
        proof {
            lemma_sound_encodable(
                self@,
                self.num_elements as nat,
                self.config.level_multiplier as nat,
            );
        }
        write_graph(&self.levels, buffer);
        Ok(())
    }

    /// A query view of the built graph.
    pub fn get_index(&self) -> (result: Result<Hnsw, Error>)
        requires
            self.wf(),
        ensures
            match result {
                Ok(index) => self@.len() > 0 && index@ == self@ && index.num_elements()
                    == self.num_elements() && index.wf(),
                Err(e) => e == Error::NotBuilt && self@.len() == 0,
            },
    {
        let count = self.levels.len();
        if count == 0 {
            return Err(Error::NotBuilt);
        }
        let mut levels: Vec<Vec<HnswNode>> = Vec::with_capacity(count);
        let mut k: usize = 0;
        while k < count
            invariant
                k <= count,
                count == self.levels.len(),
                levels.len() == k,
                forall|a: int|
                    0 <= a < k ==> layer_view((#[trigger] levels@[a])@) == layer_view(
                        self.levels@[a]@,
                    ),
            decreases count - k,
        {
            let source = &self.levels[k];
            let size = source.len();
            let mut layer: Vec<HnswNode> = Vec::with_capacity(size);
            let mut i: usize = 0;
            while i < size
                invariant
                    i <= size,
                    size == source.len(),
                    layer.len() == i,
                    forall|a: int| 0 <= a < i ==> (#[trigger] layer@[a])@ == source@[a]@,
                decreases size - i,
            {
                layer.push(source[i].clone());
                i += 1;
            }
            proof {
                assert(layer_view(layer@) =~= layer_view(source@));
            }
            levels.push(layer);
            k += 1;
        }
        proof {
            assert(graph_view(levels@) =~= graph_view(self.levels@));
            lemma_sound_searchable(
                self@,
                self.num_elements as nat,
                self.config.level_multiplier as nat,
            );
        }
        Ok(Hnsw::from_layers(levels, self.num_elements))
    }
}

/// The first `k` layers of a sound graph over `n` elements hold at most
/// `k * n` nodes.
pub proof fn lemma_sound_total(graph: Seq<Seq<Seq<usize>>>, n: nat, multiplier: nat, k: int)
    requires
        graph_sound(graph, n, multiplier),
        0 <= k <= graph.len(),
    ensures
        nodes_before(graph, k) <= k * n,
    decreases k,
{
    if k > 0 {
        lemma_sound_total(graph, n, multiplier, k - 1);
        lemma_level_size_grows(n, multiplier, (k - 1) as nat, (k - 1) as nat);
        assert((k - 1) * n + n == k * n) by (nonlinear_arith);
    }
}

/// A sound graph whose nodes can be counted in a machine word has an image.
pub proof fn lemma_sound_encodable(graph: Seq<Seq<Seq<usize>>>, n: nat, multiplier: nat)
    requires
        graph_sound(graph, n, multiplier),
        graph.len() * n <= usize::MAX,
    ensures
        encodable(graph),
{
    lemma_sound_total(graph, n, multiplier, graph.len() as int);
    assert(graph.len() <= graph.len() * n) by (nonlinear_arith)
        requires
            n >= 1,
    ;
    assert forall|k: int, i: int|
        0 <= k < graph.len() && 0 <= i < graph[k].len() implies (#[trigger] graph[k][i]).len()
        <= MAX_NEIGHBORS by {
        assert(node_sound(graph[k][i], i, graph[k].len()));
    }
}

/// A sound graph with a layer can be searched over its elements.
pub proof fn lemma_sound_searchable(graph: Seq<Seq<Seq<usize>>>, n: nat, multiplier: nat)
    requires
        graph_sound(graph, n, multiplier),
        graph.len() >= 1,
    ensures
        searchable(graph, n),
{
    lemma_sound_nested(graph, n, multiplier);
    lemma_level_size_grows(n, multiplier, (graph.len() - 1) as nat, (graph.len() - 1) as nat);
}

} // verus!
