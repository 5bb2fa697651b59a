//! What holds of every built graph, of its image, and of searches over it.

use crate::builder::{
    fresh_layer, graph_sound, lemma_level_size_grows, lemma_sound_encodable,
    lemma_sound_searchable, level_size,
};
use crate::codec::{image, image_graph, image_valid, lemma_image_round_trip};
use crate::heap::{
    best, closer, is_top, lemma_has_top, lemma_in_order, lemma_top_unique, offer, worst, Candidate,
};
use crate::index::{search_result, searchable, MAX_SEARCH};
use crate::link::{extends, layer_linked, node_sound};
use crate::node::MAX_NEIGHBORS;
use crate::traversal::{descend, expand, nearest, start, walk};
use vstd::arithmetic::power::{lemma_pow0, lemma_pow1, lemma_pow_increases};
use vstd::multiset::Multiset;
use vstd::prelude::*;

verus! {

broadcast use vstd::multiset::group_multiset_axioms;

/// No node of a built graph has more than `MAX_NEIGHBORS` neighbours.
pub proof fn lemma_degree_bounded(
    graph: Seq<Seq<Seq<usize>>>,
    n: nat,
    multiplier: nat,
    k: int,
    i: int,
)
    requires
        graph_sound(graph, n, multiplier),
        0 <= k < graph.len(),
        0 <= i < graph[k].len(),
    ensures
        graph[k][i].len() <= MAX_NEIGHBORS,
{
    assert(node_sound(graph[k][i], i, graph[k].len()));
}

/// Every neighbour of a node of a built graph is another node of the same
/// layer.
pub proof fn lemma_neighbors_in_layer(
    graph: Seq<Seq<Seq<usize>>>,
    n: nat,
    multiplier: nat,
    k: int,
    i: int,
    q: int,
)
    requires
        graph_sound(graph, n, multiplier),
        0 <= k < graph.len(),
        0 <= i < graph[k].len(),
        0 <= q < graph[k][i].len(),
    ensures
        graph[k][i][q] != i,
        graph[k][i][q] < graph[k].len(),
{
    assert(node_sound(graph[k][i], i, graph[k].len()));
}

/// No node of a built graph names a neighbour twice.
pub proof fn lemma_neighbors_distinct(
    graph: Seq<Seq<Seq<usize>>>,
    n: nat,
    multiplier: nat,
    k: int,
    i: int,
    q: int,
    r: int,
)
    requires
        graph_sound(graph, n, multiplier),
        0 <= k < graph.len(),
        0 <= i < graph[k].len(),
        0 <= q < graph[k][i].len(),
        0 <= r < graph[k][i].len(),
        q != r,
    ensures
        graph[k][i][q] != graph[k][i][r],
{
    assert(node_sound(graph[k][i], i, graph[k].len()));
}

/// In a layer of two or more nodes, every node has a neighbour.
pub proof fn lemma_no_node_alone(
    graph: Seq<Seq<Seq<usize>>>,
    n: nat,
    multiplier: nat,
    k: int,
    i: int,
)
    requires
        graph_sound(graph, n, multiplier),
        0 <= k < graph.len(),
        0 <= i < graph[k].len(),
        graph[k].len() >= 2,
    ensures
        graph[k][i].len() >= 1,
{
    assert(layer_linked(graph[k], graph[k].len()));
}

/// Construction of a layer starts from a copy of the layer above: every
/// node of that layer has its neighbours, every further node has none.
pub proof fn lemma_fresh_layer_copies(above: Seq<Seq<usize>>, size: nat, i: int)
    requires
        above.len() <= size,
        0 <= i < size,
    ensures
        fresh_layer(above, size).len() == size,
        i < above.len() ==> fresh_layer(above, size)[i] == above[i],
        i >= above.len() ==> fresh_layer(above, size)[i] == Seq::<usize>::empty(),
{
}

/// A node that is not full still has every neighbour that it had in the
/// layer above, in the same place.
pub proof fn lemma_inherited_neighbors_kept(
    graph: Seq<Seq<Seq<usize>>>,
    n: nat,
    multiplier: nat,
    k: int,
    i: int,
    q: int,
)
    requires
        graph_sound(graph, n, multiplier),
        1 <= k < graph.len(),
        0 <= i < graph[k - 1].len(),
        0 <= q < graph[k - 1][i].len(),
        graph[k][i].len() < MAX_NEIGHBORS,
    ensures
        i < graph[k].len(),
        q < graph[k][i].len(),
        graph[k][i][q] == graph[k - 1][i][q],
        graph[k][i].contains(graph[k - 1][i][q]),
{
    lemma_level_size_grows(n, multiplier, (k - 1) as nat, k as nat);
    assert(extends(graph[k - 1][i], graph[k][i]));
    let kept = graph[k][i].subrange(0, graph[k - 1][i].len() as int);
    assert(kept[q] == graph[k][i][q]);
}

/// No node loses neighbours from one layer to the next: its list in the
/// lower layer is at least as long.
pub proof fn lemma_lists_never_shrink(
    graph: Seq<Seq<Seq<usize>>>,
    n: nat,
    multiplier: nat,
    k: int,
    i: int,
)
    requires
        graph_sound(graph, n, multiplier),
        1 <= k < graph.len(),
        0 <= i < graph[k - 1].len(),
    ensures
        i < graph[k].len(),
        graph[k - 1][i].len() <= graph[k][i].len(),
{
    lemma_level_size_grows(n, multiplier, (k - 1) as nat, k as nat);
    assert(extends(graph[k - 1][i], graph[k][i]));
}

/// A graph over a single element has one node without neighbours in every
/// layer.
pub proof fn lemma_single_element_graph(graph: Seq<Seq<Seq<usize>>>, multiplier: nat, k: int)
    requires
        graph_sound(graph, 1, multiplier),
        0 <= k < graph.len(),
    ensures
        graph[k] == seq![Seq::<usize>::empty()],
{
    lemma_level_size_grows(1, multiplier, k as nat, k as nat);
    assert(node_sound(graph[k][0], 0, 1));
    if graph[k][0].len() > 0 {
        assert(graph[k][0][0] < 1 && graph[k][0][0] != 0);
    }
    assert(graph[k][0] =~= Seq::<usize>::empty());
    assert(graph[k] =~= seq![Seq::<usize>::empty()]);
}

/// With fewer elements than the level multiplier, the top layer has one
/// node and every other layer has all of them.
pub proof fn lemma_small_corpus_levels(n: nat, multiplier: nat, k: nat)
    requires
        1 <= n < multiplier,
    ensures
        level_size(n, multiplier, 0) == 1,
        k >= 1 ==> level_size(n, multiplier, k) == n,
{
    lemma_pow0(multiplier as int);
    if k >= 1 {
        lemma_pow1(multiplier as int);
        lemma_pow_increases(multiplier, 1, k);
    }
}

/// A traversal of a lone node finds that node.
pub proof fn lemma_lone_node_nearest(
    goal: spec_fn(usize) -> u64,
    max_search: nat,
    max_neighbors: nat,
)
    requires
        max_search >= 1,
        max_neighbors >= 1,
    ensures
        nearest(seq![Seq::<usize>::empty()], 0, goal, max_search, max_neighbors)
            == Multiset::singleton((goal(0), 0usize)),
{
    let layer = seq![Seq::<usize>::empty()];
    let c: Candidate = (goal(0), 0usize);
    let w0 = start(0, goal);
    assert(w0.frontier.len() == 1);
    assert(is_top(w0.frontier, c, true));
    lemma_top_unique(w0.frontier, c, best(w0.frontier), true);
    let w1 = expand(w0, layer, goal, max_neighbors);
    assert(layer[0].len() == 0);
    assert(w1.frontier =~= Multiset::<Candidate>::empty());
    assert(w1.found =~= Multiset::singleton(c));
    assert(walk(w0, layer, goal, max_neighbors, max_search) == walk(
        w1,
        layer,
        goal,
        max_neighbors,
        (max_search - 1) as nat,
    ));
    assert(walk(w1, layer, goal, max_neighbors, (max_search - 1) as nat) == w1);
}

/// A descent through layers of a lone node stays at node 0.
pub proof fn lemma_lone_node_descent(
    graph: Seq<Seq<Seq<usize>>>,
    goal: spec_fn(usize) -> u64,
    max_search: nat,
    count: nat,
)
    requires
        count <= graph.len(),
        forall|k: int| 0 <= k < graph.len() ==> #[trigger] graph[k] == seq![Seq::<usize>::empty()],
        max_search >= 1,
    ensures
        descend(graph, goal, max_search, count) == 0,
    decreases count,
{
    if count > 0 {
        lemma_lone_node_descent(graph, goal, max_search, (count - 1) as nat);
        lemma_lone_node_nearest(goal, max_search, 1);
        let c: Candidate = (goal(0), 0usize);
        assert(graph[count - 1] == seq![Seq::<usize>::empty()]);
        assert(is_top(Multiset::singleton(c), c, true));
        lemma_top_unique(Multiset::singleton(c), c, best(Multiset::singleton(c)), true);
    }
}

/// A query for one neighbour over a single element returns that element
/// with its distance.
pub proof fn lemma_single_element_search(
    graph: Seq<Seq<Seq<usize>>>,
    goal: spec_fn(usize) -> u64,
    max_search: nat,
)
    requires
        graph.len() >= 1,
        forall|k: int| 0 <= k < graph.len() ==> #[trigger] graph[k] == seq![Seq::<usize>::empty()],
        max_search >= 1,
    ensures
        search_result(graph, goal, 1, max_search) == seq![(0usize, goal(0))],
{
    let c: Candidate = (goal(0), 0usize);
    lemma_lone_node_descent(graph, goal, MAX_SEARCH as nat, (graph.len() - 1) as nat);
    lemma_lone_node_nearest(goal, max_search, 1);
    assert(graph.last() == seq![Seq::<usize>::empty()]);
    let s = seq![c];
    s.to_multiset_ensures();
    assert(s.to_multiset() =~= Multiset::singleton(c)) by {
        assert(Seq::<Candidate>::empty().push(c) =~= s);
        assert(Seq::<Candidate>::empty().to_multiset() =~= Multiset::<Candidate>::empty()) by {
            Seq::<Candidate>::empty().to_multiset_ensures();
        }
        vstd::seq_lib::to_multiset_build(Seq::<Candidate>::empty(), c);
    }
    lemma_in_order(s);
    assert(s.map_values(|c: Candidate| (c.1, c.0)) =~= seq![(0usize, goal(0))]);
}

/// The image of a built graph is valid and holds that graph, which can be
/// searched.
pub proof fn lemma_saved_graph_loads(graph: Seq<Seq<Seq<usize>>>, n: nat, multiplier: nat)
    requires
        graph_sound(graph, n, multiplier),
        graph.len() >= 1,
        graph.len() * n <= usize::MAX,
    ensures
        image_valid(image(graph), n),
        image_graph(image(graph)) == graph,
        searchable(image_graph(image(graph)), n),
{
    lemma_sound_encodable(graph, n, multiplier);
    lemma_sound_searchable(graph, n, multiplier);
    lemma_image_round_trip(graph, n);
}

/// A query over the graph read back from the image of a built graph
/// returns what the same query over the built graph returns.
pub proof fn lemma_loaded_search_agrees(
    graph: Seq<Seq<Seq<usize>>>,
    n: nat,
    multiplier: nat,
    goal: spec_fn(usize) -> u64,
    k: nat,
    max_search: nat,
)
    requires
        graph_sound(graph, n, multiplier),
        graph.len() >= 1,
        graph.len() * n <= usize::MAX,
    ensures
        search_result(image_graph(image(graph)), goal, k, max_search) == search_result(
            graph,
            goal,
            k,
            max_search,
        ),
{
    lemma_saved_graph_loads(graph, n, multiplier);
}

/// What a bounded collection holds after the items were offered to it in
/// turn.
pub open spec fn offer_all(items: Seq<Candidate>, bound: nat) -> Multiset<Candidate>
    decreases items.len(),
{
    if items.len() == 0 {
        Multiset::empty()
    } else {
        offer(offer_all(items.drop_last(), bound), bound, items.last())
    }
}

/// A collection that is not empty has a farthest item.
pub proof fn lemma_has_worst(m: Multiset<Candidate>)
    requires
        m.len() > 0,
    ensures
        is_top(m, worst(m), false),
{
    lemma_has_top(m, false);
}

/// A bounded collection holds the closest of the items offered to it: it
/// holds only offered items, as many as were offered up to its bound, and
/// no item that it left out is closer than one that it holds.
pub proof fn lemma_offer_keeps_closest(items: Seq<Candidate>, bound: nat)
    ensures
        offer_all(items, bound).subset_of(items.to_multiset()),
        offer_all(items, bound).len() == if items.len() < bound {
            items.len()
        } else {
            bound
        },
        items.len() <= bound ==> offer_all(items, bound) == items.to_multiset(),
        forall|x: Candidate, y: Candidate|
            #![trigger offer_all(items, bound).count(x), items.to_multiset().count(y)]
            offer_all(items, bound).count(x) > 0 && items.to_multiset().count(y) > offer_all(
                items,
                bound,
            ).count(y) ==> !closer(y, x),
    decreases items.len(),
{
    let kept = offer_all(items, bound);
    let all = items.to_multiset();
    if items.len() == 0 {
        items.to_multiset_ensures();
        assert(all =~= Multiset::<Candidate>::empty());
    } else {
        let front = items.drop_last();
        let x = items.last();
        let prev = offer_all(front, bound);
        let before = front.to_multiset();
        lemma_offer_keeps_closest(front, bound);
        assert(items =~= front.push(x));
        vstd::seq_lib::to_multiset_build(front, x);
        assert(all =~= before.insert(x));
        items.to_multiset_ensures();
        front.to_multiset_ensures();
        if prev.len() < bound {
            assert(prev == before);
            assert(kept =~= all);
        } else if prev.len() > 0 && closer(x, worst(prev)) {
            lemma_has_worst(prev);
            let w = worst(prev);
            assert(Multiset::singleton(w).subset_of(prev));
            assert(kept == prev.remove(w).insert(x));
            assert forall|v: Candidate| kept.count(v) <= all.count(v) by {
                assert(prev.count(v) <= before.count(v));
            }
            assert forall|a: Candidate, y: Candidate|
                #![trigger kept.count(a), all.count(y)]
                kept.count(a) > 0 && all.count(y) > kept.count(y) implies !closer(y, a) by {
                assert(prev.count(w) > 0);
                if before.count(y) > prev.count(y) {
                    // left out before
                    assert(!closer(y, w));
                    if a != x {
                        assert(prev.count(a) > 0);
                    }
                } else {
                    // the one that was evicted
                    assert(y == w);
                    if a != x {
                        assert(prev.count(a) > 0);
                        assert(!closer(w, a));
                    }
                }
            }
        } else {
            assert(kept == prev);
            assert forall|v: Candidate| kept.count(v) <= all.count(v) by {
                assert(prev.count(v) <= before.count(v));
            }
            if prev.len() > 0 {
                lemma_has_worst(prev);
            } else {
                vstd::multiset::lemma_multiset_empty_len(prev);
            }
            assert forall|a: Candidate, y: Candidate|
                #![trigger kept.count(a), all.count(y)]
                kept.count(a) > 0 && all.count(y) > kept.count(y) implies !closer(y, a) by {
                let w = worst(prev);
                assert(!closer(w, a));
                if before.count(y) > prev.count(y) {
                } else {
                    assert(y == x);
                    assert(!closer(x, w));
                }
            }
        }
    }
}

} // verus!
