//! Bounded best-first traversal of one layer, and the descent through the
//! upper layers that finds where to start it.
//!
//! The traversal is stated once, as a mathematical function on states, and
//! offered twice: as a whole, for a layer that can be read freely, and step
//! by step, for a caller that has to fetch each node's neighbours itself,
//! as when every node sits behind a lock.

use crate::heap::{ascending, best, closer, is_top, lemma_top_unique, offer, Candidate, Frontier, MaxSizeHeap};
use crate::metric::{lemma_measures_reports, measures, reports, to_goal};
use crate::node::{graph_view, is_linked, layer_closed, layer_view, nested, HnswNode};
use std::collections::HashSet;
use vstd::multiset::Multiset;
use vstd::prelude::*;

verus! {

broadcast use {vstd::std_specs::hash::group_hash_axioms, vstd::multiset::group_multiset_axioms};

/// The state of a traversal: the candidates discovered but not yet
/// expanded, the indices discovered so far, and the best candidates among
/// those expanded.
pub struct Walk {
    pub frontier: Multiset<Candidate>,
    pub visited: Set<usize>,
    pub found: Multiset<Candidate>,
}

/// The state made of its three parts.
pub open spec fn walk_of(
    frontier: Multiset<Candidate>,
    visited: Set<usize>,
    found: Multiset<Candidate>,
) -> Walk {
    Walk { frontier, visited, found }
}

/// Where a traversal begins: only the entry point is known, with its
/// distance.
pub open spec fn begun(entry: usize, distance: u64) -> Walk {
    Walk {
        frontier: Multiset::singleton((distance, entry)),
        visited: Set::empty().insert(entry),
        found: Multiset::empty(),
    }
}

/// Where a traversal towards `dist` begins.
pub open spec fn start(entry: usize, dist: spec_fn(usize) -> u64) -> Walk {
    begun(entry, dist(entry))
}

/// Every neighbour in `nbrs` that was not discovered before joins the
/// frontier with its distance.
pub open spec fn discover(w: Walk, nbrs: Seq<usize>, dist: spec_fn(usize) -> u64) -> Walk
    decreases nbrs.len(),
{
    if nbrs.len() == 0 {
        w
    } else {
        let prev = discover(w, nbrs.drop_last(), dist);
        let n = nbrs.last();
        if prev.visited.contains(n) {
            prev
        } else {
            Walk {
                frontier: prev.frontier.insert((dist(n), n)),
                visited: prev.visited.insert(n),
                found: prev.found,
            }
        }
    }
}

/// The first half of a step: the closest candidate leaves the frontier and
/// is offered to the bounded result.
pub open spec fn popped(w: Walk, max_neighbors: nat) -> Walk {
    Walk {
        frontier: w.frontier.remove(best(w.frontier)),
        visited: w.visited,
        found: offer(w.found, max_neighbors, best(w.frontier)),
    }
}

/// One step: the closest candidate leaves the frontier, is offered to the
/// bounded result, and its neighbours are discovered.
pub open spec fn expand(
    w: Walk,
    layer: Seq<Seq<usize>>,
    dist: spec_fn(usize) -> u64,
    max_neighbors: nat,
) -> Walk {
    discover(popped(w, max_neighbors), layer[best(w.frontier).1 as int], dist)
}

/// Steps until the frontier is empty or `budget` steps are done.
pub open spec fn walk(
    w: Walk,
    layer: Seq<Seq<usize>>,
    dist: spec_fn(usize) -> u64,
    max_neighbors: nat,
    budget: nat,
) -> Walk
    decreases budget,
{
    if budget == 0 || w.frontier.len() == 0 {
        w
    } else {
        walk(expand(w, layer, dist, max_neighbors), layer, dist, max_neighbors, (budget - 1) as nat)
    }
}

/// The candidates that a traversal from `entry` ends with.
pub open spec fn nearest(
    layer: Seq<Seq<usize>>,
    entry: usize,
    dist: spec_fn(usize) -> u64,
    max_search: nat,
    max_neighbors: nat,
) -> Multiset<Candidate> {
    walk(start(entry, dist), layer, dist, max_neighbors, max_search).found
}

/// No candidate is held twice, and each one held names a node of the layer
/// that has been discovered, carries the distance that `g` returned for
/// that node, and is the entry point or somebody's neighbour.
spec fn tidy<G: Fn(usize) -> u64>(
    w: Walk,
    layer: Seq<Seq<usize>>,
    entry: usize,
    dist: spec_fn(usize) -> u64,
    g: &G,
) -> bool {
    &&& forall|c: Candidate|
        #![trigger w.frontier.count(c)]
        #![trigger w.found.count(c)]
        w.frontier.count(c) + w.found.count(c) <= 1
    &&& forall|c: Candidate|
        #![trigger w.frontier.count(c)]
        #![trigger w.found.count(c)]
        w.frontier.count(c) > 0 || w.found.count(c) > 0 ==> {
            &&& c.1 < layer.len()
            &&& c.0 == dist(c.1)
            &&& call_ensures(*g, (c.1,), c.0)
            &&& w.visited.contains(c.1)
            &&& (c.1 == entry || is_linked(layer, c.1))
        }
}

/// Candidates with distinct indices below `n` are at most `n`.
pub proof fn lemma_distinct_indices_bounded(s: Seq<Candidate>, n: nat)
    requires
        forall|i: int| 0 <= i < s.len() ==> (#[trigger] s[i]).1 < n,
        forall|i: int, j: int| 0 <= i < j < s.len() ==> (#[trigger] s[i]).1 != (#[trigger] s[j]).1,
    ensures
        s.len() <= n,
    decreases n,
{
    if n == 0 {
        if s.len() > 0 {
            assert(s[0].1 < n);
        }
    } else if exists|k: int| 0 <= k < s.len() && (#[trigger] s[k]).1 == n - 1 {
        let k = choose|k: int| 0 <= k < s.len() && (#[trigger] s[k]).1 == n - 1;
        let t = s.remove(k);
        assert forall|i: int| 0 <= i < t.len() implies (#[trigger] t[i]).1 < n - 1 by {
            if i < k {
                assert(t[i] == s[i]);
            } else {
                assert(t[i] == s[i + 1]);
            }
        }
        assert forall|i: int, j: int| 0 <= i < j < t.len() implies (#[trigger] t[i]).1 != (
        #[trigger] t[j]).1 by {
            let a = if i < k { i } else { i + 1 };
            let b = if j < k { j } else { j + 1 };
            assert(t[i] == s[a] && t[j] == s[b]);
        }
        lemma_distinct_indices_bounded(t, (n - 1) as nat);
    } else {
        assert forall|i: int| 0 <= i < s.len() implies (#[trigger] s[i]).1 < n - 1 by {
            assert(s[i].1 < n);
        }
        lemma_distinct_indices_bounded(s, (n - 1) as nat);
    }
}

/// A traversal in progress, one step at a time, for a caller that fetches
/// the neighbours of each node itself. Its view is the state of the
/// traversal.
pub struct Traversal {
    found: MaxSizeHeap,
    frontier: Frontier,
    visited: HashSet<usize>,
    budget: usize,
}

impl View for Traversal {
    type V = Walk;

    closed spec fn view(&self) -> Walk {
        walk_of(self.frontier@, self.visited@, self.found@)
    }
}

impl Traversal {
    /// Both heaps are in order.
    pub closed spec fn wf(&self) -> bool {
        self.found.wf() && self.frontier.wf()
    }

    /// The number of candidates that may still be expanded.
    pub closed spec fn budget(&self) -> nat {
        self.budget as nat
    }

    /// The number of candidates that the result can hold.
    pub closed spec fn bound(&self) -> nat {
        self.found.bound()
    }

    /// A traversal from `entrypoint`, whose distance to the goal is
    /// `distance`, that expands at most `max_search` candidates and keeps
    /// the `max_neighbors` closest of them.
    pub fn begin(entrypoint: usize, distance: u64, max_search: usize, max_neighbors: usize) -> (t:
        Self)
        ensures
            t.wf(),
            t@ == begun(entrypoint, distance),
            t.budget() == max_search,
            t.bound() == max_neighbors,
    {
        let found = MaxSizeHeap::new(max_neighbors);
        let mut frontier = Frontier::new();
        let mut visited: HashSet<usize> = HashSet::new();
        frontier.push((distance, entrypoint));
        visited.insert(entrypoint);
        proof {
            assert(frontier@ =~= Multiset::singleton((distance, entrypoint)));
        }
        Traversal { found, frontier, visited, budget: max_search }
    }

    /// Takes the closest candidate off the frontier, offers it to the
    /// result and returns its index, for its neighbours to be discovered.
    /// Returns nothing when the budget is spent or the frontier is empty.
    pub fn next(&mut self) -> (at: Option<usize>)
        requires
            old(self).wf(),
        ensures
            final(self).wf(),
            final(self).bound() == old(self).bound(),
            final(self)@.found.len() <= old(self)@.found.len() + 1,
            match at {
                Some(idx) => {
                    &&& old(self).budget() > 0
                    &&& old(self)@.frontier.len() > 0
                    &&& is_top(old(self)@.frontier, best(old(self)@.frontier), true)
                    &&& idx == best(old(self)@.frontier).1
                    &&& final(self)@ == popped(old(self)@, old(self).bound())
                    &&& final(self)@.found.len() <= final(self).bound()
                    &&& final(self).budget() == old(self).budget() - 1
                },
                None => {
                    &&& (old(self).budget() == 0 || old(self)@.frontier.len() == 0)
                    &&& final(self)@ == old(self)@
                    &&& final(self).budget() == old(self).budget()
                },
            },
    {
        if self.budget == 0 {
            return None;
        }
        let ghost before = self@;
        match self.frontier.pop() {
            Some(x) => {
                proof {
                    lemma_top_unique(before.frontier, x, best(before.frontier), true);
                }
                self.found.push(x);
                self.budget = self.budget - 1;
                Some(x.1)
            },
            None => None,
        }
    }

    /// Marks node `n` as discovered and says whether it was new. The
    /// distance of a new node is to be handed to `push`.
    pub fn discover(&mut self, n: usize) -> (fresh: bool)
        requires
            old(self).wf(),
        ensures
            final(self).wf(),
            final(self).bound() == old(self).bound(),
            final(self).budget() == old(self).budget(),
            fresh == !old(self)@.visited.contains(n),
            final(self)@ == walk_of(
                old(self)@.frontier,
                old(self)@.visited.insert(n),
                old(self)@.found,
            ),
    {
        self.visited.insert(n)
    }

    /// Puts node `n`, at `distance` from the goal, on the frontier.
    pub fn push(&mut self, n: usize, distance: u64)
        requires
            old(self).wf(),
        ensures
            final(self).wf(),
            final(self).bound() == old(self).bound(),
            final(self).budget() == old(self).budget(),
            final(self)@ == walk_of(
                old(self)@.frontier.insert((distance, n)),
                old(self)@.visited,
                old(self)@.found,
            ),
    {
        self.frontier.push((distance, n));
    }

    /// Ends the traversal and returns the result, closest candidate first.
    pub fn finish(self) -> (out: Vec<Candidate>)
        requires
            self.wf(),
        ensures
            ascending(out@),
            out@.to_multiset() == self@.found,
    {
        self.found.into_sorted_vec()
    }
}

fn discover_neighbors<G: Fn(usize) -> u64>(
    node: &HnswNode,
    dist: &G,
    t: &mut Traversal,
    Ghost(goal): Ghost<spec_fn(usize) -> u64>,
    Ghost(layer): Ghost<Seq<Seq<usize>>>,
    Ghost(entry): Ghost<usize>,
    Ghost(p): Ghost<int>,
)
    requires
        old(t).wf(),
        reports(dist, goal, layer.len()),
        layer_closed(layer),
        0 <= p < layer.len(),
        layer[p] == node@,
        tidy(old(t)@, layer, entry, goal, dist),
    ensures
        final(t).wf(),
        final(t).bound() == old(t).bound(),
        final(t).budget() == old(t).budget(),
        final(t)@ == discover(old(t)@, node@, goal),
        final(t)@.found == old(t)@.found,
        tidy(final(t)@, layer, entry, goal, dist),
{
    let count = node.len();
    let ghost w0 = t@;
    let ghost bound = t.bound();
    let ghost budget = t.budget();
    let mut q: usize = 0;
    while q < count
        invariant
            q <= count,
            count == node@.len(),
            t.wf(),
            t.bound() == bound,
            t.budget() == budget,
            reports(dist, goal, layer.len()),
            layer_closed(layer),
            0 <= p < layer.len(),
            layer[p] == node@,
            t@ == discover(w0, node@.subrange(0, q as int), goal),
            t@.found == w0.found,
            tidy(t@, layer, entry, goal, dist),
        decreases count - q,
    {
        let nb = node.neighbor(q);
        let ghost before = t@;
        proof {
            assert(node@.subrange(0, q + 1).drop_last() =~= node@.subrange(0, q as int));
            assert(node@.subrange(0, q + 1).last() == nb);
            assert(layer[p][q as int] == nb);
            assert(nb == entry || is_linked(layer, nb));
        }
        if t.discover(nb) {
            let d = dist(nb);
            t.push(nb, d);
            proof {
                assert(before.frontier.count((d, nb)) == 0);
                assert(before.found.count((d, nb)) == 0);
            }
        } else {
            proof {
                assert(before.visited.insert(nb) =~= before.visited);
            }
        }
        q += 1;
    }
    proof {
        assert(node@.subrange(0, count as int) =~= node@);
    }
}

/// Bounded best-first search of `layer` from `entrypoint`, for a distance
/// function known to compute `goal`.
pub(crate) fn traverse<G: Fn(usize) -> u64>(
    layer: &Vec<HnswNode>,
    entrypoint: usize,
    dist: &G,
    max_search: usize,
    max_neighbors: usize,
    Ghost(goal): Ghost<spec_fn(usize) -> u64>,
) -> (out: Vec<Candidate>)
    requires
        entrypoint < layer.len(),
        layer_closed(layer_view(layer@)),
        reports(dist, goal, layer.len() as nat),
    ensures
        ascending(out@),
        out@.to_multiset() == nearest(
            layer_view(layer@),
            entrypoint,
            goal,
            max_search as nat,
            max_neighbors as nat,
        ),
        out.len() <= max_neighbors,
        out.len() <= max_search,
        out.len() <= layer.len(),
        max_neighbors > 0 && max_search > 0 ==> out.len() > 0,
        forall|i: int|
            0 <= i < out.len() ==> {
                &&& (#[trigger] out@[i]).1 < layer.len()
                &&& out@[i].0 == goal(out@[i].1)
                &&& call_ensures(*dist, (out@[i].1,), out@[i].0)
                &&& (out@[i].1 == entrypoint || is_linked(layer_view(layer@), out@[i].1))
            },
        forall|i: int, j: int|
            0 <= i < j < out.len() ==> (#[trigger] out@[i]).1 != (#[trigger] out@[j]).1,
{
    let ghost rows = layer_view(layer@);
    let ghost bound = max_neighbors as nat;
    let d0 = dist(entrypoint);
    let mut t = Traversal::begin(entrypoint, d0, max_search, max_neighbors);
    proof {
        assert(t@ == start(entrypoint, goal));
    }
    let mut exhausted = false;
    while !exhausted
        invariant
            rows == layer_view(layer@),
            bound == max_neighbors,
            entrypoint < layer.len(),
            layer_closed(rows),
            reports(dist, goal, layer.len() as nat),
            t.wf(),
            t.bound() == bound,
            t.budget() <= max_search,
            tidy(t@, rows, entrypoint, goal, dist),
            walk(t@, rows, goal, bound, t.budget()) == walk(
                start(entrypoint, goal),
                rows,
                goal,
                bound,
                max_search as nat,
            ),
            exhausted ==> t.budget() == 0 || t@.frontier.len() == 0,
            t.budget() == max_search ==> t@.frontier.len() > 0,
            t@.found.len() <= max_search - t.budget(),
            t@.found.len() <= bound,
            t.budget() < max_search && bound > 0 ==> t@.found.len() > 0,
        decreases t.budget() + (if exhausted { 0int } else { 1int }),
    {
        let ghost w = t@;
        match t.next() {
            Some(idx) => {
                let ghost x = best(w.frontier);
                let ghost after = t@;
                proof {
                    assert(w.frontier.count(x) > 0);
                    assert(tidy(after, rows, entrypoint, goal, dist)) by {
                        assert forall|c: Candidate|
                            #![trigger after.frontier.count(c)]
                            #![trigger after.found.count(c)]
                            after.frontier.count(c) + after.found.count(c) <= 1 by {
                            assert(w.frontier.count(c) + w.found.count(c) <= 1);
                        }
                        assert forall|c: Candidate|
                            #![trigger after.frontier.count(c)]
                            #![trigger after.found.count(c)]
                            after.frontier.count(c) > 0 || after.found.count(c) > 0 implies {
                            &&& c.1 < rows.len()
                            &&& c.0 == goal(c.1)
                            &&& call_ensures(*dist, (c.1,), c.0)
                            &&& after.visited.contains(c.1)
                            &&& (c.1 == entrypoint || is_linked(rows, c.1))
                        } by {
                            assert(w.frontier.count(c) > 0 || w.found.count(c) > 0);
                        }
                    }
                    assert(rows[idx as int] == layer@[idx as int]@);
                }
                discover_neighbors(
                    &layer[idx],
                    dist,
                    &mut t,
                    Ghost(goal),
                    Ghost(rows),
                    Ghost(entrypoint),
                    Ghost(idx as int),
                );
                proof {
                    assert(t@ == expand(w, rows, goal, bound));
                }
            },
            None => {
                exhausted = true;
            },
        }
    }
    let ghost last = t@;
    let out = t.finish();
    proof {
        assert(out@.to_multiset() == last.found);
        out@.to_multiset_ensures();
        assert forall|i: int| 0 <= i < out.len() implies {
            &&& (#[trigger] out@[i]).1 < layer.len()
            &&& out@[i].0 == goal(out@[i].1)
            &&& call_ensures(*dist, (out@[i].1,), out@[i].0)
            &&& (out@[i].1 == entrypoint || is_linked(rows, out@[i].1))
        } by {
            assert(out@.contains(out@[i]));
            assert(last.found.count(out@[i]) > 0);
        }
        assert forall|x: Candidate| out@.to_multiset().contains(x) implies out@.to_multiset().count(
            x,
        ) == 1 by {
            assert(last.frontier.count(x) + last.found.count(x) <= 1);
        }
        out@.lemma_multiset_has_no_duplicates_conv();
        assert forall|i: int, j: int| 0 <= i < j < out.len() implies (#[trigger] out@[i]).1 != (
        #[trigger] out@[j]).1 by {
            assert(out@[i] != out@[j]);
        }
        lemma_distinct_indices_bounded(out@, layer.len() as nat);
    }
    out
}

/// The entry point that a descent through the first `count` layers arrives
/// at: it starts at node 0 and, in each layer, moves to the closest node
/// that a traversal from the current entry point finds.
pub open spec fn descend(
    graph: Seq<Seq<Seq<usize>>>,
    dist: spec_fn(usize) -> u64,
    max_search: nat,
    count: nat,
) -> usize
    decreases count,
{
    if count == 0 {
        0
    } else {
        best(
            nearest(
                graph[count - 1],
                descend(graph, dist, max_search, (count - 1) as nat),
                dist,
                max_search,
                1,
            ),
        ).1
    }
}

/// A collection with a single item has that item on top.
pub proof fn lemma_single_is_best(s: Seq<Candidate>)
    requires
        s.len() == 1,
    ensures
        best(s.to_multiset()) == s[0],
{
    s.to_multiset_ensures();
    assert(s.contains(s[0]));
    assert forall|y: Candidate| #[trigger] s.to_multiset().count(y) > 0 implies !closer(
        y,
        s[0],
    ) by {
        assert(s.contains(y));
    }
    assert(is_top(s.to_multiset(), s[0], true));
    lemma_top_unique(s.to_multiset(), s[0], best(s.to_multiset()), true);
}

/// Descends through the first `count` layers, for a distance function
/// known to compute `goal`.
pub(crate) fn descend_through<G: Fn(usize) -> u64>(
    layers: &Vec<Vec<HnswNode>>,
    count: usize,
    dist: &G,
    max_search: usize,
    Ghost(goal): Ghost<spec_fn(usize) -> u64>,
) -> (entry: usize)
    requires
        count <= layers.len(),
        nested(graph_view(layers@)),
        count > 0 ==> reports(dist, goal, layers[count - 1].len() as nat),
        max_search > 0,
    ensures
        entry == descend(graph_view(layers@), goal, max_search as nat, count as nat),
        count == 0 ==> entry == 0,
        count > 0 ==> entry < layers[count - 1].len(),
{
    let ghost graph = graph_view(layers@);
    let mut entry: usize = 0;
    let mut k: usize = 0;
    while k < count
        invariant
            k <= count,
            count <= layers.len(),
            graph == graph_view(layers@),
            nested(graph),
            count > 0 ==> reports(dist, goal, layers[count - 1].len() as nat),
            max_search > 0,
            entry == descend(graph, goal, max_search as nat, k as nat),
            k == 0 ==> entry == 0,
            k > 0 ==> entry < layers[k - 1].len(),
        decreases count - k,
    {
        proof {
            assert(graph[k as int] == layer_view(layers[k as int]@));
            assert(graph[k as int].len() == layers[k as int].len());
            assert(graph[count - 1].len() == layers[count - 1].len());
            if k > 0 {
                assert(graph[k - 1].len() == layers[k - 1].len());
            }
        }
        let res = traverse(&layers[k], entry, dist, max_search, 1, Ghost(goal));
        proof {
            lemma_single_is_best(res@);
        }
        entry = res[0].1;
        k += 1;
    }
    entry
}

/// Bounded best-first search of `layer` from `entrypoint`: at most
/// `max_search` candidates are expanded, closest first, and the
/// `max_neighbors` closest of them are returned in ascending order. `dist`
/// gives the distance of each element to the goal.
pub fn search_for_neighbors<G: Fn(usize) -> u64>(
    layer: &Vec<HnswNode>,
    entrypoint: usize,
    dist: &G,
    max_search: usize,
    max_neighbors: usize,
) -> (out: Vec<Candidate>)
    requires
        entrypoint < layer.len(),
        layer_closed(layer_view(layer@)),
        measures(dist, layer.len() as nat),
    ensures
        ascending(out@),
        out@.to_multiset() == nearest(
            layer_view(layer@),
            entrypoint,
            to_goal(dist),
            max_search as nat,
            max_neighbors as nat,
        ),
        out.len() <= max_neighbors,
        out.len() <= max_search,
        out.len() <= layer.len(),
        max_neighbors > 0 && max_search > 0 ==> out.len() > 0,
        forall|i: int|
            0 <= i < out.len() ==> {
                &&& (#[trigger] out@[i]).1 < layer.len()
                &&& call_ensures(*dist, (out@[i].1,), out@[i].0)
                &&& (out@[i].1 == entrypoint || is_linked(layer_view(layer@), out@[i].1))
            },
        forall|i: int, j: int|
            0 <= i < j < out.len() ==> (#[trigger] out@[i]).1 != (#[trigger] out@[j]).1,
{
    proof {
        lemma_measures_reports(dist, layer.len() as nat);
    }
    traverse(layer, entrypoint, dist, max_search, max_neighbors, Ghost(to_goal(dist)))
}

/// Descends through the first `count` layers and returns the entry point
/// for the layer below them: from node 0, each layer is searched for the
/// one closest node, which is where the search of the next layer starts.
pub fn find_entrypoint<G: Fn(usize) -> u64>(
    layers: &Vec<Vec<HnswNode>>,
    count: usize,
    dist: &G,
    max_search: usize,
) -> (entry: usize)
    requires
        count <= layers.len(),
        nested(graph_view(layers@)),
        count > 0 ==> measures(dist, layers[count - 1].len() as nat),
        max_search > 0,
    ensures
        entry == descend(graph_view(layers@), to_goal(dist), max_search as nat, count as nat),
        count == 0 ==> entry == 0,
        count > 0 ==> entry < layers[count - 1].len(),
{
    proof {
        if count > 0 {
            lemma_measures_reports(dist, layers[count - 1].len() as nat);
        }
    }
    descend_through(layers, count, dist, max_search, Ghost(to_goal(dist)))
}

} // verus!
