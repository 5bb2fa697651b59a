//! What a traversal finds when its budget lets it run until nothing is left
//! to expand: the closest of all nodes that can be reached from the entry
//! point.

use crate::heap::{best, closer, lemma_has_top, offer, worst, Candidate};
use crate::node::layer_closed;
use crate::traversal::{discover, expand, lemma_distinct_indices_bounded, nearest, start, walk, Walk};
use vstd::multiset::Multiset;
use vstd::prelude::*;

verus! {

broadcast use vstd::multiset::group_multiset_axioms;

/// `path` leads from `entry` along links, each node naming the next among
/// its neighbours.
pub open spec fn is_path(layer: Seq<Seq<usize>>, entry: usize, path: Seq<usize>) -> bool {
    &&& path.len() > 0
    &&& path[0] == entry
    &&& forall|i: int|
        0 <= i < path.len() - 1 ==> (#[trigger] path[i]) < layer.len() && layer[path[i] as int].contains(
            path[i + 1],
        )
}

/// `v` can be reached from `entry` along links.
pub open spec fn reachable(layer: Seq<Seq<usize>>, entry: usize, v: usize) -> bool {
    exists|path: Seq<usize>| is_path(layer, entry, path) && path.last() == v
}

/// A neighbour of a reachable node is reachable.
pub proof fn lemma_reach_step(layer: Seq<Seq<usize>>, entry: usize, u: usize, v: usize)
    requires
        reachable(layer, entry, u),
        u < layer.len(),
        layer[u as int].contains(v),
    ensures
        reachable(layer, entry, v),
{
    let path = choose|path: Seq<usize>| is_path(layer, entry, path) && path.last() == u;
    let longer = path.push(v);
    assert forall|i: int| 0 <= i < longer.len() - 1 implies (#[trigger] longer[i]) < layer.len()
        && layer[longer[i] as int].contains(longer[i + 1]) by {
        if i < path.len() - 1 {
            assert(longer[i] == path[i] && longer[i + 1] == path[i + 1]);
        }
    }
    assert(is_path(layer, entry, longer) && longer.last() == v);
}

/// The result holds the closest of the candidates of the nodes in `done`:
/// it is within its bound, holds each candidate once, and a node of `done`
/// whose candidate it does not hold is no closer than anything it holds.
pub open spec fn kept(
    found: Multiset<Candidate>,
    done: Seq<usize>,
    dist: spec_fn(usize) -> u64,
    bound: nat,
) -> bool {
    &&& found.len() <= bound
    &&& forall|c: Candidate| #[trigger]
        found.count(c) > 0 ==> c.0 == dist(c.1) && done.contains(c.1) && found.count(c) == 1
    &&& forall|i: int|
        0 <= i < done.len() ==> found.count((dist(#[trigger] done[i]), done[i])) > 0 || (found.len()
            >= bound && forall|y: Candidate| #[trigger]
            found.count(y) > 0 ==> !closer((dist(done[i]), done[i]), y))
}

/// The nodes in `done` have been expanded, once each; every discovered node
/// can be reached from the entry point and is expanded or waits in the
/// frontier; the result holds the closest of the expanded ones.
pub open spec fn orderly(
    w: Walk,
    done: Seq<usize>,
    layer: Seq<Seq<usize>>,
    entry: usize,
    dist: spec_fn(usize) -> u64,
    bound: nat,
) -> bool {
    &&& done.no_duplicates()
    &&& forall|i: int| 0 <= i < done.len() ==> w.visited.contains(#[trigger] done[i])
    &&& w.visited.contains(entry)
    &&& forall|v: usize| #[trigger]
        w.visited.contains(v) ==> v < layer.len() && reachable(layer, entry, v) && (done.contains(v)
            || w.frontier.count((dist(v), v)) > 0)
    &&& forall|c: Candidate| #[trigger]
        w.frontier.count(c) > 0 ==> c.0 == dist(c.1) && w.visited.contains(c.1) && !done.contains(
            c.1,
        ) && w.frontier.count(c) == 1
    &&& kept(w.found, done, dist, bound)
}

/// Every neighbour of an expanded node has been discovered.
pub open spec fn expanded(visited: Set<usize>, done: Seq<usize>, layer: Seq<Seq<usize>>) -> bool {
    forall|i: int, q: int|
        0 <= i < done.len() && 0 <= q < layer[done[i] as int].len() ==> visited.contains(
            #[trigger] layer[done[i] as int][q],
        )
}

proof fn lemma_offer_kept(
    found: Multiset<Candidate>,
    done: Seq<usize>,
    dist: spec_fn(usize) -> u64,
    bound: nat,
    u: usize,
)
    requires
        kept(found, done, dist, bound),
        !done.contains(u),
    ensures
        kept(offer(found, bound, (dist(u), u)), done.push(u), dist, bound),
{
    let x: Candidate = (dist(u), u);
    let after = offer(found, bound, x);
    let all = done.push(u);
    assert(found.count(x) == 0) by {
        if found.count(x) > 0 {
            assert(done.contains(x.1));
        }
    }
    assert(all[done.len() as int] == u);
    assert forall|v: usize| done.contains(v) implies all.contains(v) by {
        let i = choose|i: int| 0 <= i < done.len() && done[i] == v;
        assert(all[i] == v);
    }
    assert(all.contains(u));
    if found.len() < bound {
        assert forall|i: int| 0 <= i < all.len() implies after.count(
            (dist(#[trigger] all[i]), all[i]),
        ) > 0 by {
            if i < done.len() {
                assert(all[i] == done[i]);
                assert(found.count((dist(done[i]), done[i])) > 0);
            }
        }
    } else if found.len() > 0 && closer(x, worst(found)) {
        lemma_has_top(found, false);
        let w = worst(found);
        assert(Multiset::singleton(w).subset_of(found));
        assert(after.len() == found.len());
        assert forall|i: int| 0 <= i < all.len() implies after.count(
            (dist(#[trigger] all[i]), all[i]),
        ) > 0 || (after.len() >= bound && forall|y: Candidate| #[trigger]
            after.count(y) > 0 ==> !closer((dist(all[i]), all[i]), y)) by {
            let c: Candidate = (dist(all[i]), all[i]);
            if i < done.len() {
                assert(all[i] == done[i]);
                if found.count(c) > 0 {
                    if c == w {
                        assert forall|y: Candidate| #[trigger] after.count(y) > 0 implies !closer(
                            c,
                            y,
                        ) by {
                            if y != x {
                                assert(found.count(y) > 0);
                            }
                        }
                    }
                } else {
                    assert(!closer(c, w));
                    assert forall|y: Candidate| #[trigger] after.count(y) > 0 implies !closer(
                        c,
                        y,
                    ) by {
                        if y != x {
                            assert(found.count(y) > 0);
                        }
                    }
                }
            }
        }
    } else {
        if found.len() > 0 {
            lemma_has_top(found, false);
        } else {
            vstd::multiset::lemma_multiset_empty_len(found);
        }
        assert forall|i: int| 0 <= i < all.len() implies after.count(
            (dist(#[trigger] all[i]), all[i]),
        ) > 0 || (after.len() >= bound && forall|y: Candidate| #[trigger]
            after.count(y) > 0 ==> !closer((dist(all[i]), all[i]), y)) by {
            if i < done.len() {
                assert(all[i] == done[i]);
            } else {
                assert forall|y: Candidate| #[trigger] after.count(y) > 0 implies !closer(
                    x,
                    y,
                ) by {
                    assert(!closer(worst(found), y));
                }
            }
        }
    }
}

proof fn lemma_discover_orderly(
    w: Walk,
    done: Seq<usize>,
    layer: Seq<Seq<usize>>,
    entry: usize,
    dist: spec_fn(usize) -> u64,
    bound: nat,
    u: usize,
    upto: int,
)
    requires
        orderly(w, done, layer, entry, dist, bound),
        layer_closed(layer),
        u < layer.len(),
        reachable(layer, entry, u),
        0 <= upto <= layer[u as int].len(),
    ensures
        orderly(discover(w, layer[u as int].subrange(0, upto), dist), done, layer, entry, dist, bound),
        forall|v: usize|
            w.visited.contains(v) ==> discover(
                w,
                layer[u as int].subrange(0, upto),
                dist,
            ).visited.contains(v),
        forall|q: int|
            0 <= q < upto ==> discover(
                w,
                layer[u as int].subrange(0, upto),
                dist,
            ).visited.contains(#[trigger] layer[u as int][q]),
    decreases upto,
{
    let nbrs = layer[u as int].subrange(0, upto);
    if upto > 0 {
        lemma_discover_orderly(w, done, layer, entry, dist, bound, u, upto - 1);
        assert(nbrs.drop_last() =~= layer[u as int].subrange(0, upto - 1));
        let prev = discover(w, nbrs.drop_last(), dist);
        let n = nbrs.last();
        let r = discover(w, nbrs, dist);
        assert(n == layer[u as int][upto - 1]);
        assert(layer[u as int].contains(n));
        lemma_reach_step(layer, entry, u, n);
        if !prev.visited.contains(n) {
            let c: Candidate = (dist(n), n);
            assert(prev.frontier.count(c) == 0);
            assert(!done.contains(n)) by {
                if done.contains(n) {
                    let i = choose|i: int| 0 <= i < done.len() && done[i] == n;
                    assert(prev.visited.contains(done[i]));
                }
            }
            assert forall|v: usize| #[trigger] r.visited.contains(v) implies v < layer.len()
                && reachable(layer, entry, v) && (done.contains(v) || r.frontier.count(
                (dist(v), v),
            ) > 0) by {
                if v != n {
                    assert(prev.visited.contains(v));
                }
            }
            assert forall|c2: Candidate| #[trigger] r.frontier.count(c2) > 0 implies c2.0 == dist(
                c2.1,
            ) && r.visited.contains(c2.1) && !done.contains(c2.1) && r.frontier.count(c2)
                == 1 by {
                if c2 != c {
                    assert(prev.frontier.count(c2) > 0);
                }
            }
        }
    } else {
        assert(nbrs.len() == 0);
    }
}

proof fn lemma_expand_orderly(
    w: Walk,
    done: Seq<usize>,
    layer: Seq<Seq<usize>>,
    entry: usize,
    dist: spec_fn(usize) -> u64,
    bound: nat,
)
    requires
        orderly(w, done, layer, entry, dist, bound),
        expanded(w.visited, done, layer),
        layer_closed(layer),
        w.frontier.len() > 0,
    ensures
        orderly(
            expand(w, layer, dist, bound),
            done.push(best(w.frontier).1),
            layer,
            entry,
            dist,
            bound,
        ),
        expanded(expand(w, layer, dist, bound).visited, done.push(best(w.frontier).1), layer),
        !done.contains(best(w.frontier).1),
        best(w.frontier).1 < layer.len(),
{
    lemma_has_top(w.frontier, true);
    let x = best(w.frontier);
    let u = x.1;
    let all = done.push(u);
    assert(w.frontier.count(x) > 0);
    assert(x == (dist(u), u));
    assert(Multiset::singleton(x).subset_of(w.frontier));
    let popped = Walk {
        frontier: w.frontier.remove(x),
        visited: w.visited,
        found: offer(w.found, bound, x),
    };
    lemma_offer_kept(w.found, done, dist, bound, u);
    assert(all[done.len() as int] == u);
    assert forall|v: usize| done.contains(v) implies all.contains(v) by {
        let i = choose|i: int| 0 <= i < done.len() && done[i] == v;
        assert(all[i] == v);
    }
    assert(all.contains(u));
    assert(all.no_duplicates()) by {
        assert forall|i: int, j: int|
            0 <= i < all.len() && 0 <= j < all.len() && i != j implies all[i] != all[j] by {
            if i < done.len() {
                assert(done.contains(all[i]));
            }
            if j < done.len() {
                assert(done.contains(all[j]));
            }
        }
    }
    assert forall|i: int| 0 <= i < all.len() implies popped.visited.contains(
        #[trigger] all[i],
    ) by {
        if i < done.len() {
            assert(all[i] == done[i]);
        }
    }
    assert forall|v: usize| #[trigger] popped.visited.contains(v) implies v < layer.len()
        && reachable(layer, entry, v) && (all.contains(v) || popped.frontier.count((dist(v), v))
        > 0) by {
        if v != u && !done.contains(v) {
            assert(w.frontier.count((dist(v), v)) > 0);
        }
    }
    assert forall|c: Candidate| #[trigger] popped.frontier.count(c) > 0 implies c.0 == dist(c.1)
        && popped.visited.contains(c.1) && !all.contains(c.1) && popped.frontier.count(c) == 1 by {
        assert(w.frontier.count(c) > 0);
        if all.contains(c.1) {
            let i = choose|i: int| 0 <= i < all.len() && all[i] == c.1;
            if i < done.len() {
                assert(done.contains(c.1));
            } else {
                assert(c == x);
            }
        }
    }
    assert(orderly(popped, all, layer, entry, dist, bound));
    lemma_discover_orderly(popped, all, layer, entry, dist, bound, u, layer[u as int].len() as int);
    assert(layer[u as int].subrange(0, layer[u as int].len() as int) =~= layer[u as int]);
    let r = expand(w, layer, dist, bound);
    assert forall|i: int, q: int|
        0 <= i < all.len() && 0 <= q < layer[all[i] as int].len() implies r.visited.contains(
        #[trigger] layer[all[i] as int][q],
    ) by {
        if i < done.len() {
            assert(all[i] == done[i]);
            assert(w.visited.contains(layer[done[i] as int][q]));
        }
    }
}

/// A budget of as many steps as there are nodes not yet expanded empties
/// the frontier. Returns the nodes expanded in the end.
proof fn lemma_walk_orderly(
    w: Walk,
    done: Seq<usize>,
    layer: Seq<Seq<usize>>,
    entry: usize,
    dist: spec_fn(usize) -> u64,
    bound: nat,
    budget: nat,
) -> (all: Seq<usize>)
    requires
        orderly(w, done, layer, entry, dist, bound),
        expanded(w.visited, done, layer),
        layer_closed(layer),
        budget + done.len() >= layer.len(),
    ensures
        orderly(walk(w, layer, dist, bound, budget), all, layer, entry, dist, bound),
        expanded(walk(w, layer, dist, bound, budget).visited, all, layer),
        walk(w, layer, dist, bound, budget).frontier.len() == 0,
    decreases budget,
{
    if w.frontier.len() == 0 {
        done
    } else {
        lemma_expand_orderly(w, done, layer, entry, dist, bound);
        let u = best(w.frontier).1;
        let next = done.push(u);
        let marks = next.map_values(|v: usize| (0u64, v));
        assert forall|i: int| 0 <= i < marks.len() implies (#[trigger] marks[i]).1
            < layer.len() by {
            if i < done.len() {
                assert(next[i] == done[i]);
                assert(w.visited.contains(done[i]));
            }
        }
        assert forall|i: int, j: int| 0 <= i < j < marks.len() implies (#[trigger] marks[i]).1 != (
        #[trigger] marks[j]).1 by {
            assert(next[i] != next[j]);
        }
        lemma_distinct_indices_bounded(marks, layer.len());
        lemma_walk_orderly(
            expand(w, layer, dist, bound),
            next,
            layer,
            entry,
            dist,
            bound,
            (budget - 1) as nat,
        )
    }
}

proof fn lemma_path_is_done(
    w: Walk,
    done: Seq<usize>,
    layer: Seq<Seq<usize>>,
    entry: usize,
    dist: spec_fn(usize) -> u64,
    bound: nat,
    path: Seq<usize>,
    at: int,
)
    requires
        orderly(w, done, layer, entry, dist, bound),
        expanded(w.visited, done, layer),
        w.frontier.len() == 0,
        is_path(layer, entry, path),
        0 <= at < path.len(),
    ensures
        done.contains(path[at]),
    decreases at,
{
    vstd::multiset::lemma_multiset_empty_len(w.frontier);
    if at == 0 {
        assert(w.visited.contains(entry));
    } else {
        lemma_path_is_done(w, done, layer, entry, dist, bound, path, at - 1);
        let u = path[at - 1];
        let v = path[at];
        assert(u < layer.len() && layer[u as int].contains(path[at - 1 + 1]));
        let i = choose|i: int| 0 <= i < done.len() && done[i] == u;
        let q = choose|q: int| 0 <= q < layer[u as int].len() && layer[u as int][q] == v;
        assert(w.visited.contains(layer[done[i] as int][q]));
        assert(w.visited.contains(v));
    }
}

/// With a budget of at least as many steps as the layer has nodes, a
/// traversal returns the closest of the nodes that can be reached from the
/// entry point: each candidate returned is such a node with its distance,
/// and a reachable node that is not returned is no closer than any that
/// is, which happens only when the result is full.
pub proof fn lemma_exhaustive_search_is_exact(
    layer: Seq<Seq<usize>>,
    entry: usize,
    dist: spec_fn(usize) -> u64,
    max_search: nat,
    max_neighbors: nat,
)
    requires
        entry < layer.len(),
        layer_closed(layer),
        max_search >= layer.len(),
    ensures
        nearest(layer, entry, dist, max_search, max_neighbors).len() <= max_neighbors,
        forall|c: Candidate| #[trigger]
            nearest(layer, entry, dist, max_search, max_neighbors).count(c) > 0 ==> reachable(
                layer,
                entry,
                c.1,
            ) && c.0 == dist(c.1) && nearest(layer, entry, dist, max_search, max_neighbors).count(c)
                == 1,
        forall|v: usize| #[trigger]
            reachable(layer, entry, v) ==> nearest(
                layer,
                entry,
                dist,
                max_search,
                max_neighbors,
            ).count((dist(v), v)) > 0 || (nearest(layer, entry, dist, max_search, max_neighbors).len()
                >= max_neighbors && forall|y: Candidate| #[trigger]
                nearest(layer, entry, dist, max_search, max_neighbors).count(y) > 0 ==> !closer(
                    (dist(v), v),
                    y,
                )),
{
    let w = start(entry, dist);
    let none = Seq::<usize>::empty();
    assert(reachable(layer, entry, entry)) by {
        let path = Seq::<usize>::empty().push(entry);
        assert(is_path(layer, entry, path) && path.last() == entry);
    }
    assert(orderly(w, none, layer, entry, dist, max_neighbors));
    let done = lemma_walk_orderly(w, none, layer, entry, dist, max_neighbors, max_search);
    let last = walk(w, layer, dist, max_neighbors, max_search);
    let found = nearest(layer, entry, dist, max_search, max_neighbors);
    assert(found == last.found);
    assert forall|c: Candidate| #[trigger] found.count(c) > 0 implies reachable(layer, entry, c.1)
        && c.0 == dist(c.1) && found.count(c) == 1 by {
        let i = choose|i: int| 0 <= i < done.len() && done[i] == c.1;
        assert(last.visited.contains(done[i]));
    }
    assert forall|v: usize| #[trigger] reachable(layer, entry, v) implies found.count((dist(v), v))
        > 0 || (found.len() >= max_neighbors && forall|y: Candidate| #[trigger]
        found.count(y) > 0 ==> !closer((dist(v), v), y)) by {
        let path = choose|path: Seq<usize>| is_path(layer, entry, path) && path.last() == v;
        lemma_path_is_done(last, done, layer, entry, dist, max_neighbors, path, path.len() - 1);
        let i = choose|i: int| 0 <= i < done.len() && done[i] == v;
        assert(found.count((dist(done[i]), done[i])) > 0 || (found.len() >= max_neighbors
            && forall|y: Candidate| #[trigger]
            found.count(y) > 0 ==> !closer((dist(done[i]), done[i]), y)));
    }
}

} // verus!
