//! The rule by which a node takes a proposed neighbour, and what it
//! preserves.

use crate::metric::{from_node, measures_pair, pairs};
use crate::node::{HnswNode, MAX_NEIGHBORS};
use vstd::prelude::*;

verus! {

/// Position `k` holds a neighbour at the greatest distance, and it is the
/// last such position.
pub open spec fn is_farthest(nbrs: Seq<usize>, from: spec_fn(usize) -> u64, k: int) -> bool {
    &&& 0 <= k < nbrs.len()
    &&& forall|p: int| 0 <= p < nbrs.len() ==> from(#[trigger] nbrs[p]) <= from(nbrs[k])
    &&& forall|p: int| k < p < nbrs.len() ==> from(#[trigger] nbrs[p]) < from(nbrs[k])
}

/// The position of the farthest neighbour of a non-empty list.
pub open spec fn farthest(nbrs: Seq<usize>, from: spec_fn(usize) -> u64) -> int {
    choose|k: int| is_farthest(nbrs, from, k)
}

/// Whether a node with neighbours `nbrs` takes `j` as a neighbour: always
/// while it has room, and otherwise when `j` is less than twice as far as
/// the farthest neighbour.
pub open spec fn accepts(nbrs: Seq<usize>, from: spec_fn(usize) -> u64, j: usize) -> bool {
    nbrs.len() < MAX_NEIGHBORS || (nbrs.len() > 0 && from(j) < 2 * from(
        nbrs[farthest(nbrs, from)],
    ))
}

/// The neighbours of a node after `j` was proposed to it: appended while
/// there is room, put in the place of the farthest neighbour when accepted
/// by a full node, and left out otherwise.
pub open spec fn connect(nbrs: Seq<usize>, from: spec_fn(usize) -> u64, j: usize) -> Seq<usize> {
    if nbrs.len() < MAX_NEIGHBORS {
        nbrs.push(j)
    } else if accepts(nbrs, from, j) {
        nbrs.update(farthest(nbrs, from), j)
    } else {
        nbrs
    }
}

/// At most one position is the farthest.
pub proof fn lemma_farthest_unique(nbrs: Seq<usize>, from: spec_fn(usize) -> u64, a: int, b: int)
    requires
        is_farthest(nbrs, from, a),
        is_farthest(nbrs, from, b),
    ensures
        a == b,
{
    if a < b {
        assert(from(nbrs[b]) < from(nbrs[a]));
        assert(from(nbrs[a]) <= from(nbrs[b]));
    } else if b < a {
        assert(from(nbrs[a]) < from(nbrs[b]));
        assert(from(nbrs[b]) <= from(nbrs[a]));
    }
}

/// A non-empty list has a farthest position.
pub proof fn lemma_farthest_exists(nbrs: Seq<usize>, from: spec_fn(usize) -> u64)
    requires
        nbrs.len() > 0,
    ensures
        is_farthest(nbrs, from, farthest(nbrs, from)),
    decreases nbrs.len(),
{
    let last = nbrs.len() - 1;
    if nbrs.len() == 1 {
        assert(is_farthest(nbrs, from, 0));
    } else {
        let front = nbrs.drop_last();
        lemma_farthest_exists(front, from);
        let k = farthest(front, from);
        assert(forall|p: int| 0 <= p < front.len() ==> front[p] == nbrs[p]);
        if from(nbrs[last]) >= from(nbrs[k]) {
            assert forall|p: int| 0 <= p < nbrs.len() implies from(#[trigger] nbrs[p]) <= from(
                nbrs[last],
            ) by {
                if p < last {
                    assert(from(front[p]) <= from(front[k]));
                }
            }
            assert(is_farthest(nbrs, from, last));
        } else {
            assert forall|p: int| 0 <= p < nbrs.len() implies from(#[trigger] nbrs[p]) <= from(
                nbrs[k],
            ) by {
                if p < last {
                    assert(from(front[p]) <= from(front[k]));
                }
            }
            assert forall|p: int| k < p < nbrs.len() implies from(#[trigger] nbrs[p]) < from(
                nbrs[k],
            ) by {
                if p < last {
                    assert(from(front[p]) < from(front[k]));
                }
            }
            assert(is_farthest(nbrs, from, k));
        }
    }
}

/// The neighbour list `nbrs` of node `own` is within capacity, names only
/// other nodes below `bound`, names none twice, and is empty if `own` itself
/// is not below `bound`.
pub open spec fn node_sound(nbrs: Seq<usize>, own: int, bound: nat) -> bool {
    &&& nbrs.len() <= MAX_NEIGHBORS
    &&& forall|q: int| 0 <= q < nbrs.len() ==> #[trigger] nbrs[q] < bound && nbrs[q] != own
    &&& nbrs.no_duplicates()
    &&& own >= bound ==> nbrs.len() == 0
}

/// Every node of the layer is sound with respect to `bound`, the number of
/// elements inserted so far.
pub open spec fn layer_sound(layer: Seq<Seq<usize>>, bound: nat) -> bool {
    forall|p: int| 0 <= p < layer.len() ==> node_sound(#[trigger] layer[p], p, bound)
}

/// Once two elements are inserted, every inserted node has a neighbour.
pub open spec fn layer_linked(layer: Seq<Seq<usize>>, bound: nat) -> bool {
    bound >= 2 ==> forall|p: int|
        0 <= p < bound && p < layer.len() ==> (#[trigger] layer[p]).len() >= 1
}

/// `after` has grown out of `before`: it is no shorter, and unless it is
/// full it still begins with `before`.
pub open spec fn extends(before: Seq<usize>, after: Seq<usize>) -> bool {
    &&& before.len() <= after.len()
    &&& after.len() < MAX_NEIGHBORS ==> after.subrange(0, before.len() as int) =~= before
}

/// Proposing a new, different node to a sound node leaves it sound and
/// grown.
pub proof fn lemma_connect_sound(
    nbrs: Seq<usize>,
    from: spec_fn(usize) -> u64,
    j: usize,
    own: int,
    bound: nat,
)
    requires
        node_sound(nbrs, own, bound),
        own < bound,
        j < bound,
        j != own,
        !nbrs.contains(j),
    ensures
        node_sound(connect(nbrs, from, j), own, bound),
        extends(nbrs, connect(nbrs, from, j)),
        forall|x: usize| connect(nbrs, from, j).contains(x) ==> nbrs.contains(x) || x == j,
{
    let after = connect(nbrs, from, j);
    if nbrs.len() < MAX_NEIGHBORS {
        assert forall|a: int, b: int|
            0 <= a < after.len() && 0 <= b < after.len() && a != b implies after[a] != after[b] by {
            if a < nbrs.len() {
                assert(nbrs.contains(nbrs[a]));
            }
            if b < nbrs.len() {
                assert(nbrs.contains(nbrs[b]));
            }
        }
        assert forall|x: usize| after.contains(x) implies nbrs.contains(x) || x == j by {
            let a = choose|a: int| 0 <= a < after.len() && after[a] == x;
            if a < nbrs.len() {
                assert(nbrs[a] == x);
            }
        }
    } else if accepts(nbrs, from, j) {
        lemma_farthest_exists(nbrs, from);
        let k = farthest(nbrs, from);
        assert forall|a: int, b: int|
            0 <= a < after.len() && 0 <= b < after.len() && a != b implies after[a] != after[b] by {
            if a != k {
                assert(nbrs.contains(nbrs[a]));
            }
            if b != k {
                assert(nbrs.contains(nbrs[b]));
            }
        }
        assert forall|x: usize| after.contains(x) implies nbrs.contains(x) || x == j by {
            let a = choose|a: int| 0 <= a < after.len() && after[a] == x;
            if a != k {
                assert(nbrs[a] == x);
            }
        }
    }
}

/// Being grown out of is transitive.
pub proof fn lemma_extends_trans(a: Seq<usize>, b: Seq<usize>, c: Seq<usize>)
    requires
        extends(a, b),
        extends(b, c),
    ensures
        extends(a, c),
{
    if c.len() < MAX_NEIGHBORS {
        assert(c.subrange(0, a.len() as int) =~= b.subrange(0, a.len() as int));
    }
}

/// Proposes `j` as a neighbour to the node of element `i`, and says whether
/// the node took it.
pub fn connect_nodes<F: Fn(usize, usize) -> u64>(
    node: &mut HnswNode,
    dist: &F,
    i: usize,
    j: usize,
) -> (linked: bool)
    requires
        measures_pair(dist, i, j),
        forall|q: int| 0 <= q < old(node)@.len() ==> measures_pair(dist, i, #[trigger] old(node)@[q]),
    ensures
        final(node)@ == connect(old(node)@, from_node(pairs(dist), i), j),
        linked == accepts(old(node)@, from_node(pairs(dist), i), j),
{
    let len = node.len();
    if len < MAX_NEIGHBORS {
        node.push(j);
        return true;
    }
    let ghost from = from_node(pairs(dist), i);
    let ghost nbrs = node@;
    let current = dist(i, j);
    let mut k: usize = 0;
    let mut max_dist = dist(i, node.neighbor(0));
    let mut p: usize = 1;
    while p < len
        invariant
            node@ == nbrs,
            len == nbrs.len(),
            from == from_node(pairs(dist), i),
            forall|q: int| 0 <= q < nbrs.len() ==> measures_pair(dist, i, #[trigger] nbrs[q]),
            0 <= k < p <= len,
            max_dist == from(nbrs[k as int]),
            forall|q: int| 0 <= q < p ==> from(#[trigger] nbrs[q]) <= max_dist,
            forall|q: int| k < q < p ==> from(#[trigger] nbrs[q]) < max_dist,
        decreases len - p,
    {
        let d = dist(i, node.neighbor(p));
        if d >= max_dist {
            k = p;
            max_dist = d;
        }
        p += 1;
    }
    proof {
        assert(is_farthest(nbrs, from, k as int));
        lemma_farthest_unique(nbrs, from, k as int, farthest(nbrs, from));
    }
    if (current as u128) < 2 * (max_dist as u128) {
        node.replace(k, j);
        true
    } else {
        false
    }
}

} // verus!
