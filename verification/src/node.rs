//! The adjacency record of one element: a bounded list of neighbour indices.
//!
//! The list is an `arrayvec::ArrayVec`, which stores its items inline. The
//! verifier does not look inside it: `neighbor_seq` names what a list holds,
//! and the six functions below state, without proof, what the operations of
//! `ArrayVec` do to it. Everything else in this crate is proved from them.

use vstd::prelude::*;

verus! {

/// The largest number of neighbours a node can hold.
pub const MAX_NEIGHBORS: usize = 20;

/// Makes `arrayvec::ArrayVec` known to the verifier as a type whose inside it
/// does not see.
#[verifier::external_type_specification]
#[verifier::external_body]
#[verifier::reject_recursive_types(T)]
pub struct ExArrayVec<T, const CAP: usize>(arrayvec::ArrayVec<T, CAP>);

/// The indices that a fixed-capacity list holds, in storage order. It has no
/// definition: it is known only through what the functions below state.
pub uninterp spec fn neighbor_seq(list: arrayvec::ArrayVec<usize, MAX_NEIGHBORS>) -> Seq<usize>;

/// Calls `ArrayVec::new`. Taken on trust: the list it returns holds
/// nothing.
#[verifier::external_body]
fn list_new() -> (list: arrayvec::ArrayVec<usize, MAX_NEIGHBORS>)
    ensures
        neighbor_seq(list) == Seq::<usize>::empty(),
{
    arrayvec::ArrayVec::new()
}

/// Calls `ArrayVec::len`. Taken on trust: the result is the number of
/// indices held, and it never exceeds the capacity.
#[verifier::external_body]
fn list_len(list: &arrayvec::ArrayVec<usize, MAX_NEIGHBORS>) -> (n: usize)
    ensures
        n == neighbor_seq(*list).len(),
        n <= MAX_NEIGHBORS,
{
    list.len()
}

/// Indexes an `ArrayVec` through the slice it dereferences to. Taken on
/// trust: the result is the index stored at position `i`. A position out of
/// range would panic and is excluded.
#[verifier::external_body]
fn list_get(list: &arrayvec::ArrayVec<usize, MAX_NEIGHBORS>, i: usize) -> (j: usize)
    requires
        i < neighbor_seq(*list).len(),
    ensures
        j == neighbor_seq(*list)[i as int],
{
    list[i]
}

/// Calls `ArrayVec::push`. Taken on trust: `j` is appended at the end and
/// nothing else changes. A push onto a full list would panic and is
/// excluded.
#[verifier::external_body]
fn list_push(list: &mut arrayvec::ArrayVec<usize, MAX_NEIGHBORS>, j: usize)
    requires
        neighbor_seq(*old(list)).len() < MAX_NEIGHBORS,
    ensures
        neighbor_seq(*final(list)) == neighbor_seq(*old(list)).push(j),
{
    list.push(j)
}

/// Assigns through the mutable slice that an `ArrayVec` dereferences to.
/// Taken on trust: position `k` now holds `j` and every other position is
/// unchanged. A position out of range would panic and is excluded.
#[verifier::external_body]
fn list_set(list: &mut arrayvec::ArrayVec<usize, MAX_NEIGHBORS>, k: usize, j: usize)
    requires
        k < neighbor_seq(*old(list)).len(),
    ensures
        neighbor_seq(*final(list)) == neighbor_seq(*old(list)).update(k as int, j),
{
    list[k] = j;
}

/// Calls `ArrayVec::clone`. Taken on trust: the copy holds the same indices
/// in the same order.
#[verifier::external_body]
fn list_clone(list: &arrayvec::ArrayVec<usize, MAX_NEIGHBORS>) -> (copy: arrayvec::ArrayVec<
    usize,
    MAX_NEIGHBORS,
>)
    ensures
        neighbor_seq(copy) == neighbor_seq(*list),
{
    list.clone()
}

/// One element's adjacency record. Its view is the sequence of neighbour
/// indices in storage order.
#[derive(Debug)]
pub struct HnswNode {
    neighbors: arrayvec::ArrayVec<usize, MAX_NEIGHBORS>,
}

impl View for HnswNode {
    type V = Seq<usize>;

    closed spec fn view(&self) -> Seq<usize> {
        neighbor_seq(self.neighbors)
    }
}

impl HnswNode {
    /// A node without neighbours.
    pub fn new() -> (node: Self)
        ensures
            node@ == Seq::<usize>::empty(),
    {
        HnswNode { neighbors: list_new() }
    }

    /// The number of neighbours.
    pub fn len(&self) -> (n: usize)
        ensures
            n == self@.len(),
            n <= MAX_NEIGHBORS,
    {
        list_len(&self.neighbors)
    }

    /// The neighbour stored at position `i`.
    pub fn neighbor(&self, i: usize) -> (j: usize)
        requires
            i < self@.len(),
        ensures
            j == self@[i as int],
    {
        list_get(&self.neighbors, i)
    }

    /// Appends `j` to a node that still has room.
    pub fn push(&mut self, j: usize)
        requires
            old(self)@.len() < MAX_NEIGHBORS,
        ensures
            final(self)@ == old(self)@.push(j),
    {
        list_push(&mut self.neighbors, j)
    }

    /// Whether `j` is among the neighbours.
    pub fn contains(&self, j: usize) -> (found: bool)
        ensures
            found == self@.contains(j),
    {
        let len = self.len();
        let mut q: usize = 0;
        while q < len
            invariant
                q <= len,
                len == self@.len(),
                forall|b: int| 0 <= b < q ==> self@[b] != j,
            decreases len - q,
        {
            if self.neighbor(q) == j {
                return true;
            }
            q += 1;
        }
        false
    }

    /// The neighbours in storage order.
    pub fn neighbors(&self) -> (out: Vec<usize>)
        ensures
            out@ == self@,
    {
        let len = self.len();
        let mut out: Vec<usize> = Vec::with_capacity(len);
        let mut q: usize = 0;
        while q < len
            invariant
                q <= len,
                len == self@.len(),
                out@ == self@.subrange(0, q as int),
            decreases len - q,
        {
            out.push(self.neighbor(q));
            proof {
                assert(self@.subrange(0, q + 1) =~= self@.subrange(0, q as int).push(self@[q as int]));
            }
            q += 1;
        }
        proof {
            assert(self@.subrange(0, len as int) =~= self@);
        }
        out
    }

    /// Overwrites the neighbour at position `k` with `j`.
    pub fn replace(&mut self, k: usize, j: usize)
        requires
            k < old(self)@.len(),
        ensures
            final(self)@ == old(self)@.update(k as int, j),
    {
        list_set(&mut self.neighbors, k, j)
    }
}

impl Clone for HnswNode {
    fn clone(&self) -> (copy: Self)
        ensures
            copy@ == self@,
    {
        HnswNode { neighbors: list_clone(&self.neighbors) }
    }
}

impl Default for HnswNode {
    fn default() -> (node: Self)
        ensures
            node@ == Seq::<usize>::empty(),
    {
        HnswNode::new()
    }
}

/// The neighbour lists of a layer, node by node.
pub open spec fn layer_view(layer: Seq<HnswNode>) -> Seq<Seq<usize>> {
    Seq::new(layer.len(), |i: int| layer[i]@)
}

/// The neighbour lists of a whole graph, layer by layer.
pub open spec fn graph_view(levels: Seq<Vec<HnswNode>>) -> Seq<Seq<Seq<usize>>> {
    Seq::new(levels.len(), |k: int| layer_view(levels[k]@))
}

/// Every neighbour index of the layer names a node of the layer.
pub open spec fn layer_closed(layer: Seq<Seq<usize>>) -> bool {
    forall|p: int, q: int|
        0 <= p < layer.len() && 0 <= q < layer[p].len() ==> #[trigger] layer[p][q] < layer.len()
}

/// Some node of the layer has `v` among its neighbours.
pub open spec fn is_linked(layer: Seq<Seq<usize>>, v: usize) -> bool {
    exists|p: int, q: int|
        0 <= p < layer.len() && 0 <= q < layer[p].len() && #[trigger] layer[p][q] == v
}

/// Every layer is non-empty and closed, and no layer is smaller than the
/// one above it.
pub open spec fn nested(graph: Seq<Seq<Seq<usize>>>) -> bool {
    &&& forall|k: int| 0 <= k < graph.len() ==> (#[trigger] graph[k]).len() > 0 && layer_closed(graph[k])
    &&& forall|k: int, l: int|
        0 <= k <= l < graph.len() ==> (#[trigger] graph[k]).len() <= (#[trigger] graph[l]).len()
}

} // verus!
