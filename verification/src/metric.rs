//! Distance functions as the library sees them.
//!
//! A caller hands over an executable function from indices to distances.
//! Contracts speak of the mathematical function that it computes, which
//! exists where the executable one can be called and has a single answer.

use vstd::prelude::*;

verus! {

/// `g` can be called on every index below `n` and has one answer for each.
pub open spec fn measures<G: Fn(usize) -> u64>(g: &G, n: nat) -> bool {
    &&& forall|i: usize| i < n ==> call_requires(*g, (i,))
    &&& forall|i: usize, a: u64, b: u64|
        i < n && call_ensures(*g, (i,), a) && call_ensures(*g, (i,), b) ==> a == b
}

/// The distance that `g` reports for index `i`.
pub open spec fn dist_of<G: Fn(usize) -> u64>(g: &G, i: usize) -> u64 {
    choose|d: u64| call_ensures(*g, (i,), d)
}

/// `g` as a mathematical function from index to distance.
pub open spec fn to_goal<G: Fn(usize) -> u64>(g: &G) -> spec_fn(usize) -> u64 {
    |i: usize| dist_of(g, i)
}

/// `g` can be called on every index below `n`, and whatever it returns for
/// `i` is `goal(i)`.
pub open spec fn reports<G: Fn(usize) -> u64>(g: &G, goal: spec_fn(usize) -> u64, n: nat) -> bool {
    &&& forall|i: usize| i < n ==> call_requires(*g, (i,))
    &&& forall|i: usize, d: u64| i < n && call_ensures(*g, (i,), d) ==> d == goal(i)
}

/// A function that has one answer for each index reports itself.
pub proof fn lemma_measures_reports<G: Fn(usize) -> u64>(g: &G, n: nat)
    requires
        measures(g, n),
    ensures
        reports(g, to_goal(g), n),
{
    assert forall|i: usize, d: u64| i < n && call_ensures(*g, (i,), d) implies d == to_goal(g)(
        i,
    ) by {
        assert(call_ensures(*g, (i,), dist_of(g, i)));
    }
}

/// `f` can be called on every pair of indices below `n` and has one answer
/// for each.
pub open spec fn measures_pairs<F: Fn(usize, usize) -> u64>(f: &F, n: nat) -> bool {
    &&& forall|i: usize, j: usize| i < n && j < n ==> call_requires(*f, (i, j))
    &&& forall|i: usize, j: usize, a: u64, b: u64|
        i < n && j < n && call_ensures(*f, (i, j), a) && call_ensures(*f, (i, j), b) ==> a == b
}

/// The distance that `f` reports between elements `i` and `j`.
pub open spec fn pair_dist<F: Fn(usize, usize) -> u64>(f: &F, i: usize, j: usize) -> u64 {
    choose|d: u64| call_ensures(*f, (i, j), d)
}

/// `f` as a mathematical function from a pair of indices to a distance.
pub open spec fn pairs<F: Fn(usize, usize) -> u64>(f: &F) -> spec_fn(usize, usize) -> u64 {
    |i: usize, j: usize| pair_dist(f, i, j)
}

/// `f` can be called on `(i, j)` and has one answer for it.
pub open spec fn measures_pair<F: Fn(usize, usize) -> u64>(f: &F, i: usize, j: usize) -> bool {
    &&& call_requires(*f, (i, j))
    &&& forall|a: u64, b: u64| call_ensures(*f, (i, j), a) && call_ensures(*f, (i, j), b) ==> a == b
}

/// The distances of all elements to element `goal`.
pub open spec fn toward(metric: spec_fn(usize, usize) -> u64, goal: usize) -> spec_fn(usize) -> u64 {
    |i: usize| metric(i, goal)
}

/// The distances from element `i` to all elements.
pub open spec fn from_node(metric: spec_fn(usize, usize) -> u64, i: usize) -> spec_fn(usize) -> u64 {
    |x: usize| metric(i, x)
}

} // verus!
