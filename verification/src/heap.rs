//! Priority containers over `(distance, index)` candidates: the binary heap
//! that both of them rest on, the bounded heap that keeps the best candidates
//! seen, and the frontier that hands out the closest candidate first.

use vstd::multiset::Multiset;
use vstd::prelude::*;

verus! {

/// A node paired with its distance to the goal: `(distance, index)`.
pub type Candidate = (u64, usize);

/// The strict order on candidates: by distance, then by index.
pub open spec fn closer(a: Candidate, b: Candidate) -> bool {
    a.0 < b.0 || (a.0 == b.0 && a.1 < b.1)
}

/// Decides [`closer`].
pub fn is_closer(a: Candidate, b: Candidate) -> (r: bool)
    ensures
        r == closer(a, b),
{
    a.0 < b.0 || (a.0 == b.0 && a.1 < b.1)
}

/// Whether `a` belongs nearer the top of a heap than `b`: the closer one in
/// a heap that yields its least item first, the farther one otherwise.
pub open spec fn outranks(a: Candidate, b: Candidate, min_first: bool) -> bool {
    if min_first {
        closer(a, b)
    } else {
        closer(b, a)
    }
}

fn does_outrank(a: Candidate, b: Candidate, min_first: bool) -> (r: bool)
    ensures
        r == outranks(a, b, min_first),
{
    if min_first {
        is_closer(a, b)
    } else {
        is_closer(b, a)
    }
}

/// No item outranks the one stored at its parent position.
pub open spec fn heap_ordered(s: Seq<Candidate>, min_first: bool) -> bool {
    forall|i: int| 0 < i < s.len() ==> !outranks(#[trigger] s[i], s[(i - 1) / 2], min_first)
}

/// `x` occurs in `m` and nothing in `m` outranks it.
pub open spec fn is_top(m: Multiset<Candidate>, x: Candidate, min_first: bool) -> bool {
    &&& m.count(x) > 0
    &&& forall|y: Candidate| #[trigger] m.count(y) > 0 ==> !outranks(y, x, min_first)
}

/// Non-decreasing in the candidate order.
pub open spec fn ascending(s: Seq<Candidate>) -> bool {
    forall|i: int, j: int| 0 <= i < j < s.len() ==> !closer(#[trigger] s[j], #[trigger] s[i])
}

proof fn lemma_root_outranks(s: Seq<Candidate>, min_first: bool, i: int)
    requires
        heap_ordered(s, min_first),
        0 <= i < s.len(),
    ensures
        !outranks(s[i], s[0], min_first),
    decreases i,
{
    if i > 0 {
        lemma_root_outranks(s, min_first, (i - 1) / 2);
        assert(!outranks(s[i], s[(i - 1) / 2], min_first));
    }
}

proof fn lemma_root_is_top(s: Seq<Candidate>, min_first: bool)
    requires
        heap_ordered(s, min_first),
        s.len() > 0,
    ensures
        is_top(s.to_multiset(), s[0], min_first),
{
    s.to_multiset_ensures();
    assert(s.contains(s[0]));
    assert forall|y: Candidate| #[trigger] s.to_multiset().count(y) > 0 implies !outranks(
        y,
        s[0],
        min_first,
    ) by {
        assert(s.contains(y));
        let i = choose|i: int| 0 <= i < s.len() && s[i] == y;
        lemma_root_outranks(s, min_first, i);
    }
}

fn swap_items(v: &mut Vec<Candidate>, i: usize, j: usize)
    requires
        i < old(v).len(),
        j < old(v).len(),
    ensures
        final(v)@ == swapped(old(v)@, i as int, j as int),
        final(v)@.to_multiset() == old(v)@.to_multiset(),
{
    let a = v[i];
    let b = v[j];
    v[i] = b;
    v[j] = a;
    proof {
        let s = old(v)@;
        let s1 = s.update(i as int, b);
        s.to_multiset_ensures();
        s1.to_multiset_ensures();
        assert(s.contains(a));
        assert(s.contains(b));
        assert(s1.contains(s1[j as int]));
        vstd::seq_lib::to_multiset_update(s, i as int, b);
        vstd::seq_lib::to_multiset_update(s1, j as int, a);
        assert(s1.update(j as int, a).to_multiset() =~= s.to_multiset());
    }
}

/// Every item but the one at `pos` is in order with its parent.
spec fn ordered_except(s: Seq<Candidate>, pos: int, min_first: bool) -> bool {
    forall|i: int|
        0 < i < s.len() && i != pos ==> !outranks(#[trigger] s[i], s[(i - 1) / 2], min_first)
}

/// Every item whose parent is not at `pos` is in order with its parent.
spec fn ordered_apart(s: Seq<Candidate>, pos: int, min_first: bool) -> bool {
    forall|i: int|
        0 < i < s.len() && (i - 1) / 2 != pos ==> !outranks(
            #[trigger] s[i],
            s[(i - 1) / 2],
            min_first,
        )
}

/// The children of `pos` are in order with the parent of `pos`.
spec fn skips_in_order(s: Seq<Candidate>, pos: int, min_first: bool) -> bool {
    pos > 0 ==> forall|i: int|
        0 < i < s.len() && (i - 1) / 2 == pos ==> !outranks(
            #[trigger] s[i],
            s[(pos - 1) / 2],
            min_first,
        )
}

/// No child of `pos` outranks the item at `pos`.
spec fn settled_at(s: Seq<Candidate>, pos: int, min_first: bool) -> bool {
    forall|i: int|
        0 < i < s.len() && (i - 1) / 2 == pos ==> !outranks(#[trigger] s[i], s[pos], min_first)
}

/// `s` with the items at `i` and `j` exchanged.
spec fn swapped(s: Seq<Candidate>, i: int, j: int) -> Seq<Candidate> {
    s.update(i, s[j]).update(j, s[i])
}

proof fn lemma_rise_step(s: Seq<Candidate>, pos: int, min_first: bool)
    requires
        0 < pos < s.len(),
        ordered_except(s, pos, min_first),
        skips_in_order(s, pos, min_first),
        outranks(s[pos], s[(pos - 1) / 2], min_first),
    ensures
        ordered_except(swapped(s, pos, (pos - 1) / 2), (pos - 1) / 2, min_first),
        skips_in_order(swapped(s, pos, (pos - 1) / 2), (pos - 1) / 2, min_first),
{
    let up = (pos - 1) / 2;
    let t = swapped(s, pos, up);
    assert forall|i: int| 0 < i < t.len() && i != up implies !outranks(
        #[trigger] t[i],
        t[(i - 1) / 2],
        min_first,
    ) by {
        if i == pos {
        } else if (i - 1) / 2 == pos {
            assert(!outranks(s[i], s[(pos - 1) / 2], min_first));
        } else if (i - 1) / 2 == up {
            assert(!outranks(s[i], s[(i - 1) / 2], min_first));
        } else {
            assert(!outranks(s[i], s[(i - 1) / 2], min_first));
        }
    }
    if up > 0 {
        assert forall|i: int| 0 < i < t.len() && (i - 1) / 2 == up implies !outranks(
            #[trigger] t[i],
            t[(up - 1) / 2],
            min_first,
        ) by {
            assert(!outranks(s[up], s[(up - 1) / 2], min_first));
            if i != pos {
                assert(!outranks(s[i], s[(i - 1) / 2], min_first));
            }
        }
    }
}

proof fn lemma_sink_step(s: Seq<Candidate>, pos: int, child: int, min_first: bool)
    requires
        0 <= pos < child < s.len(),
        (child - 1) / 2 == pos,
        ordered_apart(s, pos, min_first),
        skips_in_order(s, pos, min_first),
        forall|i: int|
            0 < i < s.len() && (i - 1) / 2 == pos ==> !outranks(#[trigger] s[i], s[child], min_first),
        outranks(s[child], s[pos], min_first),
    ensures
        ordered_apart(swapped(s, pos, child), child, min_first),
        skips_in_order(swapped(s, pos, child), child, min_first),
{
    let t = swapped(s, pos, child);
    assert forall|i: int| 0 < i < t.len() && (i - 1) / 2 != child implies !outranks(
        #[trigger] t[i],
        t[(i - 1) / 2],
        min_first,
    ) by {
        if i == child {
        } else if (i - 1) / 2 == pos {
            assert(!outranks(s[i], s[child], min_first));
        } else if i == pos {
            assert(!outranks(s[child], s[(pos - 1) / 2], min_first));
        } else {
            assert(!outranks(s[i], s[(i - 1) / 2], min_first));
        }
    }
    assert forall|i: int| 0 < i < t.len() && (i - 1) / 2 == child implies !outranks(
        #[trigger] t[i],
        t[(child - 1) / 2],
        min_first,
    ) by {
        assert(!outranks(s[i], s[(i - 1) / 2], min_first));
    }
}

proof fn lemma_settled(s: Seq<Candidate>, pos: int, min_first: bool)
    requires
        ordered_apart(s, pos, min_first),
        settled_at(s, pos, min_first),
    ensures
        heap_ordered(s, min_first),
{
    assert forall|i: int| 0 < i < s.len() implies !outranks(
        #[trigger] s[i],
        s[(i - 1) / 2],
        min_first,
    ) by {
        if (i - 1) / 2 == pos {
            assert(!outranks(s[i], s[pos], min_first));
        }
    }
}

fn sift_up(v: &mut Vec<Candidate>, min_first: bool)
    requires
        old(v).len() > 0,
        ordered_except(old(v)@, old(v).len() - 1, min_first),
    ensures
        heap_ordered(final(v)@, min_first),
        final(v)@.to_multiset() == old(v)@.to_multiset(),
{
    let ghost orig = v@;
    let n = v.len();
    let mut pos: usize = n - 1;
    let mut settled = false;
    proof {
        assert(skips_in_order(v@, pos as int, min_first));
    }
    while pos > 0 && !settled
        invariant
            v.len() == n,
            pos < n,
            v@.to_multiset() == orig.to_multiset(),
            ordered_except(v@, pos as int, min_first),
            skips_in_order(v@, pos as int, min_first),
            settled && pos > 0 ==> !outranks(v@[pos as int], v@[(pos - 1) / 2], min_first),
        decreases pos + (if settled { 0int } else { 1int }),
    {
        let up: usize = (pos - 1) / 2;
        if does_outrank(v[pos], v[up], min_first) {
            proof {
                lemma_rise_step(v@, pos as int, min_first);
            }
            swap_items(v, pos, up);
            pos = up;
        } else {
            settled = true;
        }
    }
    proof {
        assert forall|i: int| 0 < i < v@.len() implies !outranks(
            #[trigger] v@[i],
            v@[(i - 1) / 2],
            min_first,
        ) by {}
    }
}

fn sift_down(v: &mut Vec<Candidate>, min_first: bool)
    requires
        ordered_apart(old(v)@, 0, min_first),
    ensures
        heap_ordered(final(v)@, min_first),
        final(v)@.to_multiset() == old(v)@.to_multiset(),
{
    let ghost orig = v@;
    let n = v.len();
    let mut pos: usize = 0;
    let mut settled = false;
    while !settled
        invariant
            v.len() == n,
            pos < n || pos == 0,
            v@.to_multiset() == orig.to_multiset(),
            ordered_apart(v@, pos as int, min_first),
            skips_in_order(v@, pos as int, min_first),
            settled ==> settled_at(v@, pos as int, min_first),
        decreases n - pos + (if settled { 0int } else { 1int }),
    {
        if n < 2 || pos > (n - 2) / 2 {
            settled = true;
        } else {
            let left: usize = 2 * pos + 1;
            let right: usize = left + 1;
            let child: usize = if right < n && does_outrank(v[right], v[left], min_first) {
                right
            } else {
                left
            };
            proof {
                assert forall|i: int| 0 < i < n && (i - 1) / 2 == pos implies !outranks(
                    #[trigger] v@[i],
                    v@[child as int],
                    min_first,
                ) by {
                    assert(i == left || i == right);
                }
            }
            if does_outrank(v[child], v[pos], min_first) {
                proof {
                    lemma_sink_step(v@, pos as int, child as int, min_first);
                }
                swap_items(v, pos, child);
                pos = child;
            } else {
                settled = true;
            }
        }
    }
    proof {
        lemma_settled(v@, pos as int, min_first);
    }
}

/// Adds `x` to a heap.
fn heap_push(v: &mut Vec<Candidate>, x: Candidate, min_first: bool)
    requires
        heap_ordered(old(v)@, min_first),
    ensures
        heap_ordered(final(v)@, min_first),
        final(v)@.to_multiset() == old(v)@.to_multiset().insert(x),
{
    proof {
        vstd::seq_lib::to_multiset_build(v@, x);
    }
    v.push(x);
    proof {
        assert(ordered_except(v@, v@.len() - 1, min_first));
    }
    sift_up(v, min_first);
}

/// Takes the top item off a heap, if it has one.
fn heap_pop(v: &mut Vec<Candidate>, min_first: bool) -> (top: Option<Candidate>)
    requires
        heap_ordered(old(v)@, min_first),
    ensures
        heap_ordered(final(v)@, min_first),
        match top {
            Some(x) => is_top(old(v)@.to_multiset(), x, min_first) && final(v)@.to_multiset()
                == old(v)@.to_multiset().remove(x),
            None => old(v)@.len() == 0 && final(v)@ == old(v)@,
        },
{
    let n = v.len();
    if n == 0 {
        return None;
    }
    let ghost s = v@;
    proof {
        lemma_root_is_top(s, min_first);
    }
    let top = v[0];
    let last = v.pop().unwrap();
    let ghost s1 = v@;
    proof {
        assert(s =~= s1.push(last));
        vstd::seq_lib::to_multiset_build(s1, last);
        s1.to_multiset_ensures();
    }
    if n > 1 {
        v[0] = last;
        proof {
            vstd::seq_lib::to_multiset_update(s1, 0, last);
            assert(s1.contains(s1[0]));
            assert(v@.to_multiset() =~= s.to_multiset().remove(top));
            assert(ordered_apart(v@, 0, min_first)) by {
                assert forall|i: int| 0 < i < v@.len() && (i - 1) / 2 != 0 implies !outranks(
                    #[trigger] v@[i],
                    v@[(i - 1) / 2],
                    min_first,
                ) by {
                    assert(!outranks(s[i], s[(i - 1) / 2], min_first));
                }
            }
        }
        sift_down(v, min_first);
    } else {
        proof {
            assert(s1.to_multiset() =~= s.to_multiset().remove(top));
        }
    }
    Some(top)
}

/// The item of a non-empty collection that is farthest in the candidate
/// order.
pub open spec fn worst(m: Multiset<Candidate>) -> Candidate {
    choose|x: Candidate| is_top(m, x, false)
}

/// The item of a non-empty collection that is closest in the candidate
/// order.
pub open spec fn best(m: Multiset<Candidate>) -> Candidate {
    choose|x: Candidate| is_top(m, x, true)
}

/// What a bounded collection holds after `x` is offered to it: `x` joins
/// while there is room; once the bound is reached, `x` takes the place of
/// the worst item if it is closer than that one, and is dropped otherwise.
pub open spec fn offer(m: Multiset<Candidate>, bound: nat, x: Candidate) -> Multiset<Candidate> {
    if m.len() < bound {
        m.insert(x)
    } else if m.len() > 0 && closer(x, worst(m)) {
        m.remove(worst(m)).insert(x)
    } else {
        m
    }
}

/// A collection that is not empty has a top.
pub proof fn lemma_has_top(m: Multiset<Candidate>, min_first: bool)
    requires
        m.len() > 0,
    ensures
        exists|x: Candidate| is_top(m, x, min_first),
    decreases m.len(),
{
    broadcast use vstd::multiset::group_multiset_axioms;

    vstd::multiset::lemma_multiset_empty_len(m);
    let e = m.choose();
    let rest = m.remove(e);
    assert(Multiset::singleton(e).subset_of(m));
    if rest.len() == 0 {
        vstd::multiset::lemma_multiset_empty_len(rest);
        assert forall|y: Candidate| #[trigger] m.count(y) > 0 implies !outranks(
            y,
            e,
            min_first,
        ) by {
            assert(rest.count(y) == 0);
        }
        assert(is_top(m, e, min_first));
    } else {
        lemma_has_top(rest, min_first);
        let t = choose|x: Candidate| is_top(rest, x, min_first);
        if outranks(e, t, min_first) {
            assert forall|y: Candidate| #[trigger] m.count(y) > 0 implies !outranks(
                y,
                e,
                min_first,
            ) by {
                if y != e {
                    assert(rest.count(y) > 0);
                }
            }
            assert(is_top(m, e, min_first));
        } else {
            assert forall|y: Candidate| #[trigger] m.count(y) > 0 implies !outranks(
                y,
                t,
                min_first,
            ) by {
                if y != e {
                    assert(rest.count(y) > 0);
                }
            }
            assert(is_top(m, t, min_first));
        }
    }
}

/// At most one item is the top of a collection.
pub proof fn lemma_top_unique(m: Multiset<Candidate>, a: Candidate, b: Candidate, min_first: bool)
    requires
        is_top(m, a, min_first),
        is_top(m, b, min_first),
    ensures
        a == b,
{
}

/// A bounded heap that keeps the closest candidates offered to it and has
/// the farthest of them on top. Its view is the collection it holds.
pub struct MaxSizeHeap {
    heap: Vec<Candidate>,
    max_size: usize,
}

impl View for MaxSizeHeap {
    type V = Multiset<Candidate>;

    closed spec fn view(&self) -> Multiset<Candidate> {
        self.heap@.to_multiset()
    }
}

impl MaxSizeHeap {
    /// The items are heap-ordered and within the bound.
    pub closed spec fn wf(&self) -> bool {
        heap_ordered(self.heap@, false) && self.heap@.len() <= self.max_size
    }

    /// The bound this heap was made with.
    pub closed spec fn bound(&self) -> nat {
        self.max_size as nat
    }

    /// An empty heap that will hold at most `max_size` items.
    pub fn new(max_size: usize) -> (h: Self)
        ensures
            h.wf(),
            h@ == Multiset::<Candidate>::empty(),
            h.bound() == max_size,
    {
        let heap: Vec<Candidate> = Vec::new();
        proof {
            heap@.to_multiset_ensures();
            assert(heap@.to_multiset() =~= Multiset::<Candidate>::empty());
        }
        MaxSizeHeap { heap, max_size }
    }

    /// Offers `element` to the heap.
    pub fn push(&mut self, element: Candidate)
        requires
            old(self).wf(),
        ensures
            final(self).wf(),
            final(self).bound() == old(self).bound(),
            final(self)@ == offer(old(self)@, old(self).bound(), element),
            final(self)@.len() <= final(self).bound(),
    {
        proof {
            self.heap@.to_multiset_ensures();
        }
        if self.heap.len() < self.max_size {
            heap_push(&mut self.heap, element, false);
            proof {
                self.heap@.to_multiset_ensures();
            }
        } else if self.heap.len() > 0 {
            let top = self.heap[0];
            proof {
                lemma_root_is_top(self.heap@, false);
                lemma_top_unique(self@, top, worst(self@), false);
            }
            if is_closer(element, top) {
                let ghost before = self.heap@;
                let evicted = heap_pop(&mut self.heap, false);
                proof {
                    lemma_top_unique(before.to_multiset(), top, evicted.unwrap(), false);
                    before.to_multiset_ensures();
                    self.heap@.to_multiset_ensures();
                }
                heap_push(&mut self.heap, element, false);
                proof {
                    self.heap@.to_multiset_ensures();
                }
            }
        }
    }

    /// The farthest item held, if any.
    pub fn peek(&self) -> (top: Option<&Candidate>)
        requires
            self.wf(),
        ensures
            match top {
                Some(x) => is_top(self@, *x, false),
                None => self@.len() == 0,
            },
    {
        proof {
            self.heap@.to_multiset_ensures();
        }
        if self.heap.len() == 0 {
            None
        } else {
            proof {
                lemma_root_is_top(self.heap@, false);
            }
            Some(&self.heap[0])
        }
    }

    /// The number of items held.
    pub fn len(&self) -> (n: usize)
        requires
            self.wf(),
        ensures
            n == self@.len(),
            n <= self.bound(),
    {
        proof {
            self.heap@.to_multiset_ensures();
        }
        self.heap.len()
    }

    /// Empties the heap into a vector, closest item first.
    pub fn into_sorted_vec(self) -> (out: Vec<Candidate>)
        requires
            self.wf(),
        ensures
            ascending(out@),
            out@.to_multiset() == self@,
    {
        let mut heap = self.heap;
        let ghost all = heap@.to_multiset();
        let mut down: Vec<Candidate> = Vec::new();
        proof {
            down@.to_multiset_ensures();
            assert(down@.to_multiset().add(all) =~= all);
        }
        while heap.len() > 0
            invariant
                heap_ordered(heap@, false),
                down@.to_multiset().add(heap@.to_multiset()) == all,
                forall|i: int, y: Candidate|
                    0 <= i < down.len() && #[trigger] heap@.to_multiset().count(y) > 0 ==> !closer(
                        #[trigger] down@[i],
                        y,
                    ),
                forall|i: int, j: int|
                    0 <= i < j < down.len() ==> !closer(#[trigger] down@[i], #[trigger] down@[j]),
            decreases heap.len(),
        {
            let ghost m = heap@.to_multiset();
            let ghost d = down@;
            proof {
                heap@.to_multiset_ensures();
            }
            let top = heap_pop(&mut heap, false);
            let x = top.unwrap();
            down.push(x);
            proof {
                heap@.to_multiset_ensures();
                vstd::seq_lib::to_multiset_build(d, x);
                assert(down@.to_multiset().add(heap@.to_multiset()) =~= all);
                assert forall|y: Candidate| #[trigger]
                    heap@.to_multiset().count(y) > 0 implies m.count(y) > 0 by {}
            }
        }
        let n = down.len();
        let mut out: Vec<Candidate> = Vec::new();
        let mut i: usize = n;
        while i > 0
            invariant
                n == down.len(),
                i <= n,
                out.len() == n - i,
                forall|k: int| 0 <= k < out.len() ==> #[trigger] out@[k] == down@[n - 1 - k],
            decreases i,
        {
            i -= 1;
            out.push(down[i]);
        }
        proof {
            heap@.to_multiset_ensures();
            assert(heap@.to_multiset() =~= Multiset::<Candidate>::empty());
            assert(down@.to_multiset() =~= all);
            assert(out@ =~= down@.reverse());
            down@.lemma_reverse_to_multiset();
        }
        out
    }
}

/// The candidates discovered but not yet expanded, closest on top. Its view
/// is the collection it holds.
pub struct Frontier {
    heap: Vec<Candidate>,
}

impl View for Frontier {
    type V = Multiset<Candidate>;

    closed spec fn view(&self) -> Multiset<Candidate> {
        self.heap@.to_multiset()
    }
}

impl Frontier {
    /// The items are heap-ordered.
    pub closed spec fn wf(&self) -> bool {
        heap_ordered(self.heap@, true)
    }

    /// An empty frontier.
    pub fn new() -> (f: Self)
        ensures
            f.wf(),
            f@ == Multiset::<Candidate>::empty(),
    {
        let heap: Vec<Candidate> = Vec::new();
        proof {
            heap@.to_multiset_ensures();
            assert(heap@.to_multiset() =~= Multiset::<Candidate>::empty());
        }
        Frontier { heap }
    }

    /// Adds a candidate.
    pub fn push(&mut self, element: Candidate)
        requires
            old(self).wf(),
        ensures
            final(self).wf(),
            final(self)@ == old(self)@.insert(element),
    {
        heap_push(&mut self.heap, element, true);
    }

    /// Removes and returns the closest candidate, if any is left.
    pub fn pop(&mut self) -> (top: Option<Candidate>)
        requires
            old(self).wf(),
        ensures
            final(self).wf(),
            match top {
                Some(x) => is_top(old(self)@, x, true) && final(self)@ == old(self)@.remove(x),
                None => old(self)@.len() == 0 && final(self)@ == old(self)@,
            },
    {
        proof {
            self.heap@.to_multiset_ensures();
        }
        heap_pop(&mut self.heap, true)
    }

    /// The number of candidates held.
    pub fn len(&self) -> (n: usize)
        ensures
            n == self@.len(),
    {
        proof {
            self.heap@.to_multiset_ensures();
        }
        self.heap.len()
    }
}

/// The items of a collection in ascending order.
pub open spec fn in_order(m: Multiset<Candidate>) -> Seq<Candidate> {
    choose|s: Seq<Candidate>| ascending(s) && s.to_multiset() == m
}

/// A collection has only one ascending arrangement.
pub proof fn lemma_ascending_unique(a: Seq<Candidate>, b: Seq<Candidate>)
    requires
        ascending(a),
        ascending(b),
        a.to_multiset() == b.to_multiset(),
    ensures
        a == b,
{
    let leq = |x: Candidate, y: Candidate| !closer(y, x);
    assert(vstd::relations::sorted_by(a, leq));
    assert(vstd::relations::sorted_by(b, leq));
    assert(vstd::relations::total_ordering(leq)) by {
        assert(vstd::relations::reflexive(leq));
        assert(vstd::relations::antisymmetric(leq));
        assert(vstd::relations::transitive(leq));
        assert(vstd::relations::strongly_connected(leq));
    }
    vstd::seq_lib::lemma_sorted_unique(a, b, leq);
}

/// An ascending sequence is the ascending arrangement of what it holds.
pub proof fn lemma_in_order(s: Seq<Candidate>)
    requires
        ascending(s),
    ensures
        in_order(s.to_multiset()) == s,
{
    let t = in_order(s.to_multiset());
    assert(ascending(t) && t.to_multiset() == s.to_multiset());
    lemma_ascending_unique(s, t);
}

} // verus!
