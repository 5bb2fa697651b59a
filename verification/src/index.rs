//! The read-only query view of a built graph.

use crate::codec::{count_nodes, image, image_graph, image_valid, nodes_before, read_graph, write_graph};
use crate::error::Error;
use crate::heap::{ascending, in_order, lemma_in_order, Candidate};
use crate::node::{graph_view, layer_closed, layer_view, nested, HnswNode};
use crate::metric::{dist_of, lemma_measures_reports, measures, to_goal};
use crate::traversal::{descend, descend_through, nearest, traverse};
use vstd::prelude::*;

verus! {

/// The bound on the candidates expanded in each upper layer while a query
/// descends to the bottom layer.
pub const MAX_SEARCH: usize = 800;

/// A graph that can be searched over `n` elements: it has a layer, its
/// layers are non-empty, closed and nested, and the bottom layer names no
/// more than `n` elements.
pub open spec fn searchable(graph: Seq<Seq<Seq<usize>>>, n: nat) -> bool {
    &&& graph.len() >= 1
    &&& nested(graph)
    &&& graph.last().len() <= n
}

/// What a query returns: the entry point comes from a descent through all
/// layers but the bottom one, the candidates from a traversal of the bottom
/// layer; they are listed closest first, each index with its distance.
pub open spec fn search_result(
    graph: Seq<Seq<Seq<usize>>>,
    goal: spec_fn(usize) -> u64,
    k: nat,
    max_search: nat,
) -> Seq<(usize, u64)> {
    let entry = descend(graph, goal, MAX_SEARCH as nat, (graph.len() - 1) as nat);
    in_order(nearest(graph.last(), entry, goal, max_search, k)).map_values(
        |c: Candidate| (c.1, c.0),
    )
}

/// A graph to be queried. Its view is the graph, layer by layer.
pub struct Hnsw {
    levels: Vec<Vec<HnswNode>>,
    num_elements: usize,
}

impl View for Hnsw {
    type V = Seq<Seq<Seq<usize>>>;

    closed spec fn view(&self) -> Seq<Seq<Seq<usize>>> {
        graph_view(self.levels@)
    }
}

impl Hnsw {
    /// The number of elements of the corpus that the graph is queried over.
    pub closed spec fn num_elements(&self) -> nat {
        self.num_elements as nat
    }

    /// The graph can be searched over its corpus.
    pub open spec fn wf(&self) -> bool {
        searchable(self@, self.num_elements())
    }

    /// The graph made of the given layers, to be queried over a corpus of
    /// `num_elements` elements. The layers are taken as they are: whether
    /// the graph can be searched is for `is_searchable` to say.
    pub fn from_layers(levels: Vec<Vec<HnswNode>>, num_elements: usize) -> (index: Self)
        ensures
            index@ == graph_view(levels@),
            index.num_elements() == num_elements,
    {
        Hnsw { levels, num_elements }
    }

    /// Decodes the graph that `buffer` begins with, to be queried over a
    /// corpus of `num_elements` elements. Node records are taken as they
    /// are: whether the graph can be searched is for `is_searchable` to say.
    pub fn load(buffer: &[u8], num_elements: usize) -> (result: Result<Hnsw, Error>)
        ensures
            match result {
                Ok(index) => image_valid(buffer@, num_elements as nat) && index@ == image_graph(
                    buffer@,
                ) && index.num_elements() == num_elements,
                Err(e) => e == Error::LoadFormat && !image_valid(buffer@, num_elements as nat),
            },
    {
        match read_graph(buffer, num_elements) {
            Some(levels) => Ok(Hnsw { levels, num_elements }),
            None => Err(Error::LoadFormat),
        }
    }

    /// Appends the byte image of the graph to `buffer`. A graph without
    /// layers has no image, nor has one with more nodes than a machine word
    /// counts.
    pub fn write(&self, buffer: &mut Vec<u8>) -> (result: Result<(), Error>)
        ensures
            match result {
                Ok(()) => {
                    &&& self@.len() > 0
                    &&& nodes_before(self@, self@.len() as int) <= usize::MAX
                    &&& final(buffer)@ == old(buffer)@ + image(self@)
                },
                Err(e) => {
                    &&& final(buffer)@ == old(buffer)@
                    &&& (self@.len() == 0 || nodes_before(self@, self@.len() as int) > usize::MAX)
                    &&& e == if self@.len() == 0 {
                        Error::NotBuilt
                    } else {
                        Error::InvalidConfig
                    }
                },
            },
    {
        if self.levels.len() == 0 {
            return Err(Error::NotBuilt);
        }
        match count_nodes(&self.levels) {
            Some(_) => {
                write_graph(&self.levels, buffer);
                Ok(())
            },
            None => Err(Error::InvalidConfig),
        }
    }

    /// The number of layers.
    pub fn num_levels(&self) -> (n: usize)
        ensures
            n == self@.len(),
    {
        self.levels.len()
    }

    /// The number of nodes in layer `k`.
    pub fn level_len(&self, k: usize) -> (n: usize)
        requires
            k < self@.len(),
        ensures
            n == self@[k as int].len(),
    {
        self.levels[k].len()
    }

    /// The neighbours of node `i` in layer `k`.
    pub fn neighbors(&self, k: usize, i: usize) -> (out: Vec<usize>)
        requires
            k < self@.len(),
            i < self@[k as int].len(),
        ensures
            out@ == self@[k as int][i as int],
    {
        self.levels[k][i].neighbors()
    }

    /// Decides whether the graph can be searched over its corpus.
    #[verifier::loop_isolation(false)]
    pub fn is_searchable(&self) -> (ok: bool)
        ensures
            ok == self.wf(),
    {
        let ghost graph = graph_view(self.levels@);
        let count = self.levels.len();
        if count == 0 {
            return false;
        }
        let mut k: usize = 0;
        while k < count
            invariant
                k <= count,
                count == self.levels.len(),
                graph == graph_view(self.levels@),
                forall|a: int| 0 <= a < k ==> (#[trigger] graph[a]).len() > 0 && layer_closed(graph[a]),
                forall|a: int| 0 < a < k ==> graph[a - 1].len() <= (#[trigger] graph[a]).len(),
            decreases count - k,
        {
            let layer = &self.levels[k];
            let size = layer.len();
            proof {
                assert(graph[k as int] == layer_view(layer@));
            }
            if size == 0 {
                return false;
            }
            if k > 0 && self.levels[k - 1].len() > size {
                proof {
                    assert(graph[k - 1].len() == self.levels[k - 1].len());
                }
                return false;
            }
            let mut p: usize = 0;
            while p < size
                invariant
                    p <= size,
                    size == layer.len(),
                    graph[k as int] == layer_view(layer@),
                    forall|a: int, b: int|
                        0 <= a < p && 0 <= b < graph[k as int][a].len() ==> #[trigger] graph[k as int][a][b] < size,
                decreases size - p,
            {
                let node = &layer[p];
                let len = node.len();
                let mut q: usize = 0;
                while q < len
                    invariant
                        q <= len,
                        len == node@.len(),
                        p < size,
                        size == layer.len(),
                        node@ == graph[k as int][p as int],
                        forall|b: int| 0 <= b < q ==> #[trigger] node@[b] < size,
                    decreases len - q,
                {
                    if node.neighbor(q) >= size {
                        proof {
                            assert(graph[k as int][p as int][q as int] >= graph[k as int].len());
                            assert(!layer_closed(graph[k as int]));
                        }
                        return false;
                    }
                    q += 1;
                }
                p += 1;
            }
            proof {
                if k > 0 {
                    assert(graph[k - 1].len() == self.levels[k - 1].len());
                }
            }
            k += 1;
        }
        proof {
            assert forall|a: int, b: int| 0 <= a <= b < graph.len() implies (#[trigger] graph[a]).len() <= (
            #[trigger] graph[b]).len() by {
                lemma_chain_grows(graph, a, b);
            }
            assert(graph.last() == graph[count - 1]);
            assert(graph[count - 1].len() == self.levels[count - 1].len());
        }
        self.levels[count - 1].len() <= self.num_elements
    }

    /// The `k` nearest neighbours of the goal that a traversal bounded by
    /// `max_search` finds, closest first, each with its distance. `dist`
    /// gives the distance of each element to the goal.
    pub fn search<G: Fn(usize) -> u64>(&self, dist: &G, k: usize, max_search: usize) -> (out: Vec<
        (usize, u64),
    >)
        requires
            self.wf(),
            measures(dist, self.num_elements()),
        ensures
            out@ == search_result(self@, to_goal(dist), k as nat, max_search as nat),
            out.len() <= k,
            out.len() <= max_search,
            out.len() <= self@.last().len() <= self.num_elements(),
            k > 0 && max_search > 0 ==> out.len() > 0,
            forall|i: int|
                0 <= i < out.len() ==> (#[trigger] out@[i]).0 < self@.last().len() && out@[i].1
                    == dist_of(dist, out@[i].0) && call_ensures(*dist, (out@[i].0,), out@[i].1),
            forall|i: int, j: int|
                0 <= i < j < out.len() ==> (#[trigger] out@[i]).0 != (#[trigger] out@[j]).0,
            forall|i: int, j: int|
                0 <= i < j < out.len() ==> (#[trigger] out@[i]).1 <= (#[trigger] out@[j]).1,
    {
        let ghost graph = graph_view(self.levels@);
        let ghost goal = to_goal(dist);
        let count = self.levels.len() - 1;
        proof {
            lemma_measures_reports(dist, self.num_elements as nat);
            assert(graph.last() == graph[count as int]);
            assert(graph[count as int] == layer_view(self.levels[count as int]@));
            if count > 0 {
                assert(graph[count - 1].len() == self.levels[count - 1].len());
                assert(graph[count - 1].len() <= graph[count as int].len());
            }
        }
        let entry = descend_through(&self.levels, count, dist, MAX_SEARCH, Ghost(goal));
        let found = traverse(
            &self.levels[count],
            entry,
            dist,
            max_search,
            k,
            Ghost(goal),
        );
        proof {
            lemma_in_order(found@);
        }
        let mut out: Vec<(usize, u64)> = Vec::with_capacity(found.len());
        let mut i: usize = 0;
        while i < found.len()
            invariant
                i <= found.len(),
                out.len() == i,
                forall|a: int| 0 <= a < i ==> #[trigger] out@[a] == (found@[a].1, found@[a].0),
            decreases found.len() - i,
        {
            let c = found[i];
            out.push((c.1, c.0));
            i += 1;
        }
        proof {
            assert(out@ =~= found@.map_values(|c: Candidate| (c.1, c.0)));
            assert forall|a: int, b: int| 0 <= a < b < out.len() implies (#[trigger] out@[a]).1 <= (
            #[trigger] out@[b]).1 by {
                assert(ascending(found@));
                assert(!crate::heap::closer(found@[b], found@[a]));
            }
        }
        out
    }
}

/// Sizes that grow from each layer to the next grow along any stretch.
proof fn lemma_chain_grows(graph: Seq<Seq<Seq<usize>>>, a: int, b: int)
    requires
        0 <= a <= b < graph.len(),
        forall|k: int| 0 < k < graph.len() ==> graph[k - 1].len() <= (#[trigger] graph[k]).len(),
    ensures
        graph[a].len() <= graph[b].len(),
    decreases b - a,
{
    if a < b {
        lemma_chain_grows(graph, a, b - 1);
        assert(graph[b - 1].len() <= graph[b].len());
    }
}

} // verus!
