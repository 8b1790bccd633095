//! The directed graph: a fixed number of vertices and, for each vertex, the
//! ordered list of its successors.

use std::collections::HashMap;
use vstd::prelude::*;

verus! {

/// A directed graph over the vertices `0 .. vertex_count()`.
///
/// An edge may occur more than once; each occurrence is kept, in the order in
/// which it was added. Every stored endpoint is a vertex of the graph.
pub struct DirectedGraph {
    vertices: usize,
    edges: HashMap<usize, Vec<usize>>,
}

/// The adjacency that results from adding the edge `from -> to` to `links`
/// in a graph of `count` vertices: the edge is appended to the successors of
/// `from` when both endpoints are vertices, and dropped otherwise.
pub open spec fn with_edge(
    links: Map<usize, Seq<usize>>,
    count: usize,
    from: usize,
    to: usize,
) -> Map<usize, Seq<usize>> {
    if from < count && to < count {
        links.insert(from, links[from].push(to))
    } else {
        links
    }
}

/// The adjacency of a graph of `count` vertices without edges.
pub open spec fn no_edges(count: usize) -> Map<usize, Seq<usize>> {
    Map::new(|v: usize| v < count, |v: usize| Seq::<usize>::empty())
}

/// Every edge of `links` runs between two of the `count` vertices, and the
/// vertices are exactly the keys.
pub open spec fn edges_in_range(links: Map<usize, Seq<usize>>, count: usize) -> bool {
    &&& forall|v: usize| #[trigger] links.contains_key(v) <==> v < count
    &&& forall|v: usize, i: int|
        links.contains_key(v) && 0 <= i < links[v].len() ==> #[trigger] links[v][i] < count
}

/// A graph without edges has every edge in range.
pub proof fn lemma_no_edges_in_range(count: usize)
    ensures
        edges_in_range(no_edges(count), count),
{
}

/// Adding an edge keeps every edge in range: an edge with an endpoint that
/// is no vertex is never stored.
pub proof fn lemma_with_edge_in_range(
    links: Map<usize, Seq<usize>>,
    count: usize,
    from: usize,
    to: usize,
)
    requires
        edges_in_range(links, count),
    ensures
        edges_in_range(with_edge(links, count, from, to), count),
{
    let after = with_edge(links, count, from, to);
    assert forall|v: usize, i: int|
        after.contains_key(v) && 0 <= i < after[v].len() implies #[trigger] after[v][i] < count by {
        if from < count && to < count && v == from && i < links[v].len() {
            assert(after[v][i] == links[v][i]);
        }
    }
}

impl View for DirectedGraph {
    type V = Map<usize, Seq<usize>>;

    /// The adjacency: each vertex mapped to its successors, in insertion
    /// order. A vertex without outgoing edges is mapped to the empty sequence.
    closed spec fn view(&self) -> Map<usize, Seq<usize>> {
        Map::new(
            |v: usize| v < self.vertices,
            |v: usize|
                if self.edges@.contains_key(v) {
                    self.edges@[v]@
                } else {
                    Seq::<usize>::empty()
                },
        )
    }
}

impl DirectedGraph {
    #[verifier::type_invariant]
    spec fn in_range(&self) -> bool {
        forall|v: usize| #[trigger]
            self.edges@.contains_key(v) ==> v < self.vertices && forall|i: int|
                0 <= i < self.edges@[v]@.len() ==> #[trigger] self.edges@[v]@[i] < self.vertices
    }

    /// The number of vertices, fixed when the graph is made.
    pub closed spec fn vertex_count(&self) -> usize {
        self.vertices
    }

    /// A graph of `count` vertices and no edges.
    pub fn new(count: usize) -> (graph: DirectedGraph)
        ensures
            graph.vertex_count() == count,
            graph@ == no_edges(count),
            edges_in_range(graph@, count),
    {
        let graph = DirectedGraph { vertices: count, edges: HashMap::new() };
        assert(graph@ =~= no_edges(count));
        graph
    }

    /// The successors of `v`, in the order in which their edges were added;
    /// empty for a vertex without outgoing edges and for any `v` that is no
    /// vertex of the graph.
    pub open spec fn successors(&self, v: usize) -> Seq<usize> {
        if self@.contains_key(v) {
            self@[v]
        } else {
            Seq::empty()
        }
    }

    /// The successors of `v`. Each of them is a vertex of the graph, and only
    /// a vertex of the graph has any.
    pub fn neighbors(&self, v: usize) -> (list: &[usize])
        ensures
            list@ == self.successors(v),
            list@.len() > 0 ==> v < self.vertex_count(),
            forall|i: int| 0 <= i < list@.len() ==> list@[i] < self.vertex_count(),
    {
        proof {
            use_type_invariant(self);
        }
        match self.edges.get(&v) {
            Some(list) => list.as_slice(),
            None => &[],
        }
    }

    /// The number of vertices. Every edge of the graph runs between two of
    /// them.
    pub fn vertices(&self) -> (count: usize)
        ensures
            count == self.vertex_count(),
            edges_in_range(self@, count),
    {
        proof {
            use_type_invariant(self);
        }
        self.vertices
    }

    /// Adds the edge `from -> to` after the edges already leaving `from`.
    /// An edge with an endpoint that is no vertex of the graph is dropped.
    pub fn add_edge(&mut self, from: usize, to: usize)
        ensures
            final(self).vertex_count() == old(self).vertex_count(),
            final(self)@ == with_edge(old(self)@, old(self).vertex_count(), from, to),
            edges_in_range(final(self)@, final(self).vertex_count()),
    {
        proof {
            use_type_invariant(&*self);
        }
        if from < self.vertices && to < self.vertices {
            let mut edges: HashMap<usize, Vec<usize>> = HashMap::new();
            std::mem::swap(&mut edges, &mut self.edges);
            let successors = edges.entry(from).or_insert(Vec::new());
            successors.push(to);
            self.edges = edges;
            assert(self@ =~= with_edge(old(self)@, old(self).vertex_count(), from, to));
        }
    }
}

} // verus!
