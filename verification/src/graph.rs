//! A graph as a list of vertices and a list of edges between their positions.
use vstd::prelude::*;
use vstd::std_specs::cmp::PartialEqSpec;

verus! {

/// The positions of the two vertices that an edge joins.
#[derive(Clone, Copy, Debug, PartialEq, Eq, PartialOrd, Ord, Structural)]
pub struct EdgeUV {
    pub u: i32,
    pub v: i32,
}

/// An edge: it joins two vertices and can be turned round.
pub trait Edge: Sized {
    /// The positions that the edge joins.
    spec fn ends(&self) -> EdgeUV;

    fn get_uv(&self) -> (uv: &EdgeUV)
        ensures
            *uv == self.ends(),
    ;

    fn reversed(&self) -> (turned: Self)
        ensures
            turned.ends() == (EdgeUV { u: self.ends().v, v: self.ends().u }),
    ;
}

/// An edge without a weight.
#[derive(Clone, Debug, PartialEq, Eq, PartialOrd, Ord, Structural)]
pub struct UnweightedEdge {
    pub uv: EdgeUV,
}

impl Edge for UnweightedEdge {
    open spec fn ends(&self) -> EdgeUV {
        self.uv
    }

    fn get_uv(&self) -> (uv: &EdgeUV) {
        &self.uv
    }

    fn reversed(&self) -> (turned: Self) {
        UnweightedEdge { uv: EdgeUV { u: self.uv.v, v: self.uv.u } }
    }
}

/// Vertices and the edges between them.
pub struct Graph<V, E> where E: Edge + PartialEq {
    pub vertices: Vec<V>,
    pub edges: Vec<E>,
}

/// The positions, among the first `upto` edges, of those that leave the
/// vertex at position `index`.
pub open spec fn leaving<E: Edge>(edges: Seq<E>, index: int, upto: int) -> Seq<int>
    decreases upto,
{
    if upto <= 0 {
        Seq::empty()
    } else if edges[upto - 1].ends().u == index {
        leaving(edges, index, upto - 1).push(upto - 1)
    } else {
        leaving(edges, index, upto - 1)
    }
}

impl<V, E> Graph<V, E> where V: Clone + PartialEq, E: Clone + Edge + PartialEq {
    /// Every edge joins two positions that hold a vertex.
    pub open spec fn wf(&self) -> bool {
        forall|i: int|
            0 <= i < self.edges@.len() ==> 0 <= (#[trigger] self.edges@[i]).ends().u < self.vertices@.len() && 0
                <= self.edges@[i].ends().v < self.vertices@.len()
    }

    /// A graph of the given vertices without edges.
    pub fn new(vertices: Vec<V>) -> (graph: Self)
        ensures
            graph.vertices == vertices,
            graph.edges@.len() == 0,
            graph.wf(),
    {
        Self { vertices, edges: Vec::new() }
    }

    pub fn get_vertex_count(&self) -> (count: usize)
        ensures
            count == self.vertices@.len(),
    {
        self.vertices.len()
    }

    pub fn get_edge_count(&self) -> (count: usize)
        ensures
            count == self.edges@.len(),
    {
        self.edges.len()
    }

    /// Adds a vertex and returns its position.
    pub fn insert_vertex(&mut self, v: V) -> (index: usize)
        ensures
            final(self).vertices@ == old(self).vertices@.push(v),
            final(self).edges == old(self).edges,
            index == old(self).vertices@.len(),
    {
        self.vertices.push(v);
        self.vertices.len() - 1
    }

    /// Whether an edge equal to `e` is in the graph.
    fn holds_edge(&self, e: &E) -> (found: bool)
        ensures
            E::obeys_eq_spec() ==> (found <==> exists|i: int|
                0 <= i < self.edges@.len() && (#[trigger] self.edges@[i]).eq_spec(e)),
    {
        let mut i: usize = 0;
        while i < self.edges.len()
            invariant
                0 <= i <= self.edges@.len(),
                E::obeys_eq_spec() ==> forall|k: int| 0 <= k < i ==> !(#[trigger] self.edges@[k]).eq_spec(e),
            decreases self.edges@.len() - i,
        {
            if self.edges[i] == *e {
                return true;
            }
            i += 1;
        }
        false
    }

    /// Adds an edge and the edge turned round, unless an edge equal to it
    /// is there already.
    pub fn insert_edge(&mut self, e: E)
        ensures
            final(self).vertices == old(self).vertices,
            final(self).edges@.len() == old(self).edges@.len() || final(self).edges@.len() == old(
                self,
            ).edges@.len() + 2,
            final(self).edges@.take(old(self).edges@.len() as int) == old(self).edges@,
            final(self).edges@.len() == old(self).edges@.len() + 2 ==> {
                &&& cloned(e, final(self).edges@[old(self).edges@.len() as int])
                &&& final(self).edges@[old(self).edges@.len() as int + 1].ends() == (EdgeUV {
                    u: e.ends().v,
                    v: e.ends().u,
                })
            },
            E::obeys_eq_spec() ==> (final(self).edges@.len() == old(self).edges@.len() <==> exists|i: int|
                0 <= i < old(self).edges@.len() && (#[trigger] old(self).edges@[i]).eq_spec(&e)),
    {
        if !self.holds_edge(&e) {
            let copy = e.clone();
            let turned = e.reversed();
            self.edges.push(copy);
            self.edges.push(turned);
        }
        assert(self.edges@.take(old(self).edges@.len() as int) =~= old(self).edges@);
    }

    /// The position of the first vertex equal to `v`.
    pub fn get_index_of(&self, v: &V) -> (result: Option<usize>)
        ensures
            V::obeys_eq_spec() ==> match result {
                Some(index) => index < self.vertices@.len() && self.vertices@[index as int].eq_spec(v)
                    && forall|k: int| 0 <= k < index ==> !(#[trigger] self.vertices@[k]).eq_spec(v),
                None => forall|k: int| 0 <= k < self.vertices@.len() ==> !(#[trigger] self.vertices@[k]).eq_spec(v),
            },
    {
        let mut i: usize = 0;
        while i < self.vertices.len()
            invariant
                0 <= i <= self.vertices@.len(),
                V::obeys_eq_spec() ==> forall|k: int| 0 <= k < i ==> !(#[trigger] self.vertices@[k]).eq_spec(v),
            decreases self.vertices@.len() - i,
        {
            if self.vertices[i] == *v {
                return Some(i);
            }
            i += 1;
        }
        None
    }

    /// Copies of the vertices that the edges from the first vertex equal
    /// to `v` lead to.
    pub fn get_neighbours_for(&self, v: &V) -> (neighbours: Vec<V>)
        requires
            self.wf(),
            V::obeys_eq_spec(),
            exists|k: int| 0 <= k < self.vertices@.len() && (#[trigger] self.vertices@[k]).eq_spec(v),
        ensures
            exists|index: int|
                {
                    &&& 0 <= index < self.vertices@.len()
                    &&& (#[trigger] self.vertices@[index]).eq_spec(v)
                    &&& forall|k: int| 0 <= k < index ==> !(#[trigger] self.vertices@[k]).eq_spec(v)
                    &&& self.neighbours_from(index, neighbours@)
                },
    {
        match self.get_index_of(v) {
            Some(index) => {
                let neighbours = self.get_neighbours_for_index(index);
                assert(self.vertices@[index as int].eq_spec(v));
                neighbours
            },
            None => {
                proof {
                    let k = choose|k: int| 0 <= k < self.vertices@.len() && (#[trigger] self.vertices@[k]).eq_spec(v);
                    assert(!self.vertices@[k].eq_spec(v));
                }
                Vec::new()
            },
        }
    }

    /// `neighbours` holds a copy of the vertex at the far end of each edge
    /// that leaves the vertex at position `index`, in the order of the edges.
    pub open spec fn neighbours_from(&self, index: int, neighbours: Seq<V>) -> bool {
        let from = leaving(self.edges@, index, self.edges@.len() as int);
        &&& neighbours.len() == from.len()
        &&& forall|k: int|
            0 <= k < from.len() ==> cloned(
                self.vertices@[self.edges@[from[k]].ends().v as int],
                #[trigger] neighbours[k],
            )
    }

    /// Copies of the vertices that the edges from the vertex at position
    /// `index` lead to.
    pub fn get_neighbours_for_index(&self, index: usize) -> (neighbours: Vec<V>)
        requires
            self.wf(),
        ensures
            self.neighbours_from(index as int, neighbours@),
    {
        let mut neighbours: Vec<V> = Vec::new();
        let mut i: usize = 0;
        while i < self.edges.len()
            invariant
                self.wf(),
                0 <= i <= self.edges@.len(),
                neighbours@.len() == leaving(self.edges@, index as int, i as int).len(),
                forall|k: int|
                    0 <= k < neighbours@.len() ==> cloned(
                        self.vertices@[self.edges@[leaving(self.edges@, index as int, i as int)[k]].ends().v as int],
                        #[trigger] neighbours@[k],
                    ),
            decreases self.edges@.len() - i,
        {
            let uv = self.edges[i].get_uv();
            if uv.u >= 0 && uv.u as usize == index {
                let target = uv.v as usize;
                let copy = self.vertices[target].clone();
                neighbours.push(copy);
            }
            i += 1;
        }
        neighbours
    }

    /// Copies of the edges that leave the vertex at position `index`.
    pub fn get_edges_for_index(&self, index: usize) -> (edges: Vec<E>)
        ensures
            edges@.len() == leaving(self.edges@, index as int, self.edges@.len() as int).len(),
            forall|k: int|
                0 <= k < edges@.len() ==> cloned(
                    self.edges@[leaving(self.edges@, index as int, self.edges@.len() as int)[k]],
                    #[trigger] edges@[k],
                ),
    {
        let mut edges: Vec<E> = Vec::new();
        let mut i: usize = 0;
        while i < self.edges.len()
            invariant
                0 <= i <= self.edges@.len(),
                edges@.len() == leaving(self.edges@, index as int, i as int).len(),
                forall|k: int|
                    0 <= k < edges@.len() ==> cloned(
                        self.edges@[leaving(self.edges@, index as int, i as int)[k]],
                        #[trigger] edges@[k],
                    ),
            decreases self.edges@.len() - i,
        {
            let uv = self.edges[i].get_uv();
            if uv.u >= 0 && uv.u as usize == index {
                let copy = self.edges[i].clone();
                edges.push(copy);
            }
            i += 1;
        }
        edges
    }
}

/// A graph whose edges have no weight.
pub struct UnweightedGraph<V> {
    pub graph: Graph<V, UnweightedEdge>,
}

impl<V> UnweightedGraph<V> {
    pub fn new(vertices: Vec<V>) -> (made: Self)
        ensures
            made.graph.vertices == vertices,
            made.graph.edges@.len() == 0,
    {
        Self { graph: Graph { vertices, edges: Vec::new() } }
    }
}

} // verus!
