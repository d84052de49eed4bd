//! Fixed-size coloured graphs stored as adjacency lists.
use crate::{Colour, VertexIndex};
use vstd::prelude::*;

verus! {

/// Colour of a vertex that was never coloured.
pub const DEFAULT_COLOR: Colour = 2147483647;

/// How the vertex list is arranged, which decides how a vertex is found.
#[derive(Debug, Clone, Copy, PartialEq, Eq, Structural)]
pub enum GraphState {
    /// The vertex with index `i` stands at position `i`.
    IndexOrdered,
    ColourGrouped,
    ColourGroupedOrdered,
    Chaos,
    Fixed,
}

/// A vertex index that the graph does not hold.
#[derive(Debug, Clone, Copy, PartialEq, Eq, Structural)]
pub struct GraphError(pub VertexIndex);

/// A vertex with its outgoing arcs and its colour.
#[derive(Debug, Clone, PartialEq, Eq)]
pub struct Vertex {
    pub index: VertexIndex,
    pub edges_to: Vec<VertexIndex>,
    pub colour: Colour,
}

/// A graph with a fixed vertex set.
#[derive(Debug, Clone, PartialEq, Eq)]
pub struct Graph {
    pub vertices: Vec<Vertex>,
    pub size: usize,
    pub edge_number: usize,
    pub state: GraphState,
}

/// Position `i` of the graph holds the vertex with index `i`.
pub open spec fn index_ordered(g: &Graph) -> bool {
    forall|i: int| 0 <= i < g.vertices@.len() ==> #[trigger] g.vertices@[i].index == i
}

/// The arc `u -> v`, read at position `u` of an index-ordered graph.
pub open spec fn adjacent(g: &Graph, u: int, v: VertexIndex) -> bool {
    0 <= u < g.vertices@.len() && g.vertices@[u].edges_to@.contains(v)
}

/// Membership in `subset`, as a predicate.
pub open spec fn in_subset(subset: Seq<VertexIndex>) -> spec_fn(VertexIndex) -> bool {
    |e: VertexIndex| subset.contains(e)
}

/// The arcs of the graph, vertex by vertex, each list in its order.
pub open spec fn arcs_spec(vs: Seq<Vertex>) -> Seq<(VertexIndex, VertexIndex)>
    decreases vs.len(),
{
    if vs.len() == 0 {
        seq![]
    } else {
        let last = vs.last();
        arcs_spec(vs.drop_last()) + last.edges_to@.map_values(|e: VertexIndex| (last.index, e))
    }
}

/// Where a vertex with `index` is found: in an index-ordered graph at
/// position `index`; otherwise at the first position holding it.
pub open spec fn finds_at(g: &Graph, index: VertexIndex, r: Option<usize>) -> bool {
    match r {
        Some(k) => k < g.vertices@.len() && if g.state == GraphState::IndexOrdered {
            k == index
        } else {
            g.vertices@[k as int].index == index && forall|j: int|
                0 <= j < k ==> #[trigger] g.vertices@[j].index != index
        },
        None => if g.state == GraphState::IndexOrdered {
            !(0 <= index < g.vertices@.len())
        } else {
            forall|j: int| 0 <= j < g.vertices@.len() ==> #[trigger] g.vertices@[j].index != index
        },
    }
}

/// `after` is `before` with the arc `start -> end` added at position `p1`
/// and the arc `end -> start` at position `p2`, nothing else changed.
pub open spec fn edge_added(before: Seq<Vertex>, after: Seq<Vertex>, p1: int, p2: int, start: VertexIndex, end: VertexIndex) -> bool {
    &&& after.len() == before.len()
    &&& forall|k: int| 0 <= k < before.len() && k != p1 && k != p2 ==> #[trigger] after[k] == before[k]
    &&& after[p1].index == before[p1].index && after[p1].colour == before[p1].colour
    &&& after[p2].index == before[p2].index && after[p2].colour == before[p2].colour
    &&& if p1 == p2 {
        after[p1].edges_to@ == before[p1].edges_to@.push(end).push(start)
    } else {
        &&& after[p1].edges_to@ == before[p1].edges_to@.push(end)
        &&& after[p2].edges_to@ == before[p2].edges_to@.push(start)
    }
}

/// The graph holds a vertex with `index`.
pub open spec fn holds_index(g: &Graph, index: VertexIndex) -> bool {
    exists|p: usize| finds_at(g, index, Some(p))
}

/// `v` is the vertex with `index` of `g`, restricted to the arcs into `subset`.
pub open spec fn induced_vertex(g: &Graph, subset: Seq<VertexIndex>, index: VertexIndex, v: Vertex) -> bool {
    &&& v.index == index
    &&& exists|p: usize|
        #[trigger] finds_at(g, index, Some(p)) && v.colour == g.vertices@[p as int].colour
            && v.edges_to@ == g.vertices@[p as int].edges_to@.filter(in_subset(subset))
}

/// A sequence in strictly increasing order.
pub open spec fn strictly_sorted(s: Seq<VertexIndex>) -> bool {
    forall|i: int, j: int| 0 <= i < j < s.len() ==> #[trigger] s[i] < #[trigger] s[j]
}

impl Vertex {
    /// A vertex without arcs.
    pub fn new(index: VertexIndex, colour: Colour) -> (r: Self)
        ensures
            r.index == index,
            r.colour == colour,
            r.edges_to@.len() == 0,
    {
        Vertex { index, edges_to: Vec::new(), colour }
    }

    /// Adds the arc to `end`.
    pub fn add_edge(&mut self, end: VertexIndex)
        ensures
            final(self).edges_to@ == old(self).edges_to@.push(end),
            final(self).index == old(self).index,
            final(self).colour == old(self).colour,
    {
        self.edges_to.push(end);
    }
}

impl Graph {
    /// The graph's invariant: the vertex list has the graph's size.
    pub open spec fn wf(&self) -> bool {
        self.vertices@.len() == self.size
    }

    /// Number of vertices.
    pub fn size(&self) -> (r: usize)
        ensures
            r == self.size,
    {
        self.size
    }

    /// Number of arcs added so far.
    pub fn number_edges(&self) -> (r: usize)
        ensures
            r == self.edge_number,
    {
        self.edge_number
    }

    /// Whether the graph has fewer arcs than a quarter of `n (n - 1)`.
    pub fn is_sparse(&self) -> (r: bool)
        ensures
            r == (self.edge_number * 4 < self.size * (self.size - 1)),
    {
        let n = self.size as u128;
        if n == 0 {
            assert(self.size * (self.size - 1) == 0) by (nonlinear_arith)
                requires
                    self.size == 0,
            ;
            return false;
        }
        let e = self.edge_number as u128;
        proof {
            assert(n * (n - 1) <= 0xffff_ffff_ffff_ffff * 0xffff_ffff_ffff_ffff) by (nonlinear_arith)
                requires
                    n <= 0xffff_ffff_ffff_ffff,
                    n >= 1,
            ;
        }
        let product = n * (n - 1);
        assert(product == self.size * (self.size - 1));
        e * 4 < product
    }

    /// `n` uncoloured vertices `0..n` without arcs.
    pub fn new_ordered(n: usize) -> (r: Self)
        requires
            n <= 2147483647,
        ensures
            r.wf(),
            r.size == n,
            r.edge_number == 0,
            r.state == GraphState::IndexOrdered,
            index_ordered(&r),
            forall|i: int|
                0 <= i < n ==> (#[trigger] r.vertices@[i]).edges_to@.len() == 0
                    && r.vertices@[i].colour == DEFAULT_COLOR,
    {
        let mut vertices: Vec<Vertex> = Vec::new();
        let mut index: usize = 0;
        while index < n
            invariant
                index <= n <= 2147483647,
                vertices@.len() == index,
                forall|i: int|
                    0 <= i < index ==> (#[trigger] vertices@[i]).index == i
                        && vertices@[i].edges_to@.len() == 0 && vertices@[i].colour == DEFAULT_COLOR,
            decreases n - index,
        {
            vertices.push(Vertex::new(index as VertexIndex, DEFAULT_COLOR));
            index += 1;
        }
        Graph { vertices, size: n, edge_number: 0, state: GraphState::IndexOrdered }
    }

    /// Uncoloured vertices with the given indices, in that order, without arcs.
    pub fn new_with_indices(indices: &Vec<VertexIndex>) -> (r: Self)
        ensures
            r.wf(),
            r.size == indices@.len(),
            r.edge_number == 0,
            r.state == GraphState::Chaos,
            forall|i: int|
                0 <= i < indices@.len() ==> (#[trigger] r.vertices@[i]).index == indices@[i]
                    && r.vertices@[i].edges_to@.len() == 0 && r.vertices@[i].colour == DEFAULT_COLOR,
    {
        let mut vertices: Vec<Vertex> = Vec::new();
        let mut k: usize = 0;
        while k < indices.len()
            invariant
                k <= indices@.len(),
                vertices@.len() == k,
                forall|i: int|
                    0 <= i < k ==> (#[trigger] vertices@[i]).index == indices@[i]
                        && vertices@[i].edges_to@.len() == 0 && vertices@[i].colour == DEFAULT_COLOR,
            decreases indices@.len() - k,
        {
            vertices.push(Vertex::new(indices[k], DEFAULT_COLOR));
            k += 1;
        }
        Graph { vertices, size: indices.len(), edge_number: 0, state: GraphState::Chaos }
    }

    /// The position of the vertex with `index`.
    fn find_vertex(&self, index: VertexIndex) -> (r: Option<usize>)
        ensures
            finds_at(self, index, r),
    {
        if self.state == GraphState::IndexOrdered {
            if 0 <= index && (index as usize) < self.vertices.len() {
                Some(index as usize)
            } else {
                None
            }
        } else {
            let mut k: usize = 0;
            while k < self.vertices.len()
                invariant
                    k <= self.vertices@.len(),
                    self.state != GraphState::IndexOrdered,
                    forall|j: int| 0 <= j < k ==> #[trigger] self.vertices@[j].index != index,
                decreases self.vertices@.len() - k,
            {
                if self.vertices[k].index == index {
                    return Some(k);
                }
                k += 1;
            }
            None
        }
    }

    /// Replaces the vertex that has the new vertex's index. Outside an
    /// index-ordered or fixed arrangement the graph becomes unordered.
    pub fn set_vertex(&mut self, new_vertex: Vertex) -> (r: Result<(), GraphError>)
        ensures
            final(self).size == old(self).size,
            final(self).edge_number == old(self).edge_number,
            exists|pos: Option<usize>|
                #[trigger] finds_at(old(self), new_vertex.index, pos) && match pos {
                    Some(k) => r is Ok && final(self).vertices@ == old(self).vertices@.update(
                        k as int,
                        new_vertex,
                    ),
                    None => r == Err::<(), GraphError>(GraphError(new_vertex.index))
                        && final(self).vertices@ == old(self).vertices@,
                },
            final(self).state == (if old(self).state == GraphState::IndexOrdered || old(
                self,
            ).state == GraphState::Fixed || r is Err {
                old(self).state
            } else {
                GraphState::Chaos
            }),
    {
        let index = new_vertex.index;
        let pos = self.find_vertex(index);
        match pos {
            Some(k) => {
                self.vertices.set(k, new_vertex);
                if self.state != GraphState::IndexOrdered && self.state != GraphState::Fixed {
                    self.state = GraphState::Chaos;
                }
                Ok(())
            },
            None => Err(GraphError(index)),
        }
    }

    /// The vertex with `index`.
    pub fn get_vertex(&self, index: VertexIndex) -> (r: Result<&Vertex, GraphError>)
        ensures
            exists|pos: Option<usize>|
                #[trigger] finds_at(self, index, pos) && match pos {
                    Some(k) => r == Ok::<&Vertex, GraphError>(&self.vertices@[k as int]),
                    None => r == Err::<&Vertex, GraphError>(GraphError(index)),
                },
    {
        match self.find_vertex(index) {
            Some(k) => Ok(&self.vertices[k]),
            None => Err(GraphError(index)),
        }
    }

    /// Adds the arc `start -> end`.
    pub fn add_arc(&mut self, start: VertexIndex, end: VertexIndex) -> (r: Result<(), GraphError>)
        requires
            old(self).edge_number < usize::MAX,
        ensures
            final(self).size == old(self).size,
            final(self).state == old(self).state,
            final(self).vertices@.len() == old(self).vertices@.len(),
            r is Ok <==> holds_index(old(self), start),
            r is Err ==> r == Err::<(), GraphError>(GraphError(start)) && final(self).vertices@
                == old(self).vertices@ && final(self).edge_number == old(self).edge_number,
            forall|k: usize|
                #[trigger] finds_at(old(self), start, Some(k)) ==> final(self).edge_number == old(
                    self,
                ).edge_number + 1 && final(self).vertices@ == old(self).vertices@.update(
                    k as int,
                    Vertex {
                        edges_to: final(self).vertices@[k as int].edges_to,
                        ..old(self).vertices@[k as int]
                    },
                ) && final(self).vertices@[k as int].edges_to@ == old(
                    self,
                ).vertices@[k as int].edges_to@.push(end),
    {
        let ghost g0 = *self;
        let found = self.find_vertex(start);
        proof {
            lemma_finds_unique(&g0, start, found);
        }
        match found {
            Some(k) => {
                let ghost before = self.vertices@;
                let mut vertex = self.vertices.remove(k);
                vertex.add_edge(end);
                self.vertices.insert(k, vertex);
                assert(self.vertices@ =~= before.update(k as int, vertex));
                self.edge_number = self.edge_number + 1;
                Ok(())
            },
            None => Err(GraphError(start)),
        }
    }

    /// Adds the arcs `start -> end` and `end -> start`.
    pub fn add_edge(&mut self, start: VertexIndex, end: VertexIndex) -> (r: Result<(), GraphError>)
        requires
            old(self).edge_number < usize::MAX - 1,
        ensures
            final(self).size == old(self).size,
            final(self).state == old(self).state,
            final(self).vertices@.len() == old(self).vertices@.len(),
            r is Ok <==> holds_index(old(self), start) && holds_index(old(self), end),
            r is Ok ==> final(self).edge_number == old(self).edge_number + 2,
            r is Ok ==> forall|p1: usize, p2: usize|
                #[trigger] finds_at(old(self), start, Some(p1)) && #[trigger] finds_at(old(self), end, Some(p2))
                    ==> edge_added(old(self).vertices@, final(self).vertices@, p1 as int, p2 as int, start, end),
    {
        let ghost g0 = *self;
        let first = self.add_arc(start, end);
        if first.is_err() {
            return first;
        }
        let ghost g1 = *self;
        proof {
            assert forall|k: int| 0 <= k < g0.vertices@.len() implies #[trigger] g0.vertices@[k].index
                == g1.vertices@[k].index by {
                let p = choose|p: usize| finds_at(&g0, start, Some(p));
                if k != p {
                    assert(g1.vertices@[k] == g0.vertices@[k]);
                }
            }
            lemma_finds_same(&g0, &g1, end);
        }
        let second = self.add_arc(end, start);
        proof {
            if second is Ok {
                assert(holds_index(&g0, end)) by {
                    let p = choose|p: usize| finds_at(&g1, end, Some(p));
                    assert(finds_at(&g0, end, Some(p)));
                }
                assert forall|p1: usize, p2: usize|
                    #[trigger] finds_at(&g0, start, Some(p1)) && #[trigger] finds_at(&g0, end, Some(p2)) implies
                        edge_added(g0.vertices@, self.vertices@, p1 as int, p2 as int, start, end) by {
                    assert(finds_at(&g1, end, Some(p2)));
                    let v0 = g0.vertices@;
                    let v1 = g1.vertices@;
                    let v2 = self.vertices@;
                    assert(v1[p1 as int].edges_to@ == v0[p1 as int].edges_to@.push(end));
                    assert(v2[p2 as int].edges_to@ == v1[p2 as int].edges_to@.push(start));
                    assert forall|k: int| 0 <= k < v0.len() && k != p1 && k != p2 implies #[trigger] v2[k] == v0[k] by {
                        assert(v2[k] == v1[k]);
                        assert(v1[k] == v0[k]);
                    }
                    if p1 != p2 {
                        assert(v2[p1 as int] == v1[p1 as int]);
                    }
                }
            } else {
                assert(!holds_index(&g0, end)) by {
                    if holds_index(&g0, end) {
                        let p = choose|p: usize| finds_at(&g0, end, Some(p));
                        assert(finds_at(&g1, end, Some(p)));
                    }
                }
            }
        }
        second
    }

    /// Whether the arc `start -> end` exists; the graph must be index-ordered.
    pub fn lookup_edge(&self, start: &VertexIndex, end: &VertexIndex) -> (r: bool)
        requires
            0 <= *start < self.vertices@.len(),
        ensures
            r == adjacent(self, *start as int, *end),
    {
        let edges = &self.vertices[*start as usize].edges_to;
        assert(edges@ == self.vertices@[*start as int].edges_to@);
        let mut k: usize = 0;
        while k < edges.len()
            invariant
                edges@ == self.vertices@[*start as int].edges_to@,
                0 <= *start < self.vertices@.len(),
                k <= edges@.len(),
                forall|j: int| 0 <= j < k ==> edges@[j] != *end,
            decreases edges@.len() - k,
        {
            if edges[k] == *end {
                assert(edges@[k as int] == *end);
                assert(edges@.contains(*end));
                return true;
            }
            k += 1;
        }
        assert(!edges@.contains(*end));
        false
    }

    /// Every arc `(start, end)`, vertex by vertex.
    pub fn iterate_edges(&self) -> (r: Vec<(VertexIndex, VertexIndex)>)
        ensures
            r@ == arcs_spec(self.vertices@),
    {
        let mut arcs: Vec<(VertexIndex, VertexIndex)> = Vec::new();
        let mut k: usize = 0;
        while k < self.vertices.len()
            invariant
                k <= self.vertices@.len(),
                arcs@ == arcs_spec(self.vertices@.take(k as int)),
            decreases self.vertices@.len() - k,
        {
            let vertex = &self.vertices[k];
            let ghost start = arcs@;
            let mut j: usize = 0;
            while j < vertex.edges_to.len()
                invariant
                    j <= vertex.edges_to@.len(),
                    arcs@ == start + vertex.edges_to@.take(j as int).map_values(
                        |e: VertexIndex| (vertex.index, e),
                    ),
                decreases vertex.edges_to@.len() - j,
            {
                arcs.push((vertex.index, vertex.edges_to[j]));
                assert(vertex.edges_to@.take(j + 1).map_values(|e: VertexIndex| (vertex.index, e))
                    =~= vertex.edges_to@.take(j as int).map_values(|e: VertexIndex| (vertex.index, e)).push(
                    (vertex.index, vertex.edges_to@[j as int]),
                ));
                j += 1;
            }
            assert(vertex.edges_to@.take(j as int) =~= vertex.edges_to@);
            assert(self.vertices@.take(k + 1).drop_last() =~= self.vertices@.take(k as int));
            k += 1;
        }
        assert(self.vertices@.take(k as int) =~= self.vertices@);
        arcs
    }

    /// Sorts every adjacency list and removes repeated arcs.
    pub fn minimize(&mut self)
        ensures
            final(self).size == old(self).size,
            final(self).edge_number == old(self).edge_number,
            final(self).state == old(self).state,
            final(self).vertices@.len() == old(self).vertices@.len(),
            forall|k: int|
                0 <= k < old(self).vertices@.len() ==> {
                    let v = #[trigger] final(self).vertices@[k];
                    &&& v.index == old(self).vertices@[k].index
                    &&& v.colour == old(self).vertices@[k].colour
                    &&& strictly_sorted(v.edges_to@)
                    &&& forall|e: VertexIndex|
                        v.edges_to@.contains(e) <==> old(self).vertices@[k].edges_to@.contains(e)
                },
    {
        let n = self.vertices.len();
        let mut k: usize = 0;
        while k < n
            invariant
                n == self.vertices@.len(),
                n == old(self).vertices@.len(),
                k <= n,
                self.size == old(self).size,
                self.edge_number == old(self).edge_number,
                self.state == old(self).state,
                forall|j: int|
                    k <= j < n ==> #[trigger] self.vertices@[j] == old(self).vertices@[j],
                forall|j: int|
                    0 <= j < k ==> {
                        let v = #[trigger] self.vertices@[j];
                        &&& v.index == old(self).vertices@[j].index
                        &&& v.colour == old(self).vertices@[j].colour
                        &&& strictly_sorted(v.edges_to@)
                        &&& forall|e: VertexIndex|
                            v.edges_to@.contains(e) <==> old(self).vertices@[j].edges_to@.contains(e)
                    },
            decreases n - k,
        {
            let ghost before = self.vertices@;
            let mut vertex = self.vertices.remove(k);
            let sorted = sorted_copy(&vertex.edges_to);
            let unique = dedup_sorted(&sorted);
            proof {
                sorted@.to_multiset_ensures();
                vertex.edges_to@.to_multiset_ensures();
                assert forall|e: VertexIndex| unique@.contains(e) <==> vertex.edges_to@.contains(e) by {
                    assert(sorted@.contains(e) <==> sorted@.to_multiset().count(e) > 0);
                    assert(vertex.edges_to@.contains(e) <==> vertex.edges_to@.to_multiset().count(e) > 0);
                }
            }
            vertex.edges_to = unique;
            self.vertices.insert(k, vertex);
            assert(self.vertices@ =~= before.update(k as int, vertex));
            k += 1;
        }
    }

    /// Gives vertex `i` the colour `colours[i]`, stopping at the first
    /// index that the graph does not hold.
    pub fn set_colours(&mut self, colours: &Vec<Colour>) -> (r: Result<(), GraphError>)
        requires
            colours@.len() <= 2147483647,
        ensures
            final(self).size == old(self).size,
            final(self).edge_number == old(self).edge_number,
            final(self).state == old(self).state,
            final(self).vertices@.len() == old(self).vertices@.len(),
            old(self).state == GraphState::IndexOrdered ==> {
                &&& (r is Ok <==> colours@.len() <= old(self).vertices@.len())
                &&& r is Err ==> r == Err::<(), GraphError>(
                    GraphError(old(self).vertices@.len() as VertexIndex),
                )
                &&& r is Ok ==> forall|i: int|
                    0 <= i < old(self).vertices@.len() ==> #[trigger] final(self).vertices@[i] == (
                    if i < colours@.len() {
                        Vertex { colour: colours@[i], ..old(self).vertices@[i] }
                    } else {
                        old(self).vertices@[i]
                    })
            },
    {
        let mut i: usize = 0;
        while i < colours.len()
            invariant
                i <= colours@.len() <= 2147483647,
                self.size == old(self).size,
                self.edge_number == old(self).edge_number,
                self.state == old(self).state,
                self.vertices@.len() == old(self).vertices@.len(),
                old(self).state == GraphState::IndexOrdered ==> i <= self.vertices@.len(),
                old(self).state == GraphState::IndexOrdered ==> forall|j: int|
                    0 <= j < self.vertices@.len() ==> #[trigger] self.vertices@[j] == (if j < i {
                        Vertex { colour: colours@[j], ..old(self).vertices@[j] }
                    } else {
                        old(self).vertices@[j]
                    }),
            decreases colours@.len() - i,
        {
            match self.find_vertex(i as VertexIndex) {
                Some(k) => {
                    let ghost before = self.vertices@;
                    let mut vertex = self.vertices.remove(k);
                    vertex.colour = colours[i];
                    self.vertices.insert(k, vertex);
                    assert(self.vertices@ =~= before.update(k as int, vertex));
                },
                None => {
                    return Err(GraphError(i as VertexIndex));
                },
            }
            i += 1;
        }
        Ok(())
    }

    /// The subgraph on the vertices whose indices `subset` lists, in that
    /// order, keeping the arcs between them; fails on an index that the
    /// graph does not hold.
    pub fn induce_subgraph(&self, subset: &Vec<VertexIndex>) -> (r: Result<Graph, GraphError>)
        ensures
            r is Ok <==> forall|i: int| 0 <= i < subset@.len() ==> holds_index(self, #[trigger] subset@[i]),
            r is Err ==> exists|i: int|
                0 <= i < subset@.len() && !holds_index(self, #[trigger] subset@[i]) && r == Err::<
                    Graph,
                    GraphError,
                >(GraphError(subset@[i])),
            r is Ok ==> {
                let g = r->Ok_0;
                &&& g.wf()
                &&& g.vertices@.len() == subset@.len()
                &&& g.state == GraphState::Chaos
                &&& g.edge_number == 0
                &&& forall|i: int|
                    0 <= i < subset@.len() ==> induced_vertex(self, subset@, subset@[i], #[trigger] g.vertices@[i])
            },
    {
        let mut vertices: Vec<Vertex> = Vec::new();
        let mut k: usize = 0;
        while k < subset.len()
            invariant
                k <= subset@.len(),
                vertices@.len() == k,
                forall|i: int|
                    0 <= i < k ==> induced_vertex(self, subset@, subset@[i], #[trigger] vertices@[i]),
            decreases subset@.len() - k,
        {
            let index = subset[k];
            match self.find_vertex(index) {
                Some(p) => {
                    let source = &self.vertices[p];
                    let mut kept: Vec<VertexIndex> = Vec::new();
                    let mut j: usize = 0;
                    while j < source.edges_to.len()
                        invariant
                            j <= source.edges_to@.len(),
                            kept@ == source.edges_to@.take(j as int).filter(in_subset(subset@)),
                        decreases source.edges_to@.len() - j,
                    {
                        let e = source.edges_to[j];
                        proof {
                            reveal(Seq::filter);
                            assert(source.edges_to@.take(j + 1).drop_last() =~= source.edges_to@.take(j as int));
                        }
                        if contains_index(subset, e) {
                            kept.push(e);
                        }
                        j += 1;
                    }
                    assert(source.edges_to@.take(j as int) =~= source.edges_to@);
                    let ghost before = vertices@;
                    let vertex = Vertex { index, edges_to: kept, colour: source.colour };
                    assert(induced_vertex(self, subset@, index, vertex)) by {
                        assert(finds_at(self, index, Some(p)));
                    }
                    vertices.push(vertex);
                    proof {
                        assert forall|i: int| 0 <= i < k + 1 implies induced_vertex(self, subset@, subset@[i], #[trigger] vertices@[i]) by {
                            if i < k {
                                assert(vertices@[i] == before[i]);
                            }
                        }
                    }
                },
                None => {
                    proof {
                        lemma_finds_unique(self, index, None);
                        assert(!holds_index(self, index));
                    }
                    return Err(GraphError(index));
                },
            }
            k += 1;
        }
        proof {
            assert forall|i: int| 0 <= i < subset@.len() implies holds_index(self, #[trigger] subset@[i]) by {
                assert(induced_vertex(self, subset@, subset@[i], vertices@[i]));
            }
        }
        Ok(Graph { size: vertices.len(), vertices, edge_number: 0, state: GraphState::Chaos })
    }

    /// Brings the vertices into index order, unless they already are.
    pub fn sort(&mut self)
        ensures
            final(self).size == old(self).size,
            final(self).edge_number == old(self).edge_number,
            final(self).state == GraphState::IndexOrdered,
            final(self).vertices@.to_multiset() == old(self).vertices@.to_multiset(),
            old(self).state == GraphState::IndexOrdered ==> final(self).vertices@ == old(self).vertices@,
            forall|i: int, j: int|
                0 <= i <= j < final(self).vertices@.len() && old(self).state != GraphState::IndexOrdered
                    ==> #[trigger] final(self).vertices@[i].index <= #[trigger] final(self).vertices@[j].index,
    {
        if self.state != GraphState::IndexOrdered {
            let mut vertices: Vec<Vertex> = Vec::new();
            std::mem::swap(&mut vertices, &mut self.vertices);
            self.vertices = sorted_by_index(vertices);
            self.state = GraphState::IndexOrdered;
        }
    }

    /// Groups the vertices by colour: an index-ordered graph becomes
    /// colour-grouped and ordered, an unordered one colour-grouped; other
    /// arrangements stay as they are.
    pub fn group_colours(&mut self)
        ensures
            final(self).size == old(self).size,
            final(self).edge_number == old(self).edge_number,
            final(self).vertices@.to_multiset() == old(self).vertices@.to_multiset(),
            final(self).state == (match old(self).state {
                GraphState::IndexOrdered => GraphState::ColourGroupedOrdered,
                GraphState::Chaos => GraphState::ColourGrouped,
                other => other,
            }),
            old(self).state != GraphState::IndexOrdered && old(self).state != GraphState::Chaos ==> final(self).vertices@
                == old(self).vertices@,
            old(self).state == GraphState::IndexOrdered || old(self).state == GraphState::Chaos ==> forall|i: int, j: int|
                0 <= i <= j < final(self).vertices@.len() ==> #[trigger] final(self).vertices@[i].colour
                    <= #[trigger] final(self).vertices@[j].colour,
    {
        if self.state == GraphState::IndexOrdered || self.state == GraphState::Chaos {
            let mut vertices: Vec<Vertex> = Vec::new();
            std::mem::swap(&mut vertices, &mut self.vertices);
            self.vertices = sorted_by_colour(vertices);
            if self.state == GraphState::IndexOrdered {
                self.state = GraphState::ColourGroupedOrdered;
            } else {
                self.state = GraphState::ColourGrouped;
            }
        }
    }

    /// The vertex with `index`, to be changed in place.
    pub fn get_vertex_mut(&mut self, index: VertexIndex) -> (r: Result<&mut Vertex, GraphError>)
        ensures
            exists|pos: Option<usize>|
                #[trigger] finds_at(old(self), index, pos) && match pos {
                    Some(k) => r is Ok && *r->Ok_0 == old(self).vertices@[k as int]
                        && final(self).vertices@ == old(self).vertices@.update(
                        k as int,
                        *final(r->Ok_0),
                    ),
                    None => r == Err::<&mut Vertex, GraphError>(GraphError(index))
                        && final(self).vertices@ == old(self).vertices@,
                },
            final(self).size == old(self).size,
            final(self).edge_number == old(self).edge_number,
            final(self).state == old(self).state,
    {
        match self.find_vertex(index) {
            Some(k) => Ok(&mut self.vertices[k]),
            None => Err(GraphError(index)),
        }
    }
}


/// A graph's lookup of `index` has one answer.
proof fn lemma_finds_unique(g: &Graph, index: VertexIndex, pos: Option<usize>)
    requires
        finds_at(g, index, pos),
    ensures
        forall|q: Option<usize>| #[trigger] finds_at(g, index, q) ==> q == pos,
{
    assert forall|q: Option<usize>| #[trigger] finds_at(g, index, q) implies q == pos by {
        match (pos, q) {
            (Some(a), Some(b)) => {
                if g.state != GraphState::IndexOrdered {
                    if a < b {
                        assert(g.vertices@[a as int].index != index);
                    } else if b < a {
                        assert(g.vertices@[b as int].index != index);
                    }
                }
            },
            (Some(a), None) => {
                if g.state != GraphState::IndexOrdered {
                    assert(g.vertices@[a as int].index != index);
                }
            },
            (None, Some(b)) => {
                if g.state != GraphState::IndexOrdered {
                    assert(g.vertices@[b as int].index != index);
                }
            },
            (None, None) => {},
        }
    }
}

/// Adding arcs changes no lookup.
proof fn lemma_finds_same(g1: &Graph, g2: &Graph, index: VertexIndex)
    requires
        g1.state == g2.state,
        g1.vertices@.len() == g2.vertices@.len(),
        forall|k: int| 0 <= k < g1.vertices@.len() ==> #[trigger] g1.vertices@[k].index == g2.vertices@[k].index,
    ensures
        forall|q: Option<usize>| #[trigger] finds_at(g1, index, q) <==> finds_at(g2, index, q),
{
    assert forall|q: Option<usize>| #[trigger] finds_at(g1, index, q) <==> finds_at(g2, index, q) by {
        if g1.state != GraphState::IndexOrdered {
            match q {
                Some(k) => {
                    if k < g1.vertices@.len() {
                        assert(g1.vertices@[k as int].index == g2.vertices@[k as int].index);
                        assert((forall|j: int| 0 <= j < k ==> #[trigger] g1.vertices@[j].index != index) <==> (forall|j: int| 0 <= j < k ==> #[trigger] g2.vertices@[j].index != index)) by {
                            if forall|j: int| 0 <= j < k ==> #[trigger] g1.vertices@[j].index != index {
                                assert forall|j: int| 0 <= j < k implies #[trigger] g2.vertices@[j].index != index by {
                                    assert(g1.vertices@[j].index == g2.vertices@[j].index);
                                }
                            }
                            if forall|j: int| 0 <= j < k ==> #[trigger] g2.vertices@[j].index != index {
                                assert forall|j: int| 0 <= j < k implies #[trigger] g1.vertices@[j].index != index by {
                                    assert(g1.vertices@[j].index == g2.vertices@[j].index);
                                }
                            }
                        }
                    }
                },
                None => {
                    if forall|j: int| 0 <= j < g1.vertices@.len() ==> #[trigger] g1.vertices@[j].index != index {
                        assert forall|j: int| 0 <= j < g2.vertices@.len() implies #[trigger] g2.vertices@[j].index != index by {
                            assert(g1.vertices@[j].index == g2.vertices@[j].index);
                        }
                    }
                    if forall|j: int| 0 <= j < g2.vertices@.len() ==> #[trigger] g2.vertices@[j].index != index {
                        assert forall|j: int| 0 <= j < g1.vertices@.len() implies #[trigger] g1.vertices@[j].index != index by {
                            assert(g1.vertices@[j].index == g2.vertices@[j].index);
                        }
                    }
                },
            }
        }
    }
}

/// Whether `v` lists `x`.
pub fn contains_index(v: &Vec<VertexIndex>, x: VertexIndex) -> (r: bool)
    ensures
        r == v@.contains(x),
{
    let mut k: usize = 0;
    while k < v.len()
        invariant
            k <= v@.len(),
            forall|j: int| 0 <= j < k ==> v@[j] != x,
        decreases v@.len() - k,
    {
        if v[k] == x {
            return true;
        }
        k += 1;
    }
    false
}

/// Removes repeats from a sorted list.
pub(crate) fn dedup_sorted(v: &Vec<VertexIndex>) -> (r: Vec<VertexIndex>)
    requires
        forall|i: int, j: int| 0 <= i <= j < v@.len() ==> #[trigger] v@[i] <= #[trigger] v@[j],
    ensures
        strictly_sorted(r@),
        forall|e: VertexIndex| r@.contains(e) <==> v@.contains(e),
{
    let mut out: Vec<VertexIndex> = Vec::new();
    let mut k: usize = 0;
    while k < v.len()
        invariant
            k <= v@.len(),
            forall|i: int, j: int| 0 <= i <= j < v@.len() ==> #[trigger] v@[i] <= #[trigger] v@[j],
            strictly_sorted(out@),
            k > 0 ==> out@.len() > 0 && out@.last() == v@[k - 1],
            k == 0 ==> out@.len() == 0,
            forall|e: VertexIndex| out@.contains(e) <==> v@.take(k as int).contains(e),
        decreases v@.len() - k,
    {
        let x = v[k];
        let ghost before = out@;
        if out.len() == 0 || out[out.len() - 1] != x {
            proof {
                if k > 0 {
                    assert(v@[k - 1] <= x);
                }
                assert forall|i: int| 0 <= i < before.len() implies #[trigger] before[i] < x by {
                    if k > 0 {
                        assert(before[i] <= before.last());
                    }
                }
            }
            out.push(x);
        }
        proof {
            assert(v@.take(k + 1) =~= v@.take(k as int).push(x));
            assert(out@.contains(x)) by {
                assert(out@[out@.len() - 1] == x);
            }
            assert forall|e: VertexIndex| out@.contains(e) <==> (before.contains(e) || e == x) by {
                if out@.len() == before.len() + 1 {
                    assert(out@ == before.push(x));
                    if out@.contains(e) && e != x {
                        let i = choose|i: int| 0 <= i < out@.len() && out@[i] == e;
                        assert(before[i] == e);
                    }
                    if before.contains(e) {
                        let i = choose|i: int| 0 <= i < before.len() && before[i] == e;
                        assert(out@[i] == e);
                    }
                }
            }
            assert forall|e: VertexIndex| v@.take(k + 1).contains(e) <==> (v@.take(k as int).contains(e) || e == x) by {
                if v@.take(k + 1).contains(e) && e != x {
                    let i = choose|i: int| 0 <= i < k + 1 && #[trigger] v@.take(k + 1)[i] == e;
                    assert(v@.take(k as int)[i] == e);
                }
                if v@.take(k as int).contains(e) {
                    let i = choose|i: int| 0 <= i < k && #[trigger] v@.take(k as int)[i] == e;
                    assert(v@.take(k + 1)[i] == e);
                }
                if e == x {
                    assert(v@.take(k + 1)[k as int] == e);
                }
            }
            assert forall|e: VertexIndex| out@.contains(e) <==> v@.take(k + 1).contains(e) by {
                assert(before.contains(e) <==> v@.take(k as int).contains(e));
            }
        }
        k += 1;
    }
    assert(v@.take(k as int) =~= v@);
    out
}

/// Relies on `slice::sort_unstable_by` with the vertex index as key: the
/// same vertices in ascending order of index.
#[verifier::external_body]
fn sorted_by_index(v: Vec<Vertex>) -> (r: Vec<Vertex>)
    ensures
        r@.to_multiset() == v@.to_multiset(),
        forall|i: int, j: int| 0 <= i <= j < r@.len() ==> #[trigger] r@[i].index <= #[trigger] r@[j].index,
{
    let mut r = v;
    r.sort_unstable_by(|a, b| a.index.cmp(&b.index));
    r
}

/// Relies on `slice::sort_by` with the colour as key: the same vertices in
/// ascending order of colour.
#[verifier::external_body]
fn sorted_by_colour(v: Vec<Vertex>) -> (r: Vec<Vertex>)
    ensures
        r@.to_multiset() == v@.to_multiset(),
        forall|i: int, j: int| 0 <= i <= j < r@.len() ==> #[trigger] r@[i].colour <= #[trigger] r@[j].colour,
{
    let mut r = v;
    r.sort_by(|a, b| a.colour.cmp(&b.colour));
    r
}

/// Relies on `slice::sort_unstable`: the same elements in ascending order.
#[verifier::external_body]
pub(crate) fn sorted_copy(v: &Vec<VertexIndex>) -> (r: Vec<VertexIndex>)
    ensures
        r@.to_multiset() == v@.to_multiset(),
        forall|i: int, j: int| 0 <= i <= j < r@.len() ==> #[trigger] r@[i] <= #[trigger] r@[j],
{
    let mut r = v.clone();
    r.sort_unstable();
    r
}

} // verus!
