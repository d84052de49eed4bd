//! Quotient graphs: one vertex per orbit, an arc between two orbits
//! wherever the original graph has an arc between their members.
use crate::graph::{
    arcs_spec, contains_index, finds_at, holds_index, induced_vertex, strictly_sorted, Graph,
    GraphError, GraphState, DEFAULT_COLOR,
};
use crate::orbits::{get_orbit, Orbits};
use crate::VertexIndex;
use itertools::Itertools;
use vstd::prelude::*;

verus! {

/// The distinct values of `s`, in the order of their first occurrence.
pub open spec fn unique_spec(s: Seq<VertexIndex>) -> Seq<VertexIndex>
    decreases s.len(),
{
    if s.len() == 0 {
        seq![]
    } else {
        let rest = unique_spec(s.drop_last());
        if rest.contains(s.last()) {
            rest
        } else {
            rest.push(s.last())
        }
    }
}

/// Every arc of `g` joins two vertices below `n`.
pub open spec fn arcs_within(g: &Graph, n: nat) -> bool {
    forall|j: int|
        0 <= j < arcs_spec(g.vertices@).len() ==> 0 <= (#[trigger] arcs_spec(g.vertices@)[j]).0 < n
            && 0 <= arcs_spec(g.vertices@)[j].1 < n
}

/// Some arc among the first `i` arcs of `g` leads from orbit `a` to a
/// different orbit `b`.
pub open spec fn cross_arc_upto(g: &Graph, o: Seq<VertexIndex>, i: int, a: VertexIndex, b: VertexIndex) -> bool {
    exists|j: int|
        0 <= j < i && o[(#[trigger] arcs_spec(g.vertices@)[j]).0 as int] == a && o[arcs_spec(
            g.vertices@,
        )[j].1 as int] == b && a != b
}

/// Some arc of `g` leads from orbit `a` to a different orbit `b`.
pub open spec fn cross_arc(g: &Graph, o: Seq<VertexIndex>, a: VertexIndex, b: VertexIndex) -> bool {
    cross_arc_upto(g, o, arcs_spec(g.vertices@).len() as int, a, b)
}

/// `q` is the quotient of `g` by the orbit labelling `o`.
pub open spec fn is_quotient(q: &QuotientGraph, g: &Graph, o: Seq<VertexIndex>) -> bool {
    let qg = q.quotient_graph;
    let ids = unique_spec(o);
    &&& q.orbits@ == o
    &&& qg.wf()
    &&& if ids.len() <= 1 {
        &&& qg.vertices@.len() == 1
        &&& qg.state == GraphState::IndexOrdered
        &&& qg.vertices@[0].index == 0
        &&& qg.vertices@[0].colour == DEFAULT_COLOR
        &&& qg.vertices@[0].edges_to@.len() == 0
    } else {
        &&& qg.vertices@.len() == ids.len()
        &&& qg.state == GraphState::Chaos
        &&& forall|k: int|
            0 <= k < ids.len() ==> {
                let v = #[trigger] qg.vertices@[k];
                &&& v.index == ids[k]
                &&& v.colour == DEFAULT_COLOR
                &&& strictly_sorted(v.edges_to@)
                &&& forall|w: VertexIndex| v.edges_to@.contains(w) <==> cross_arc(g, o, ids[k], w)
            }
    }
}

/// A graph over orbits together with the orbit of each original vertex.
#[derive(Debug)]
pub struct QuotientGraph {
    pub quotient_graph: Graph,
    pub orbits: Orbits,
}

pub proof fn lemma_unique_spec(s: Seq<VertexIndex>)
    ensures
        unique_spec(s).no_duplicates(),
        forall|x: VertexIndex| unique_spec(s).contains(x) <==> s.contains(x),
    decreases s.len(),
{
    if s.len() > 0 {
        let rest = s.drop_last();
        lemma_unique_spec(rest);
        assert forall|x: VertexIndex| s.contains(x) <==> (rest.contains(x) || x == s.last()) by {
            if s.contains(x) && x != s.last() {
                let i = choose|i: int| 0 <= i < s.len() && s[i] == x;
                assert(rest[i] == x);
            }
            if rest.contains(x) {
                let i = choose|i: int| 0 <= i < rest.len() && rest[i] == x;
                assert(s[i] == x);
            }
            if x == s.last() {
                assert(s[s.len() - 1] == x);
            }
        }
        let u = unique_spec(rest);
        if !u.contains(s.last()) {
            assert forall|x: VertexIndex| u.push(s.last()).contains(x) <==> (u.contains(x) || x == s.last()) by {
                if u.push(s.last()).contains(x) && x != s.last() {
                    let i = choose|i: int| 0 <= i < u.len() + 1 && u.push(s.last())[i] == x;
                    assert(u[i] == x);
                }
                if u.contains(x) {
                    let i = choose|i: int| 0 <= i < u.len() && u[i] == x;
                    assert(u.push(s.last())[i] == x);
                }
                if x == s.last() {
                    assert(u.push(s.last())[u.len() as int] == x);
                }
            }
        }
    }
}

/// Relies on itertools' `unique`: the distinct values, in the order in
/// which they first occur.
#[verifier::external_body]
fn unique_values(v: &Vec<VertexIndex>) -> (r: Vec<VertexIndex>)
    ensures
        r@ == unique_spec(v@),
{
    v.iter().unique().copied().collect()
}

/// How many vertices carry the label `c`.
pub open spec fn count_of(o: Seq<VertexIndex>, c: int) -> nat
    decreases o.len(),
{
    if o.len() == 0 {
        0
    } else {
        count_of(o.drop_last(), c) + if o.last() == c {
            1nat
        } else {
            0nat
        }
    }
}

proof fn lemma_count_bounded(o: Seq<VertexIndex>, c: int)
    ensures
        count_of(o, c) <= o.len(),
    decreases o.len(),
{
    if o.len() > 0 {
        lemma_count_bounded(o.drop_last(), c);
    }
}

/// `size` is the size of some orbit of `o` (an id below `o.len()`).
pub open spec fn is_orbit_size(o: Seq<VertexIndex>, size: int) -> bool {
    exists|c: int| 0 <= c < o.len() && count_of(o, c) > 0 && #[trigger] count_of(o, c) == size
}

/// `(min, max)` of the orbit sizes of `o`, `(0, 0)` without orbits.
pub open spec fn orbit_size_range(o: Seq<VertexIndex>, r: (usize, usize)) -> bool {
    if forall|c: int| 0 <= c < o.len() ==> #[trigger] count_of(o, c) == 0 {
        r == (0usize, 0usize)
    } else {
        &&& is_orbit_size(o, r.0 as int)
        &&& is_orbit_size(o, r.1 as int)
        &&& forall|c: int|
            0 <= c < o.len() && #[trigger] count_of(o, c) > 0 ==> r.0 <= count_of(o, c) <= r.1
    }
}

/// Relies on itertools' `minmax`: the least and the greatest element, or
/// `None` for an empty list.
#[verifier::external_body]
fn min_max(v: &Vec<usize>) -> (r: Option<(usize, usize)>)
    ensures
        v@.len() == 0 <==> r is None,
        r is Some ==> v@.contains(r->Some_0.0) && v@.contains(r->Some_0.1) && forall|i: int|
            0 <= i < v@.len() ==> r->Some_0.0 <= #[trigger] v@[i] <= r->Some_0.1,
{
    match v.iter().minmax() {
        itertools::MinMaxResult::NoElements => None,
        itertools::MinMaxResult::OneElement(m) => Some((*m, *m)),
        itertools::MinMaxResult::MinMax(min, max) => Some((*min, *max)),
    }
}

impl QuotientGraph {
    /// Builds the quotient graph in which each orbit is one vertex, named
    /// by its orbit id. Arcs within an orbit are dropped, repeated arcs
    /// merged; a single orbit gives one isolated vertex.
    pub fn from_graph_orbits(graph: &Graph, orbits: Orbits) -> (r: Self)
        requires
            arcs_within(graph, orbits@.len()),
        ensures
            is_quotient(&r, graph, orbits@),
    {
        let unique_orbits = unique_values(&orbits);
        let ghost ids = unique_orbits@;
        proof {
            lemma_unique_spec(orbits@);
        }
        if unique_orbits.len() > 1 {
            let mut quotient_graph = Graph::new_with_indices(&unique_orbits);
            let arcs = graph.iterate_edges();
            let ghost o = orbits@;
            let mut i: usize = 0;
            while i < arcs.len()
                invariant
                    ids == unique_spec(o),
                    ids.no_duplicates(),
                    forall|x: VertexIndex| ids.contains(x) <==> o.contains(x),
                    o == orbits@,
                    arcs@ == arcs_spec(graph.vertices@),
                    arcs_within(graph, o.len()),
                    i <= arcs@.len(),
                    quotient_graph.wf(),
                    quotient_graph.state == GraphState::Chaos,
                    quotient_graph.vertices@.len() == ids.len(),
                    quotient_graph.edge_number <= i,
                    forall|k: int|
                        0 <= k < ids.len() ==> {
                            let v = #[trigger] quotient_graph.vertices@[k];
                            &&& v.index == ids[k]
                            &&& v.colour == DEFAULT_COLOR
                            &&& forall|w: VertexIndex|
                                v.edges_to@.contains(w) <==> cross_arc_upto(graph, o, i as int, ids[k], w)
                        },
                decreases arcs@.len() - i,
            {
                let (start, end) = arcs[i];
                let start_orbit = get_orbit(&orbits, start);
                let end_orbit = get_orbit(&orbits, end);
                let ghost before = quotient_graph;
                if start_orbit != end_orbit {
                    proof {
                        assert(o.contains(start_orbit)) by {
                            assert(o[start as int] == start_orbit);
                        }
                        let k0 = choose|k0: int| 0 <= k0 < ids.len() && ids[k0] == start_orbit;
                        assert(finds_at(&before, start_orbit, Some(k0 as usize))) by {
                            assert forall|j: int| 0 <= j < k0 implies #[trigger] before.vertices@[j].index != start_orbit by {
                                assert(before.vertices@[j].index == ids[j]);
                            }
                        }
                    }
                    let _ = quotient_graph.add_arc(start_orbit, end_orbit);
                    proof {
                        let k0 = choose|k0: int| 0 <= k0 < ids.len() && ids[k0] == start_orbit;
                        assert(finds_at(&before, start_orbit, Some(k0 as usize))) by {
                            assert forall|j: int| 0 <= j < k0 implies #[trigger] before.vertices@[j].index != start_orbit by {
                                assert(before.vertices@[j].index == ids[j]);
                            }
                        }
                        assert forall|k: int| 0 <= k < ids.len() implies {
                            let v = #[trigger] quotient_graph.vertices@[k];
                            &&& v.index == ids[k]
                            &&& v.colour == DEFAULT_COLOR
                            &&& forall|w: VertexIndex|
                                v.edges_to@.contains(w) <==> cross_arc_upto(graph, o, i + 1, ids[k], w)
                        } by {
                            let v = quotient_graph.vertices@[k];
                            let b = before.vertices@[k];
                            assert(b.index == ids[k]);
                            assert forall|w: VertexIndex| v.edges_to@.contains(w) <==> cross_arc_upto(graph, o, i + 1, ids[k], w) by {
                                lemma_cross_arc_step(graph, o, i as int, ids[k], w);
                                if k == k0 {
                                    assert(v.edges_to@ == b.edges_to@.push(end_orbit));
                                    lemma_contains_push(b.edges_to@, end_orbit, w);
                                } else {
                                    assert(v == b);
                                    assert(ids[k] != start_orbit);
                                }
                            }
                        }
                    }
                } else {
                    proof {
                        assert forall|k: int| 0 <= k < ids.len() implies {
                            let v = #[trigger] quotient_graph.vertices@[k];
                            forall|w: VertexIndex|
                                v.edges_to@.contains(w) <==> cross_arc_upto(graph, o, i + 1, ids[k], w)
                        } by {
                            assert forall|w: VertexIndex| quotient_graph.vertices@[k].edges_to@.contains(w) <==> cross_arc_upto(graph, o, i + 1, ids[k], w) by {
                                lemma_cross_arc_step(graph, o, i as int, ids[k], w);
                            }
                        }
                    }
                }
                i += 1;
            }
            let ghost unsorted = quotient_graph;
            quotient_graph.minimize();
            proof {
                assert forall|k: int| 0 <= k < ids.len() implies #[trigger] quotient_graph.vertices@[k].index == ids[k] by {
                    assert(unsorted.vertices@[k].index == ids[k]);
                }
            }
            QuotientGraph { quotient_graph, orbits }
        } else {
            let quotient_graph = Graph::new_ordered(1);
            QuotientGraph { quotient_graph, orbits }
        }
    }

    /// The smallest and the largest orbit size; every orbit id must be a
    /// vertex.
    pub fn get_orbit_sizes(&self) -> (r: (usize, usize))
        requires
            forall|x: int| 0 <= x < self.orbits@.len() ==> 0 <= #[trigger] self.orbits@[x] < self.orbits@.len(),
        ensures
            orbit_size_range(self.orbits@, r),
    {
        let ghost o = self.orbits@;
        let n = self.orbits.len();
        let mut counter: Vec<usize> = Vec::new();
        let mut c: usize = 0;
        while c < n
            invariant
                n == o.len(),
                c <= n,
                counter@.len() == c,
                forall|b: int| 0 <= b < c ==> #[trigger] counter@[b] == 0,
            decreases n - c,
        {
            counter.push(0);
            c += 1;
        }
        proof {
            assert forall|b: int| 0 <= b < n implies #[trigger] counter@[b] == count_of(o.take(0), b) by {
                assert(o.take(0).len() == 0);
            }
        }
        let mut x: usize = 0;
        while x < n
            invariant
                n == o.len(),
                o == self.orbits@,
                forall|y: int| 0 <= y < n ==> 0 <= #[trigger] o[y] < n,
                x <= n,
                counter@.len() == n,
                forall|b: int| 0 <= b < n ==> #[trigger] counter@[b] == count_of(o.take(x as int), b),
                forall|b: int| 0 <= b < n ==> #[trigger] counter@[b] <= x,
            decreases n - x,
        {
            let orbit = self.orbits[x] as usize;
            let ghost before = counter@;
            proof {
                assert(o.take(x + 1).drop_last() =~= o.take(x as int));
                assert(o.take(x + 1).last() == o[x as int]);
            }
            counter.set(orbit, counter[orbit] + 1);
            proof {
                assert forall|b: int| 0 <= b < n implies #[trigger] counter@[b] == count_of(o.take(x + 1), b) by {
                    if b != orbit {
                        assert(counter@[b] == before[b]);
                    }
                }
            }
            x += 1;
        }
        assert(o.take(x as int) =~= o);
        proof {
            assert forall|t: int| #![trigger count_of(o, t)] count_of(o, t) <= o.len() by {
                lemma_count_bounded(o, t);
            }
        }
        let mut sizes: Vec<usize> = Vec::new();
        let mut b: usize = 0;
        while b < n
            invariant
                n == o.len(),
                b <= n,
                counter@.len() == n,
                forall|t: int| 0 <= t < n ==> #[trigger] counter@[t] == count_of(o, t),
                forall|t: int| #![trigger count_of(o, t)] count_of(o, t) <= o.len(),
                forall|i: int| 0 <= i < sizes@.len() ==> is_orbit_size(o, #[trigger] sizes@[i] as int),
                forall|t: int|
                    0 <= t < b && #[trigger] count_of(o, t) > 0 ==> sizes@.contains(count_of(o, t) as usize),
            decreases n - b,
        {
            if counter[b] > 0 {
                let ghost before = sizes@;
                sizes.push(counter[b]);
                proof {
                    assert(count_of(o, b as int) > 0);
                    assert forall|i: int| 0 <= i < sizes@.len() implies is_orbit_size(o, #[trigger] sizes@[i] as int) by {
                        if i < before.len() {
                            assert(sizes@[i] == before[i]);
                        } else {
                            assert(count_of(o, b as int) == sizes@[i]);
                        }
                    }
                    assert forall|t: int| 0 <= t < b + 1 && #[trigger] count_of(o, t) > 0 implies sizes@.contains(count_of(o, t) as usize) by {
                        if t < b {
                            let i = choose|i: int| 0 <= i < before.len() && before[i] == count_of(o, t) as usize;
                            assert(sizes@[i] == before[i]);
                        } else {
                            assert(sizes@[before.len() as int] == count_of(o, t) as usize);
                        }
                    }
                }
            }
            b += 1;
        }
        let r = match min_max(&sizes) {
            Some(range) => range,
            None => (0, 0),
        };
        proof {
            if forall|t: int| 0 <= t < o.len() ==> #[trigger] count_of(o, t) == 0 {
                if sizes@.len() > 0 {
                    assert(is_orbit_size(o, sizes@[0] as int));
                }
            } else {
                let t = choose|t: int| 0 <= t < o.len() && #[trigger] count_of(o, t) != 0;
                assert(sizes@.contains(count_of(o, t) as usize));
                let i0 = choose|i: int| 0 <= i < sizes@.len() && sizes@[i] == r.0;
                let i1 = choose|i: int| 0 <= i < sizes@.len() && sizes@[i] == r.1;
                assert(is_orbit_size(o, sizes@[i0] as int));
                assert(is_orbit_size(o, sizes@[i1] as int));
                assert forall|c: int| 0 <= c < o.len() && #[trigger] count_of(o, c) > 0 implies r.0 <= count_of(o, c) <= r.1 by {
                    let i = choose|i: int| 0 <= i < sizes@.len() && sizes@[i] == count_of(o, c) as usize;
                    assert(r.0 <= sizes@[i] <= r.1);
                }
            }
        }
        r
    }

    /// The sub-quotient on the orbit ids that `orbit_subset` lists (in
    /// ascending order); original vertices of other orbits are marked `-1`.
    pub fn induced_subquotient(&self, orbit_subset: &Vec<VertexIndex>) -> (r: Result<Self, GraphError>)
        ensures
            r is Ok <==> forall|i: int|
                0 <= i < orbit_subset@.len() ==> holds_index(&self.quotient_graph, #[trigger] orbit_subset@[i]),
            r is Err ==> exists|i: int|
                0 <= i < orbit_subset@.len() && !holds_index(&self.quotient_graph, #[trigger] orbit_subset@[i])
                    && r == Err::<Self, GraphError>(GraphError(orbit_subset@[i])),
            r is Ok ==> {
                let s = r->Ok_0;
                &&& s.orbits@.len() == self.orbits@.len()
                &&& forall|x: int|
                    0 <= x < self.orbits@.len() ==> #[trigger] s.orbits@[x] == if orbit_subset@.contains(self.orbits@[x]) {
                        self.orbits@[x] as int
                    } else {
                        -1
                    }
                &&& s.quotient_graph.wf()
                &&& s.quotient_graph.vertices@.len() == orbit_subset@.len()
                &&& s.quotient_graph.state == GraphState::Chaos
                &&& forall|i: int|
                    0 <= i < orbit_subset@.len() ==> induced_vertex(
                        &self.quotient_graph,
                        orbit_subset@,
                        orbit_subset@[i],
                        #[trigger] s.quotient_graph.vertices@[i],
                    )
            },
    {
        let mut sub_orbits: Orbits = Vec::new();
        let mut x: usize = 0;
        while x < self.orbits.len()
            invariant
                x <= self.orbits@.len(),
                sub_orbits@.len() == x,
                forall|y: int|
                    0 <= y < x ==> #[trigger] sub_orbits@[y] == if orbit_subset@.contains(self.orbits@[y]) {
                        self.orbits@[y] as int
                    } else {
                        -1
                    },
            decreases self.orbits@.len() - x,
        {
            let orbit = self.orbits[x];
            if contains_index(orbit_subset, orbit) {
                sub_orbits.push(orbit);
            } else {
                sub_orbits.push(-1);
            }
            x += 1;
        }
        match self.quotient_graph.induce_subgraph(orbit_subset) {
            Ok(quotient_graph) => Ok(QuotientGraph { quotient_graph, orbits: sub_orbits }),
            Err(e) => Err(e),
        }
    }
}

pub proof fn lemma_contains_push(s: Seq<VertexIndex>, e: VertexIndex, w: VertexIndex)
    ensures
        s.push(e).contains(w) <==> (s.contains(w) || w == e),
{
    if s.push(e).contains(w) && w != e {
        let i = choose|i: int| 0 <= i < s.len() + 1 && s.push(e)[i] == w;
        assert(s[i] == w);
    }
    if s.contains(w) {
        let i = choose|i: int| 0 <= i < s.len() && s[i] == w;
        assert(s.push(e)[i] == w);
    }
    if w == e {
        assert(s.push(e)[s.len() as int] == w);
    }
}

proof fn lemma_cross_arc_step(g: &Graph, o: Seq<VertexIndex>, i: int, a: VertexIndex, b: VertexIndex)
    requires
        0 <= i < arcs_spec(g.vertices@).len(),
    ensures
        cross_arc_upto(g, o, i + 1, a, b) <==> (cross_arc_upto(g, o, i, a, b) || (o[arcs_spec(
            g.vertices@,
        )[i].0 as int] == a && o[arcs_spec(g.vertices@)[i].1 as int] == b && a != b)),
{
    if cross_arc_upto(g, o, i + 1, a, b) {
        let j = choose|j: int|
            0 <= j < i + 1 && o[(#[trigger] arcs_spec(g.vertices@)[j]).0 as int] == a && o[arcs_spec(
                g.vertices@,
            )[j].1 as int] == b && a != b;
        if j < i {
            assert(cross_arc_upto(g, o, i, a, b));
        }
    }
    if o[arcs_spec(g.vertices@)[i].0 as int] == a && o[arcs_spec(g.vertices@)[i].1 as int] == b && a != b {
        assert(cross_arc_upto(g, o, i + 1, a, b));
    }
}

/// Quotient edge soundness: every arc of the quotient graph stems from an
/// arc of the original graph between members of two different orbits.
pub proof fn lemma_quotient_edges_sound(q: &QuotientGraph, g: &Graph, o: Seq<VertexIndex>, k: int, w: VertexIndex)
    requires
        is_quotient(q, g, o),
        0 <= k < q.quotient_graph.vertices@.len(),
        q.quotient_graph.vertices@[k].edges_to@.contains(w),
    ensures
        exists|j: int|
            0 <= j < arcs_spec(g.vertices@).len() && o[(#[trigger] arcs_spec(g.vertices@)[j]).0 as int]
                == q.quotient_graph.vertices@[k].index && o[arcs_spec(g.vertices@)[j].1 as int] == w
                && q.quotient_graph.vertices@[k].index != w,
{
    let ids = unique_spec(o);
    if ids.len() <= 1 {
        assert(q.quotient_graph.vertices@[0].edges_to@.len() == 0);
    } else {
        assert(cross_arc(g, o, ids[k], w));
    }
}

} // verus!
