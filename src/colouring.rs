//! Colours for the automorphism engine: recolouring a non-descriptive core,
//! and the vertex order and colour partition that the engine reads.
use crate::encoding::{orbits_view, OrbitEncoding};
use crate::graph::{index_ordered, Graph, GraphError, GraphState, Vertex};
use crate::{Colour, VertexIndex};
use vstd::prelude::*;

verus! {

/// Number of vertices that recolouring the first `k` core orbits touches:
/// all members but the first of each.
pub open spec fn recoloured_before(core: Seq<(VertexIndex, Seq<VertexIndex>)>, k: int) -> int
    decreases k,
{
    if k <= 0 {
        0
    } else {
        recoloured_before(core, k - 1) + if core[k - 1].1.len() > 0 {
            core[k - 1].1.len() - 1
        } else {
            0
        }
    }
}

/// The colours after recolouring: member `i > 0` of core orbit `k` gets
/// `first + recoloured_before(core, k) + i - 1`, in core order, later
/// assignments winning.
pub open spec fn recoloured(colours: Seq<Colour>, core: Seq<(VertexIndex, Seq<VertexIndex>)>, first: int, k: int, i: int) -> Seq<Colour>
    decreases k, i,
{
    if k <= 0 {
        colours
    } else if i <= 1 {
        recoloured(colours, core, first, k - 1, core[k - 2].1.len() as int)
    } else {
        let v = core[k - 1].1[i - 1];
        let before = recoloured(colours, core, first, k, i - 1);
        before.update(v as int, (first + recoloured_before(core, k - 1) + i - 2) as Colour)
    }
}

/// The colours of the vertices, position by position.
pub open spec fn colours_of(g: &Graph) -> Seq<Colour> {
    g.vertices@.map_values(|v: Vertex| v.colour)
}

impl Graph {
    /// Gives the vertex at position `vertex` of an index-ordered graph a
    /// new colour.
    pub fn recolor(&mut self, vertex: VertexIndex, colour: Colour) -> (r: Result<(), GraphError>)
        requires
            old(self).state == GraphState::IndexOrdered,
        ensures
            final(self).state == old(self).state,
            final(self).size == old(self).size,
            final(self).edge_number == old(self).edge_number,
            final(self).vertices@.len() == old(self).vertices@.len(),
            r is Ok <==> 0 <= vertex < old(self).vertices@.len(),
            r is Err ==> r == Err::<(), GraphError>(GraphError(vertex)) && final(self).vertices@ == old(
                self,
            ).vertices@,
            r is Ok ==> final(self).vertices@ == old(self).vertices@.update(
                vertex as int,
                Vertex { colour, ..old(self).vertices@[vertex as int] },
            ),
    {
        if vertex < 0 || vertex as usize >= self.vertices.len() {
            return Err(GraphError(vertex));
        }
        let k = vertex as usize;
        let ghost before = self.vertices@;
        let mut entry = self.vertices.remove(k);
        entry.colour = colour;
        self.vertices.insert(k, entry);
        assert(self.vertices@ =~= before.update(k as int, entry));
        Ok(())
    }
}

/// Recolours every member of a core orbit but its first, counting up
/// from `first`, which lies far enough below every colour in use.
fn recolor_from(graph: &mut Graph, core: &Vec<OrbitEncoding>, first: Colour) -> (r: Result<Colour, GraphError>)
    requires
        old(graph).state == GraphState::IndexOrdered,
        first as int + recoloured_before(orbits_view(core), core@.len() as int) <= min_colour(colours_of(old(graph))),
        forall|k: int, i: int|
            0 <= k < core@.len() && 0 <= i < core@[k].1@.len() ==> 0 <= #[trigger] core@[k].1@[i] < old(graph).vertices@.len(),
    ensures
        final(graph).state == old(graph).state,
        final(graph).vertices@.len() == old(graph).vertices@.len(),
        r is Ok,
        r->Ok_0 == first + recoloured_before(orbits_view(core), core@.len() as int),
        forall|k: int| 0 <= k < old(graph).vertices@.len() ==> (#[trigger] final(graph).vertices@[k]).index == old(graph).vertices@[k].index
            && final(graph).vertices@[k].edges_to == old(graph).vertices@[k].edges_to,
        colours_of(final(graph)) == recoloured(
            colours_of(old(graph)),
            orbits_view(core),
            first as int,
            core@.len() as int,
            if core@.len() > 0 { orbits_view(core)[core@.len() - 1].1.len() as int } else { 0 },
        ),
        refines(colours_of(final(graph)), colours_of(old(graph))),
        fresh_below(colours_of(final(graph)), colours_of(old(graph))),
{
    let ghost cs = orbits_view(core);
    let ghost g0 = *graph;
    let ghost c0 = colours_of(&g0);
    let ghost n = g0.vertices@.len();
    let mut next = first;
    let mut k: usize = 0;
    proof {
        lemma_recoloured_before_mono(cs, core@.len() as int);
        lemma_min_colour(c0);
    }
    while k < core.len()
        invariant
            cs == orbits_view(core),
            graph.state == GraphState::IndexOrdered,
            graph.vertices@.len() == g0.vertices@.len(),
            k <= core@.len(),
            next as int == first + recoloured_before(cs, k as int),
            forall|v: int| 0 <= v < n ==> #[trigger] colours_of(graph)[v] == c0[v] || (first <= colours_of(graph)[v] < next),
            forall|u: int, v: int|
                0 <= u < n && 0 <= v < n && u != v && first <= #[trigger] colours_of(graph)[u] < next ==> colours_of(graph)[u]
                    != #[trigger] colours_of(graph)[v],
            forall|w: int| 0 <= w < n ==> #[trigger] c0[w] >= min_colour(c0),
            first as int + recoloured_before(cs, core@.len() as int) <= min_colour(c0),
            c0 == colours_of(&g0),
            n == g0.vertices@.len(),

            forall|a: int| 0 <= a <= core@.len() ==> #[trigger] recoloured_before(cs, a) <= recoloured_before(cs, core@.len() as int),
            forall|a: int, i: int|
                0 <= a < core@.len() && 0 <= i < core@[a].1@.len() ==> 0 <= #[trigger] core@[a].1@[i] < g0.vertices@.len(),
            forall|j: int| 0 <= j < g0.vertices@.len() ==> (#[trigger] graph.vertices@[j]).index == g0.vertices@[j].index
                && graph.vertices@[j].edges_to == g0.vertices@[j].edges_to,
            colours_of(graph) == if k == 0 {
                colours_of(&g0)
            } else {
                recoloured(colours_of(&g0), cs, first as int, k as int, cs[k - 1].1.len() as int)
            },
        decreases core@.len() - k,
    {
        let members = &core[k].1;
        assert(cs[k as int].1 == members@);
        let mut i: usize = 1;
        proof {
            if k > 0 {
                assert(recoloured(colours_of(&g0), cs, first as int, k + 1, 1) == recoloured(colours_of(&g0), cs, first as int, k as int, cs[k - 1].1.len() as int));
            } else {
                assert(recoloured(colours_of(&g0), cs, first as int, 1, 1) == recoloured(colours_of(&g0), cs, first as int, 0, cs[-1].1.len() as int));
            }
            assert(recoloured_before(cs, k + 1) == recoloured_before(cs, k as int) + if members@.len() > 0 { members@.len() - 1 } else { 0 });
        }
        while i < members.len()
            invariant
                cs == orbits_view(core),
                cs[k as int].1 == members@,
                k < core@.len(),
                1 <= i,
                members@.len() > 0 ==> i <= members@.len(),
                members@.len() == 0 ==> i == 1,
                graph.state == GraphState::IndexOrdered,
                graph.vertices@.len() == g0.vertices@.len(),
                next as int == first + recoloured_before(cs, k as int) + i - 1,
                forall|v: int| 0 <= v < n ==> #[trigger] colours_of(graph)[v] == c0[v] || (first <= colours_of(graph)[v] < next),
                forall|u: int, v: int|
                    0 <= u < n && 0 <= v < n && u != v && first <= #[trigger] colours_of(graph)[u] < next ==> colours_of(graph)[u]
                        != #[trigger] colours_of(graph)[v],
                forall|w: int| 0 <= w < n ==> #[trigger] c0[w] >= min_colour(c0),
                first as int + recoloured_before(cs, core@.len() as int) <= min_colour(c0),
                c0 == colours_of(&g0),
                n == g0.vertices@.len(),

                recoloured_before(cs, k + 1) <= recoloured_before(cs, core@.len() as int),
                recoloured_before(cs, k + 1) == recoloured_before(cs, k as int) + if members@.len() > 0 { members@.len() - 1 } else { 0 },
                forall|a: int, t: int|
                    0 <= a < core@.len() && 0 <= t < core@[a].1@.len() ==> 0 <= #[trigger] core@[a].1@[t] < g0.vertices@.len(),
                forall|j: int| 0 <= j < g0.vertices@.len() ==> (#[trigger] graph.vertices@[j]).index == g0.vertices@[j].index
                    && graph.vertices@[j].edges_to == g0.vertices@[j].edges_to,
                colours_of(graph) == recoloured(colours_of(&g0), cs, first as int, k + 1, i as int),
            decreases members@.len() - i,
        {
            let vertex = members[i];
            assert(core@[k as int].1@[i as int] == vertex);
            let ghost before = *graph;
            let _ = graph.recolor(vertex, next);
            proof {
                assert(colours_of(graph) =~= colours_of(&before).update(vertex as int, next));
                assert(next as int + 1 <= first as int + recoloured_before(cs, k + 1));
                lemma_recoloured_before_mono(cs, k as int);
                assert(first <= next);
                let cb = colours_of(&before);
                let cn = colours_of(graph);
                assert forall|v: int| 0 <= v < n implies #[trigger] cn[v] == c0[v] || (first <= cn[v] < next + 1) by {
                    if v != vertex {
                        assert(cn[v] == cb[v]);
                    }
                }
                assert forall|u: int, v: int|
                    0 <= u < n && 0 <= v < n && u != v && first <= #[trigger] cn[u] < next + 1 implies cn[u] != #[trigger] cn[v] by {
                    assert(cb[u] == c0[u] || (first <= cb[u] < next));
                    assert(cb[v] == c0[v] || (first <= cb[v] < next));
                    assert(c0[u] >= min_colour(c0) && c0[v] >= min_colour(c0));
                }
                assert forall|j: int| 0 <= j < g0.vertices@.len() implies (#[trigger] graph.vertices@[j]).index == g0.vertices@[j].index
                    && graph.vertices@[j].edges_to == g0.vertices@[j].edges_to by {
                    if j != vertex {
                        assert(graph.vertices@[j] == before.vertices@[j]);
                    }
                }
            }
            next = next + 1;
            i += 1;
        }
        proof {
            if members@.len() == 0 {
                assert(i == 1);
                assert(next as int == first + recoloured_before(cs, k + 1));
                assert(recoloured(colours_of(&g0), cs, first as int, k + 1, 0) == recoloured(colours_of(&g0), cs, first as int, k + 1, 1));
            } else {
                assert(i == members@.len());
                assert(next as int == first + recoloured_before(cs, k + 1));
            }
            assert(cs[k as int].1.len() == members@.len());
        }
        k += 1;
    }
    proof {
        let cn = colours_of(graph);
        assert forall|u: int, v: int| 0 <= u < n && 0 <= v < n && #[trigger] cn[u] == #[trigger] cn[v] implies c0[u] == c0[v] by {
            if u != v {
                assert(c0[u] >= min_colour(c0) && c0[v] >= min_colour(c0));
            }
        }
        assert forall|v: int, w: int| 0 <= v < n && 0 <= w < n && #[trigger] cn[v] != c0[v] implies cn[v] < #[trigger] c0[w] by {
            assert(c0[w] >= min_colour(c0));
        }
    }
    Ok(next)
}

/// Breaks a non-descriptive core by recolouring: every member of a core
/// orbit but its first gets a fresh colour. The fresh colours count up
/// from below every colour in use, so the new colouring refines the old
/// one. Returns the first fresh colour, or `None`, leaving the graph as it
/// is, when the colours would run below the least colour.
pub fn recolor_core(graph: &mut Graph, core: &Vec<OrbitEncoding>) -> (r: Option<Colour>)
    requires
        old(graph).state == GraphState::IndexOrdered,
        forall|k: int, i: int|
            0 <= k < core@.len() && 0 <= i < core@[k].1@.len() ==> 0 <= #[trigger] core@[k].1@[i] < old(graph).vertices@.len(),
    ensures
        final(graph).state == old(graph).state,
        final(graph).vertices@.len() == old(graph).vertices@.len(),
        r is None <==> min_colour(colours_of(old(graph))) - recoloured_before(orbits_view(core), core@.len() as int)
            < Colour::MIN,
        r is None ==> *final(graph) == *old(graph),
        r is Some ==> r->Some_0 == min_colour(colours_of(old(graph))) - recoloured_before(orbits_view(core), core@.len() as int),
        forall|k: int| 0 <= k < old(graph).vertices@.len() ==> (#[trigger] final(graph).vertices@[k]).index == old(graph).vertices@[k].index
            && final(graph).vertices@[k].edges_to == old(graph).vertices@[k].edges_to,
        r is Some ==> colours_of(final(graph)) == recoloured(
            colours_of(old(graph)),
            orbits_view(core),
            r->Some_0 as int,
            core@.len() as int,
            if core@.len() > 0 { orbits_view(core)[core@.len() - 1].1.len() as int } else { 0 },
        ),
        refines(colours_of(final(graph)), colours_of(old(graph))),
        fresh_below(colours_of(final(graph)), colours_of(old(graph))),
{
    let ghost cs = orbits_view(core);
    let mut needed: i64 = 0;
    let mut k: usize = 0;
    while k < core.len()
        invariant
            cs == orbits_view(core),
            k <= core@.len(),
            needed == recoloured_before(cs, k as int),
            0 <= needed <= 0x1_0000_0000,
        decreases core@.len() - k,
    {
        let size = core[k].1.len();
        assert(cs[k as int].1.len() == size);
        if size > 0 {
            if size as u64 - 1 > 0x1_0000_0000 - needed as u64 {
                proof {
                    lemma_recoloured_before_mono(cs, core@.len() as int);
                    lemma_recoloured_before_mono(cs, k + 1);
                    lemma_min_colour(colours_of(graph));
                }
                return None;
            }
            needed = needed + (size - 1) as i64;
        }
        k += 1;
    }
    let least = least_colour(graph) as i64;
    if least - needed < Colour::MIN as i64 {
        return None;
    }
    let first = (least - needed) as Colour;
    let _ = recolor_from(graph, core, first);
    Some(first)
}

/// `(colour, index)` pairs in lexicographic order.
pub open spec fn pair_le(a: (Colour, usize), b: (Colour, usize)) -> bool {
    a.0 < b.0 || (a.0 == b.0 && a.1 <= b.1)
}

/// Relies on `slice::sort_unstable` for tuples, whose order is
/// lexicographic: the same pairs in ascending order.
#[verifier::external_body]
fn sorted_pairs(v: &Vec<(Colour, usize)>) -> (r: Vec<(Colour, usize)>)
    ensures
        r@.to_multiset() == v@.to_multiset(),
        forall|i: int, j: int| 0 <= i <= j < r@.len() ==> pair_le(#[trigger] r@[i], #[trigger] r@[j]),
{
    let mut r = v.clone();
    r.sort_unstable();
    r
}

/// The vertex order and colour partition that nauty reads: vertices by
/// colour, then by index; a partition entry is 0 where a colour class
/// ends and 1 elsewhere.
pub fn colour_partition(graph: &Graph) -> (r: (Vec<VertexIndex>, Vec<VertexIndex>))
    requires
        index_ordered(graph),
        graph.vertices@.len() <= 2147483648,
    ensures
        r.0@.len() == graph.vertices@.len(),
        r.1@.len() == graph.vertices@.len(),
        forall|v: VertexIndex| 0 <= v < graph.vertices@.len() ==> r.0@.contains(v),
        forall|i: int| 0 <= i < r.0@.len() ==> 0 <= #[trigger] r.0@[i] < graph.vertices@.len(),
        forall|i: int, j: int|
            0 <= i <= j < r.0@.len() ==> pair_le(
                (graph.vertices@[r.0@[i] as int].colour, r.0@[i] as usize),
                (graph.vertices@[r.0@[j] as int].colour, r.0@[j] as usize),
            ),
        forall|i: int|
            0 <= i < r.1@.len() ==> #[trigger] r.1@[i] == (if i + 1 < r.0@.len()
                && graph.vertices@[r.0@[i] as int].colour == graph.vertices@[r.0@[i + 1] as int].colour {
                1i32
            } else {
                0i32
            }),
{
    let n = graph.vertices.len();
    let mut keyed: Vec<(Colour, usize)> = Vec::new();
    let mut k: usize = 0;
    while k < n
        invariant
            n == graph.vertices@.len(),
            k <= n,
            keyed@.len() == k,
            forall|i: int| 0 <= i < k ==> #[trigger] keyed@[i] == (graph.vertices@[i].colour, i as usize),
        decreases n - k,
    {
        keyed.push((graph.vertices[k].colour, k));
        k += 1;
    }
    let sorted = sorted_pairs(&keyed);
    proof {
        sorted@.to_multiset_ensures();
        keyed@.to_multiset_ensures();
        assert forall|t: int| 0 <= t < sorted@.len() implies 0 <= (#[trigger] sorted@[t]).1 < n
            && sorted@[t].0 == graph.vertices@[sorted@[t].1 as int].colour by {
            assert(sorted@.contains(sorted@[t]));
            assert(sorted@.contains(sorted@[t]) <==> sorted@.to_multiset().count(sorted@[t]) > 0);
            assert(keyed@.contains(sorted@[t]) <==> keyed@.to_multiset().count(sorted@[t]) > 0);
            assert(keyed@.contains(sorted@[t]));
            let i = choose|i: int| 0 <= i < keyed@.len() && keyed@[i] == sorted@[t];
        }
        assert forall|v: int| 0 <= v < n implies sorted@.contains((graph.vertices@[v].colour, v as usize)) by {
            let x = (graph.vertices@[v].colour, v as usize);
            assert(keyed@[v] == x);
            assert(keyed@.contains(x));
            assert(sorted@.contains(x) <==> sorted@.to_multiset().count(x) > 0);
            assert(keyed@.contains(x) <==> keyed@.to_multiset().count(x) > 0);
        }
    }
    let mut lab: Vec<VertexIndex> = Vec::new();
    let mut ptn: Vec<VertexIndex> = Vec::new();
    let mut i: usize = 0;
    while i < n
        invariant
            n == graph.vertices@.len() <= 2147483648,
            sorted@.len() == n,
            forall|t: int| 0 <= t < sorted@.len() ==> 0 <= (#[trigger] sorted@[t]).1 < n
                && sorted@[t].0 == graph.vertices@[sorted@[t].1 as int].colour,
            i <= n,
            lab@.len() == i,
            ptn@.len() == i,
            forall|t: int| 0 <= t < i ==> #[trigger] lab@[t] == sorted@[t].1 as VertexIndex,
            forall|t: int| 0 <= t < i ==> #[trigger] ptn@[t] == (if t + 1 < n && sorted@[t].0 == sorted@[t + 1].0 {
                1i32
            } else {
                0i32
            }),
        decreases n - i,
    {
        let (colour, vertex) = sorted[i];
        lab.push(vertex as VertexIndex);
        if i + 1 < n && sorted[i + 1].0 == colour {
            ptn.push(1);
        } else {
            ptn.push(0);
        }
        i += 1;
    }
    proof {
        assert forall|t: int| 0 <= t < n implies #[trigger] lab@[t] as int == sorted@[t].1 as int by {}
        assert forall|v: VertexIndex| 0 <= v < n implies lab@.contains(v) by {
            assert(sorted@.contains((graph.vertices@[v as int].colour, v as usize)));
            let t = choose|t: int| 0 <= t < sorted@.len() && sorted@[t] == (graph.vertices@[v as int].colour, v as usize);
            assert(lab@[t] == v);
        }
        assert forall|a: int, b: int| 0 <= a <= b < lab@.len() implies pair_le(
            (graph.vertices@[lab@[a] as int].colour, lab@[a] as usize),
            (graph.vertices@[lab@[b] as int].colour, lab@[b] as usize),
        ) by {
            assert(pair_le(sorted@[a], sorted@[b]));
            assert(sorted@[a] == (graph.vertices@[lab@[a] as int].colour, lab@[a] as usize));
            assert(sorted@[b] == (graph.vertices@[lab@[b] as int].colour, lab@[b] as usize));
        }
        assert forall|t: int| 0 <= t < ptn@.len() implies #[trigger] ptn@[t] == (if t + 1 < lab@.len()
            && graph.vertices@[lab@[t] as int].colour == graph.vertices@[lab@[t + 1] as int].colour {
            1i32
        } else {
            0i32
        }) by {
            if t + 1 < n {
                assert(sorted@[t].0 == graph.vertices@[lab@[t] as int].colour);
                assert(sorted@[t + 1].0 == graph.vertices@[lab@[t + 1] as int].colour);
            }
        }
    }
    (lab, ptn)
}

/// Vertices that share a colour after shared one before.
pub open spec fn refines(new: Seq<Colour>, old: Seq<Colour>) -> bool {
    forall|u: int, v: int|
        0 <= u < new.len() && 0 <= v < new.len() && #[trigger] new[u] == #[trigger] new[v] ==> old[u] == old[v]
}

/// A colour that changed lies below every old colour.
pub open spec fn fresh_below(new: Seq<Colour>, old: Seq<Colour>) -> bool {
    forall|v: int, w: int| 0 <= v < new.len() && 0 <= w < old.len() && #[trigger] new[v] != old[v] ==> new[v] < #[trigger] old[w]
}

/// The least colour, or the largest colour value when there is none.
pub open spec fn min_colour(cols: Seq<Colour>) -> int
    decreases cols.len(),
{
    if cols.len() == 0 {
        Colour::MAX as int
    } else {
        let rest = min_colour(cols.drop_last());
        if cols.last() < rest {
            cols.last() as int
        } else {
            rest
        }
    }
}

proof fn lemma_min_colour(cols: Seq<Colour>)
    ensures
        forall|w: int| 0 <= w < cols.len() ==> #[trigger] cols[w] >= min_colour(cols),
        Colour::MIN <= min_colour(cols) <= Colour::MAX,
    decreases cols.len(),
{
    if cols.len() > 0 {
        lemma_min_colour(cols.drop_last());
        assert forall|w: int| 0 <= w < cols.len() implies #[trigger] cols[w] >= min_colour(cols) by {
            if w < cols.len() - 1 {
                assert(cols[w] == cols.drop_last()[w]);
            }
        }
    }
}

/// The least colour of the graph's vertices.
fn least_colour(graph: &Graph) -> (r: Colour)
    ensures
        r == min_colour(colours_of(graph)),
{
    let mut least: Colour = Colour::MAX;
    let mut k: usize = 0;
    let ghost cols = colours_of(graph);
    while k < graph.vertices.len()
        invariant
            cols == colours_of(graph),
            k <= cols.len(),
            least == min_colour(cols.take(k as int)),
        decreases cols.len() - k,
    {
        proof {
            assert(cols.take(k + 1).drop_last() =~= cols.take(k as int));
            assert(cols.take(k + 1).last() == graph.vertices@[k as int].colour);
        }
        if graph.vertices[k].colour < least {
            least = graph.vertices[k].colour;
        }
        k += 1;
    }
    assert(cols.take(k as int) =~= cols);
    least
}

proof fn lemma_recoloured_before_mono(cs: Seq<(VertexIndex, Seq<VertexIndex>)>, n: int)
    requires
        n >= 0,
    ensures
        forall|a: int| 0 <= a <= n ==> #[trigger] recoloured_before(cs, a) <= recoloured_before(cs, n),
        recoloured_before(cs, n) >= 0,
    decreases n,
{
    if n > 0 {
        lemma_recoloured_before_mono(cs, n - 1);
    }
}

} // verus!
