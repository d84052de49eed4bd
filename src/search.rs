//! One round of the core-breaking search, up to the question that only the
//! SAT oracle can answer.
use crate::dictionary::{SATEncodingDictionary, MAX_LITERAL};
use crate::encoding::{
    all_keys, descriptive_clauses, descriptive_constraints, edges_view, encode_orbit, encode_problem,
    encodes_problem, formula_view, has_orbit, lemma_all_keys, lemma_lookup_all_grows,
    orbit_keys, orbit_listing, orbit_named, orbits_registered, orbits_view, transversal_clauses,
    EdgeEncoding, Formula, OrbitEncoding, QuotientGraphEncoding,
};
use crate::dictionary::lookup_all;
use crate::graph::{arcs_spec, Graph, Vertex};
use crate::orbits::{generate_orbits, generators_on, is_orbit_partition, raws};
use crate::permutation::Permutation;
use crate::quotient::{arcs_within, cross_arc, is_quotient, lemma_unique_spec, unique_spec, QuotientGraph};
use crate::VertexIndex;
use vstd::prelude::*;

verus! {

/// What a round finds before the oracle is asked.
pub enum Round {
    /// No generator is left: every symmetry has been broken.
    Exhausted,
    /// The quotient needs no descriptive-constraint clause.
    TriviallyDescriptive(QuotientGraph),
    /// The formula for the oracle, with its quotient and dictionary.
    Encoded(QuotientGraph, Formula, SATEncodingDictionary),
}

/// `q` is the quotient of `g` by the orbits of `gens`, and `r` what
/// `encode_problem` gives for it.
pub open spec fn round_of(gens: Seq<Seq<usize>>, g: &Graph, q: &QuotientGraph, r: Option<(Formula, SATEncodingDictionary)>) -> bool {
    &&& is_orbit_partition(gens, g.vertices@.len(), q.orbits@)
    &&& is_quotient(q, g, q.orbits@)
    &&& exists|listing: Seq<(VertexIndex, Seq<VertexIndex>)>|
        orbit_listing(q.orbits@, listing) && #[trigger] encodes_problem(q, g, listing, r)
}

/// Each arc of a vertex list comes from one of its vertices.
proof fn lemma_arcs_spec_member(vs: Seq<Vertex>, j: int)
    requires
        0 <= j < arcs_spec(vs).len(),
    ensures
        exists|k: int, i: int|
            0 <= k < vs.len() && 0 <= i < vs[k].edges_to@.len() && #[trigger] arcs_spec(vs)[j] == (
                vs[k].index,
                vs[k].edges_to@[i],
            ),
    decreases vs.len(),
{
    let prev = arcs_spec(vs.drop_last());
    let last = vs.last();
    let tail = last.edges_to@.map_values(|e: VertexIndex| (last.index, e));
    assert(arcs_spec(vs) == prev + tail);
    if j < prev.len() {
        lemma_arcs_spec_member(vs.drop_last(), j);
        let (k, i) = choose|k: int, i: int|
            0 <= k < vs.drop_last().len() && 0 <= i < vs.drop_last()[k].edges_to@.len() && #[trigger] prev[j] == (
                vs.drop_last()[k].index,
                vs.drop_last()[k].edges_to@[i],
            );
        assert(vs[k] == vs.drop_last()[k]);
        assert(arcs_spec(vs)[j] == prev[j]);
    } else {
        let i = j - prev.len();
        assert(arcs_spec(vs)[j] == tail[i]);
        assert(vs[vs.len() - 1] == last);
    }
}

/// The arcs of a quotient join orbits that some vertex carries.
proof fn lemma_quotient_arcs_named(q: &QuotientGraph, g: &Graph, gens: Seq<Seq<usize>>)
    requires
        is_orbit_partition(gens, g.vertices@.len(), q.orbits@),
        is_quotient(q, g, q.orbits@),
        arcs_within(g, g.vertices@.len()),
    ensures
        forall|j: int|
            0 <= j < arcs_spec(q.quotient_graph.vertices@).len() ==> orbit_named(
                q.orbits@,
                (#[trigger] arcs_spec(q.quotient_graph.vertices@)[j]).0,
            ) && orbit_named(q.orbits@, arcs_spec(q.quotient_graph.vertices@)[j].1),
{
    let o = q.orbits@;
    let vs = q.quotient_graph.vertices@;
    let ids = unique_spec(o);
    lemma_unique_spec(o);
    assert forall|j: int| 0 <= j < arcs_spec(vs).len() implies orbit_named(o, (#[trigger] arcs_spec(vs)[j]).0)
        && orbit_named(o, arcs_spec(vs)[j].1) by {
        lemma_arcs_spec_member(vs, j);
        let (k, i) = choose|k: int, i: int|
            0 <= k < vs.len() && 0 <= i < vs[k].edges_to@.len() && #[trigger] arcs_spec(vs)[j] == (
                vs[k].index,
                vs[k].edges_to@[i],
            );
        if ids.len() <= 1 {
            assert(vs[0].edges_to@.len() == 0);
        } else {
            let w = vs[k].edges_to@[i];
            assert(vs[k].edges_to@.contains(w));
            assert(cross_arc(g, o, ids[k], w));
            assert(ids.contains(ids[k]));
            assert(o.contains(ids[k]));
            let x = choose|x: int| 0 <= x < o.len() && o[x] == ids[k];
            assert(o[x] >= 0);
            let arcs = arcs_spec(g.vertices@);
            let t = choose|t: int|
                0 <= t < arcs.len() && o[(#[trigger] arcs_spec(g.vertices@)[t]).0 as int] == ids[k] && o[arcs_spec(
                    g.vertices@,
                )[t].1 as int] == w && ids[k] != w;
            assert(0 <= arcs[t].1 < o.len());
            assert(o.contains(w)) by {
                assert(o[arcs[t].1 as int] == w);
            }
            assert(0 <= o[arcs[t].1 as int]);
        }
    }
}

/// Builds the orbits of the generators, the quotient graph and its
/// formula: the part of a search round that needs no oracle.
pub fn prepare_round(generators: &Vec<Permutation>, graph: &Graph) -> (r: Round)
    requires
        graph.vertices@.len() < MAX_LITERAL,
        generators_on(raws(generators@), graph.vertices@.len()),
        arcs_within(graph, graph.vertices@.len()),
    ensures
        generators@.len() == 0 <==> r is Exhausted,
        match r {
            Round::Exhausted => true,
            Round::TriviallyDescriptive(q) => round_of(raws(generators@), graph, &q, None),
            Round::Encoded(q, f, d) => round_of(raws(generators@), graph, &q, Some((f, d))),
        },
{
    if generators.len() == 0 {
        return Round::Exhausted;
    }
    let ghost gens = raws(generators@);
    assert(gens[0] == generators@[0].raw@);
    let orbits = generate_orbits(generators);
    let quotient = QuotientGraph::from_graph_orbits(graph, orbits);
    proof {
        lemma_quotient_arcs_named(&quotient, graph, gens);
    }
    let encoding = encode_problem(&quotient, graph);
    match encoding {
        None => Round::TriviallyDescriptive(quotient),
        Some((formula, dict)) => Round::Encoded(quotient, formula, dict),
    }
}

/// Repairs after which the power-generators search gives up.
pub const MAX_ROUNDS: usize = 30;

/// Where the core-breaking search stands after a round.
#[derive(Debug, Clone, Copy, PartialEq, Eq, Structural)]
pub enum SearchState {
    /// No generator is left.
    Exhausted,
    /// The quotient needs no constraint clause.
    TriviallyDescriptive,
    /// The oracle found the quotient descriptive.
    Descriptive,
    /// The round cap is reached.
    GaveUp,
    /// A non-descriptive core was found: repair and go on.
    Repair,
}

/// What a round decides: the end states come from the round itself or,
/// for an encoded round, from whether the oracle found a non-descriptive
/// core; a capped search gives up instead of making repair number
/// `MAX_ROUNDS + 1`. `repairs` counts the repairs made so far.
pub fn after_round(round: &Round, core_found: bool, repairs: usize, capped: bool) -> (r: SearchState)
    ensures
        r == match round {
            Round::Exhausted => SearchState::Exhausted,
            Round::TriviallyDescriptive(_) => SearchState::TriviallyDescriptive,
            Round::Encoded(..) => if !core_found {
                SearchState::Descriptive
            } else if capped && repairs >= MAX_ROUNDS {
                SearchState::GaveUp
            } else {
                SearchState::Repair
            },
        },
{
    match round {
        Round::Exhausted => SearchState::Exhausted,
        Round::TriviallyDescriptive(_) => SearchState::TriviallyDescriptive,
        Round::Encoded(..) => {
            if !core_found {
                SearchState::Descriptive
            } else if capped && repairs >= MAX_ROUNDS {
                SearchState::GaveUp
            } else {
                SearchState::Repair
            }
        },
    }
}

/// The arcs of `edges` whose two ends are orbits of `orbs`, in order.
pub open spec fn edges_within(edges: Seq<(VertexIndex, VertexIndex)>, orbs: Seq<(VertexIndex, Seq<VertexIndex>)>) -> Seq<(VertexIndex, VertexIndex)>
    decreases edges.len(),
{
    if edges.len() == 0 {
        seq![]
    } else {
        let rest = edges_within(edges.drop_last(), orbs);
        if has_orbit(orbs, edges.last().0) && has_orbit(orbs, edges.last().1) {
            rest.push(edges.last())
        } else {
            rest
        }
    }
}

/// Number of members over all orbits.
pub open spec fn total_members(orbs: Seq<(VertexIndex, Seq<VertexIndex>)>) -> nat
    decreases orbs.len(),
{
    if orbs.len() == 0 {
        0
    } else {
        total_members(orbs.drop_last()) + orbs.last().1.len()
    }
}

proof fn lemma_edges_within_named(edges: Seq<(VertexIndex, VertexIndex)>, orbs: Seq<(VertexIndex, Seq<VertexIndex>)>)
    ensures
        forall|j: int|
            0 <= j < edges_within(edges, orbs).len() ==> has_orbit(orbs, (#[trigger] edges_within(edges, orbs)[j]).0)
                && has_orbit(orbs, edges_within(edges, orbs)[j].1),
    decreases edges.len(),
{
    if edges.len() > 0 {
        lemma_edges_within_named(edges.drop_last(), orbs);
        let rest = edges_within(edges.drop_last(), orbs);
        assert forall|j: int| 0 <= j < edges_within(edges, orbs).len() implies has_orbit(orbs, (#[trigger] edges_within(edges, orbs)[j]).0)
            && has_orbit(orbs, edges_within(edges, orbs)[j].1) by {
            if j < rest.len() {
                assert(edges_within(edges, orbs)[j] == rest[j]);
            }
        }
    }
}

/// Whether some orbit of the list is named `id`.
fn lists_orbit(orbits: &Vec<OrbitEncoding>, id: VertexIndex) -> (r: bool)
    ensures
        r == has_orbit(orbits_view(orbits), id),
{
    let ghost os = orbits_view(orbits);
    let mut k: usize = 0;
    while k < orbits.len()
        invariant
            os == orbits_view(orbits),
            k <= os.len(),
            forall|j: int| 0 <= j < k ==> (#[trigger] os[j]).0 != id,
        decreases os.len() - k,
    {
        if orbits[k].0 == id {
            assert(os[k as int].0 == id);
            return true;
        }
        k += 1;
    }
    false
}

/// A candidate non-descriptive core: the quotient's arcs between the
/// chosen orbits, and the formula of that sub-problem, whose
/// unsatisfiability makes the candidate a core.
pub fn core_candidate(
    quotient: &QuotientGraphEncoding,
    orbit_subset: Vec<OrbitEncoding>,
    original_graph: &Graph,
) -> (r: (QuotientGraphEncoding, Formula))
    requires
        total_members(orbits_view(&orbit_subset)) < MAX_LITERAL,
        forall|k: int| 0 <= k < orbit_subset@.len() ==> (#[trigger] orbit_subset@[k]).0 >= 0,
        forall|k: int, i: int|
            0 <= k < orbit_subset@.len() && 0 <= i < orbit_subset@[k].1@.len() ==> 0 <= #[trigger] orbit_subset@[k].1@[i]
                < original_graph.vertices@.len(),
    ensures
        edges_view(&r.0.0) == edges_within(edges_view(&quotient.0), orbits_view(&orbit_subset)),
        orbits_view(&r.0.1) == orbits_view(&orbit_subset),
        ({
            let os = orbits_view(&orbit_subset);
            let d = lookup_all(seq![(-1i32, -1i32)], all_keys(os));
            formula_view(&r.1) == transversal_clauses(d, os) + descriptive_clauses(
                d,
                original_graph,
                edges_view(&r.0.0),
                os,
            )
        }),
{
    let ghost os = orbits_view(&orbit_subset);
    let ghost es = edges_view(&quotient.0);
    let mut edge_subset: Vec<EdgeEncoding> = Vec::new();
    let mut j: usize = 0;
    while j < quotient.0.len()
        invariant
            os == orbits_view(&orbit_subset),
            es == edges_view(&quotient.0),
            j <= es.len(),
            edges_view(&edge_subset) == edges_within(es.take(j as int), os),
            total_members(os) < MAX_LITERAL,
            forall|a: int| 0 <= a < orbit_subset@.len() ==> (#[trigger] orbit_subset@[a]).0 >= 0,
            forall|a: int, i: int|
                0 <= a < orbit_subset@.len() && 0 <= i < orbit_subset@[a].1@.len() ==> 0 <= #[trigger] orbit_subset@[a].1@[i]
                    < original_graph.vertices@.len(),
        decreases es.len() - j,
    {
        let (start, end) = quotient.0[j].get_edge();
        assert(es[j as int] == (start, end));
        proof {
            assert(es.take(j + 1).drop_last() =~= es.take(j as int));
        }
        if lists_orbit(&orbit_subset, start) && lists_orbit(&orbit_subset, end) {
            let ghost before = edge_subset@;
            edge_subset.push(EdgeEncoding(start, end));
            assert(edges_view(&edge_subset) =~= edges_view(&edge_subset).take(before.len() as int).push((start, end)));
            assert(edges_view(&edge_subset).take(before.len() as int) =~= before.map_values(|e: EdgeEncoding| (e.0, e.1)));
        }
        j += 1;
    }
    assert(es.take(j as int) =~= es);
    let ghost init = seq![(-1i32, -1i32)];
    let mut dict = crate::dictionary::SATEncodingDictionary::default();
    let mut formula: Formula = Vec::new();
    proof {
        assert(os.take(0) =~= Seq::<(VertexIndex, Seq<VertexIndex>)>::empty());
        assert(all_keys(os.take(0)) =~= Seq::<(VertexIndex, VertexIndex)>::empty());
        assert(formula_view(&formula) =~= transversal_clauses(dict@, os.take(0)));
    }
    let mut k: usize = 0;
    while k < orbit_subset.len()
        invariant
            os == orbits_view(&orbit_subset),
            total_members(os) < MAX_LITERAL,
            forall|a: int| 0 <= a < orbit_subset@.len() ==> (#[trigger] orbit_subset@[a]).0 >= 0,
            forall|a: int, i: int|
                0 <= a < orbit_subset@.len() && 0 <= i < orbit_subset@[a].1@.len() ==> 0 <= #[trigger] orbit_subset@[a].1@[i]
                    < original_graph.vertices@.len(),
            init == seq![(-1i32, -1i32)],
            k <= os.len(),
            dict.wf(),
            dict@ == lookup_all(init, all_keys(os.take(k as int))),
            dict@.len() <= 1 + total_members(os.take(k as int)),
            formula_view(&formula) == transversal_clauses(dict@, os.take(k as int)),
        decreases os.len() - k,
    {
        let ghost before = dict@;
        proof {
            dict.lemma_valid();
            assert(os[k as int] == (orbit_subset@[k as int].0, orbit_subset@[k as int].1@));
            lemma_total_members_prefix(os, k as int);
            assert forall|i: int| 0 <= i < orbit_subset@[k as int].1@.len() implies #[trigger] orbit_subset@[k as int].1@[i] >= 0 by {}
        }
        let mut clauses = encode_orbit(&orbit_subset[k], &mut dict);
        let ghost t0 = formula@;
        let ghost c0 = clauses@;
        let ghost added = formula_view(&clauses);
        formula.append(&mut clauses);
        proof {
            assert(formula@ == t0 + c0);
            assert(formula_view(&formula) =~= t0.map_values(|c: Vec<crate::dictionary::Literal>| c@) + added);
            dict.lemma_valid();
            lemma_lookup_all_grows(before, orbit_keys(os[k as int].0, os[k as int].1));
            crate::encoding::lemma_transversal_step_pub(os, k as int, init, before, dict@);
            assert(os.take(k + 1).drop_last() =~= os.take(k as int));
        }
        k += 1;
    }
    proof {
        assert(os.take(k as int) =~= os);
        lemma_all_keys(os);
        assert(init.no_duplicates());
        lemma_lookup_all_grows(init, all_keys(os));
        assert forall|a: int, i: int| 0 <= a < os.len() && 0 <= i < os[a].1.len() implies {
            &&& os[a].0 >= 0
            &&& 0 <= #[trigger] os[a].1[i] < original_graph.vertices@.len()
            &&& dict@.contains((os[a].0, os[a].1[i]))
        } by {
            assert(os[a].1 == orbit_subset@[a].1@);
            assert(os[a].0 == orbit_subset@[a].0);
            let p = (os[a].0, os[a].1[i]);
            assert(all_keys(os).contains(p));
            let t = choose|t: int| 0 <= t < all_keys(os).len() && all_keys(os)[t] == p;
        }
        assert(orbits_registered(dict@, original_graph, os));
        lemma_edges_within_named(es, os);
    }
    let candidate = QuotientGraphEncoding(edge_subset, orbit_subset);
    proof {
        crate::encoding::lemma_registered_keys_present(dict@, original_graph, edges_view(&candidate.0), os);
    }
    let mut constraints = descriptive_constraints(&candidate, &dict, original_graph);
    let ghost t0 = formula@;
    let ghost c0 = constraints@;
    let ghost tv = formula_view(&formula);
    let ghost cv = formula_view(&constraints);
    formula.append(&mut constraints);
    proof {
        assert(formula@ == t0 + c0);
        assert(formula_view(&formula) =~= tv + cv);
    }
    (candidate, formula)
}

proof fn lemma_total_members_prefix(os: Seq<(VertexIndex, Seq<VertexIndex>)>, k: int)
    requires
        0 <= k < os.len(),
    ensures
        total_members(os.take(k)) + os[k].1.len() == total_members(os.take(k + 1)),
        total_members(os.take(k + 1)) <= total_members(os),
    decreases os.len(),
{
    assert(os.take(k + 1).drop_last() =~= os.take(k));
    if k + 1 < os.len() {
        lemma_total_members_prefix(os.drop_last(), k);
        assert(os.drop_last().take(k + 1) =~= os.take(k + 1));
        assert(os.drop_last().take(k) =~= os.take(k));
    } else {
        assert(os.take(k + 1) =~= os);
    }
}

} // verus!
