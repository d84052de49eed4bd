//! Laws relating the encoder, the decoder and the consistency check.
use crate::dictionary::{lit, lookup_all, Literal, MAX_LITERAL};
use crate::dictionary::{valid_pairs, SATEncodingDictionary};
use crate::encoding::{
    formula_view, lemma_all_keys, lemma_lookup_all_grows, orbit_named, Formula,
    all_keys, descriptive_clauses, edge_clauses, encodes_problem, has_orbit, members_of,
    orbit_clauses, orbit_lits, orbit_listing, row_clauses, transversal_clauses,
};
use crate::graph::{adjacent, arcs_spec, Graph};
use crate::quotient::QuotientGraph;
use crate::transversal::{consistent, decode_spec, is_true, names_orbit, picked, same_entries};
use crate::VertexIndex;
use vstd::prelude::*;

verus! {

/// Literal `l` is true under the assignment.
pub open spec fn lit_true(assignment: Seq<bool>, l: int) -> bool {
    if l > 0 {
        is_true(assignment, l)
    } else {
        !is_true(assignment, -l)
    }
}

/// Some literal of the clause is true.
pub open spec fn clause_true(assignment: Seq<bool>, c: Seq<Literal>) -> bool {
    exists|j: int| 0 <= j < c.len() && lit_true(assignment, #[trigger] c[j] as int)
}

/// Every clause has a true literal.
pub open spec fn satisfies(assignment: Seq<bool>, f: Seq<Seq<Literal>>) -> bool {
    forall|i: int| 0 <= i < f.len() ==> clause_true(assignment, #[trigger] f[i])
}

/// Trivial descriptiveness: a quotient without arcs gives no
/// descriptive-constraint clause, so the encoding is `None` and the oracle
/// is never asked.
pub proof fn lemma_no_edges_no_oracle(
    q: &QuotientGraph,
    g: &Graph,
    listing: Seq<(VertexIndex, Seq<VertexIndex>)>,
    r: Option<(crate::encoding::Formula, crate::dictionary::SATEncodingDictionary)>,
)
    requires
        arcs_spec(q.quotient_graph.vertices@).len() == 0,
        encodes_problem(q, g, listing, r),
    ensures
        descriptive_clauses(
            lookup_all(seq![(-1i32, -1i32)], all_keys(listing)),
            g,
            arcs_spec(q.quotient_graph.vertices@),
            listing,
        ).len() == 0,
        r is None,
{
}

proof fn lemma_row_contains(
    d: Seq<(VertexIndex, VertexIndex)>,
    g: &Graph,
    o1: VertexIndex,
    v1: VertexIndex,
    o2: VertexIndex,
    m2: Seq<VertexIndex>,
    t: int,
)
    requires
        0 <= t < m2.len(),
        !adjacent(g, v1 as int, m2[t]),
    ensures
        row_clauses(d, g, o1, v1, o2, m2).contains(
            seq![(-lit(d, (o1, v1))) as Literal, (-lit(d, (o2, m2[t]))) as Literal],
        ),
    decreases m2.len(),
{
    let c = seq![(-lit(d, (o1, v1))) as Literal, (-lit(d, (o2, m2[t]))) as Literal];
    let rest = row_clauses(d, g, o1, v1, o2, m2.drop_last());
    if t < m2.len() - 1 {
        lemma_row_contains(d, g, o1, v1, o2, m2.drop_last(), t);
        let i = choose|i: int| 0 <= i < rest.len() && rest[i] == c;
        if !adjacent(g, v1 as int, m2.last()) {
            assert(rest.push(seq![(-lit(d, (o1, v1))) as Literal, (-lit(d, (o2, m2.last()))) as Literal])[i] == c);
        }
    } else {
        assert(rest.push(c)[rest.len() as int] == c);
    }
}

proof fn lemma_edge_contains(
    d: Seq<(VertexIndex, VertexIndex)>,
    g: &Graph,
    o1: VertexIndex,
    m1: Seq<VertexIndex>,
    o2: VertexIndex,
    m2: Seq<VertexIndex>,
    s: int,
    c: Seq<Literal>,
)
    requires
        0 <= s < m1.len(),
        row_clauses(d, g, o1, m1[s], o2, m2).contains(c),
    ensures
        edge_clauses(d, g, o1, m1, o2, m2).contains(c),
    decreases m1.len(),
{
    let prev = edge_clauses(d, g, o1, m1.drop_last(), o2, m2);
    let row = row_clauses(d, g, o1, m1.last(), o2, m2);
    if s < m1.len() - 1 {
        lemma_edge_contains(d, g, o1, m1.drop_last(), o2, m2, s, c);
        let i = choose|i: int| 0 <= i < prev.len() && prev[i] == c;
        assert((prev + row)[i] == c);
    } else {
        let i = choose|i: int| 0 <= i < row.len() && row[i] == c;
        assert((prev + row)[prev.len() + i] == c);
    }
}

proof fn lemma_descriptive_contains(
    d: Seq<(VertexIndex, VertexIndex)>,
    g: &Graph,
    edges: Seq<(VertexIndex, VertexIndex)>,
    orbs: Seq<(VertexIndex, Seq<VertexIndex>)>,
    j: int,
    c: Seq<Literal>,
)
    requires
        0 <= j < edges.len(),
        edge_clauses(d, g, edges[j].0, members_of(orbs, edges[j].0), edges[j].1, members_of(orbs, edges[j].1)).contains(c),
    ensures
        descriptive_clauses(d, g, edges, orbs).contains(c),
    decreases edges.len(),
{
    let prev = descriptive_clauses(d, g, edges.drop_last(), orbs);
    let e = edges.last();
    let last = edge_clauses(d, g, e.0, members_of(orbs, e.0), e.1, members_of(orbs, e.1));
    if j < edges.len() - 1 {
        assert(edges.drop_last()[j] == edges[j]);
        lemma_descriptive_contains(d, g, edges.drop_last(), orbs, j, c);
        let i = choose|i: int| 0 <= i < prev.len() && prev[i] == c;
        assert((prev + last)[i] == c);
    } else {
        let i = choose|i: int| 0 <= i < last.len() && last[i] == c;
        assert((prev + last)[prev.len() + i] == c);
    }
}

proof fn lemma_transversal_contains(
    d: Seq<(VertexIndex, VertexIndex)>,
    orbs: Seq<(VertexIndex, Seq<VertexIndex>)>,
    k: int,
)
    requires
        0 <= k < orbs.len(),
    ensures
        transversal_clauses(d, orbs).contains(orbit_lits(d, orbs[k].0, orbs[k].1)),
    decreases orbs.len(),
{
    let prev = transversal_clauses(d, orbs.drop_last());
    let last = orbit_clauses(d, orbs.last().0, orbs.last().1);
    let c = orbit_lits(d, orbs[k].0, orbs[k].1);
    if k < orbs.len() - 1 {
        assert(orbs.drop_last()[k] == orbs[k]);
        lemma_transversal_contains(d, orbs.drop_last(), k);
        let i = choose|i: int| 0 <= i < prev.len() && prev[i] == c;
        assert((prev + last)[i] == c);
    } else {
        assert(last[last.len() - 1] == c);
        assert((prev + last)[prev.len() + last.len() - 1] == c);
    }
}

/// What the decoded list holds: the pairs of true literals.
proof fn lemma_decode(d: Seq<(VertexIndex, VertexIndex)>, a: Seq<bool>)
    ensures
        forall|i: int|
            0 <= i < decode_spec(d, a).len() ==> exists|l: int|
                1 <= l < d.len() && is_true(a, l) && #[trigger] decode_spec(d, a)[i] == d[l],
        forall|l: int| 1 <= l < d.len() && is_true(a, l) ==> decode_spec(d, a).contains(#[trigger] d[l]),
    decreases d.len(),
{
    if d.len() > 1 {
        let prev = d.drop_last();
        lemma_decode(prev, a);
        let rest = decode_spec(prev, a);
        assert forall|i: int| 0 <= i < decode_spec(d, a).len() implies exists|l: int|
            1 <= l < d.len() && is_true(a, l) && #[trigger] decode_spec(d, a)[i] == d[l] by {
            if i < rest.len() {
                let l = choose|l: int| 1 <= l < prev.len() && is_true(a, l) && #[trigger] rest[i] == prev[l];
                assert(decode_spec(d, a)[i] == rest[i]);
                assert(d[l] == prev[l]);
            } else {
                assert(decode_spec(d, a)[i] == d[d.len() - 1]);
            }
        }
        assert forall|l: int| 1 <= l < d.len() && is_true(a, l) implies decode_spec(d, a).contains(#[trigger] d[l]) by {
            if l < d.len() - 1 {
                assert(d[l] == prev[l]);
                assert(rest.contains(prev[l]));
                let i = choose|i: int| 0 <= i < rest.len() && rest[i] == prev[l];
                assert(decode_spec(d, a)[i] == d[l]);
            } else {
                assert(decode_spec(d, a)[rest.len() as int] == d[l]);
            }
        }
    }
}

/// The entry that `picked` reads.
proof fn lemma_picked(t: Seq<(VertexIndex, VertexIndex)>, orbit: VertexIndex)
    requires
        names_orbit(t, orbit),
    ensures
        exists|i: int| 0 <= i < t.len() && #[trigger] t[i] == (orbit, picked(t, orbit)),
    decreases t.len(),
{
    if t[0].0 != orbit {
        let i = choose|i: int| 0 <= i < t.len() && (#[trigger] t[i]).0 == orbit;
        assert(t.drop_first()[i - 1] == t[i]);
        lemma_picked(t.drop_first(), orbit);
        let j = choose|j: int| 0 <= j < t.drop_first().len() && #[trigger] t.drop_first()[j] == (orbit, picked(t.drop_first(), orbit));
        assert(t[j + 1] == t.drop_first()[j]);
    } else {
        assert(t[0] == (orbit, picked(t, orbit)));
    }
}

/// With ids strictly increasing, the first orbit with id `orbs[k].0` is `k`.
proof fn lemma_members_of_sorted(orbs: Seq<(VertexIndex, Seq<VertexIndex>)>, k: int)
    requires
        0 <= k < orbs.len(),
        forall|k1: int, k2: int|
            0 <= k1 < k2 < orbs.len() ==> (#[trigger] orbs[k1]).0 < (#[trigger] orbs[k2]).0,
    ensures
        members_of(orbs, orbs[k].0) == orbs[k].1,
    decreases k,
{
    if k > 0 {
        let rest = orbs.drop_first();
        assert(orbs[0].0 < orbs[k].0);
        assert forall|k1: int, k2: int| 0 <= k1 < k2 < rest.len() implies (#[trigger] rest[k1]).0 < (#[trigger] rest[k2]).0 by {
            assert(rest[k1] == orbs[k1 + 1] && rest[k2] == orbs[k2 + 1]);
        }
        assert(rest[k - 1] == orbs[k]);
        lemma_members_of_sorted(rest, k - 1);
    }
}

/// Picks of the decoded transversal: for every orbit of the listing, the
/// transversal names it, and its pick is a member whose literal is true.
proof fn lemma_pick_member(
    o: Seq<VertexIndex>,
    orbs: Seq<(VertexIndex, Seq<VertexIndex>)>,
    d: Seq<(VertexIndex, VertexIndex)>,
    a: Seq<bool>,
    f: Seq<Seq<Literal>>,
    k: int,
    t: Seq<(VertexIndex, VertexIndex)>,
)
    requires
        same_entries(t, decode_spec(d, a)),
        orbit_listing(o, orbs),
        0 <= k < orbs.len(),
        d == lookup_all(seq![(-1i32, -1i32)], all_keys(orbs)),
        valid_pairs(d),
        d.len() <= MAX_LITERAL,
        satisfies(a, f),
        f.contains(orbit_lits(d, orbs[k].0, orbs[k].1)),
    ensures
        names_orbit(t, orbs[k].0),
        exists|s: int|
            0 <= s < orbs[k].1.len() && #[trigger] orbs[k].1[s] == picked(t, orbs[k].0)
                && is_true(a, lit(d, (orbs[k].0, orbs[k].1[s]))),
{
    let id = orbs[k].0;
    let ms = orbs[k].1;
    let dec = decode_spec(d, a);
    let init = seq![(-1i32, -1i32)];
    assert(init.no_duplicates());
    lemma_all_keys(orbs);
    lemma_lookup_all_grows(init, all_keys(orbs));
    lemma_decode(d, a);
    // The at-least-one clause of the orbit holds a true literal.
    let c = orbit_lits(d, id, ms);
    let i = choose|i: int| 0 <= i < f.len() && f[i] == c;
    assert(clause_true(a, f[i]));
    let jj = choose|jj: int| 0 <= jj < c.len() && lit_true(a, #[trigger] c[jj] as int);
    let p = (id, ms[jj]);
    assert(all_keys(orbs).contains(p));
    assert(d.contains(p));
    let l = choose|l: int| 0 <= l < d.len() && d[l] == p;
    crate::dictionary::lemma_lit_unique(d, p, l);
    assert(l != 0);
    assert(c[jj] == l as Literal);
    assert(is_true(a, l));
    assert(dec.contains(d[l]));
    assert(t.contains(d[l]));
    let ti = choose|ti: int| 0 <= ti < t.len() && t[ti] == d[l];
    assert(names_orbit(t, id)) by {
        assert(t[ti].0 == id);
    }
    lemma_picked(t, id);
    let pi = choose|pi: int| 0 <= pi < t.len() && #[trigger] t[pi] == (id, picked(t, id));
    assert(t.contains(t[pi]));
    assert(dec.contains(t[pi]));
    let di = choose|di: int| 0 <= di < dec.len() && dec[di] == t[pi];
    let l2 = choose|l2: int| 1 <= l2 < d.len() && is_true(a, l2) && #[trigger] dec[di] == d[l2];
    assert(d[l2] == (id, picked(t, id)));
    assert(all_keys(orbs).contains(d[l2]));
    let (kt, s) = choose|kt: int, s: int|
        0 <= kt < orbs.len() && 0 <= s < orbs[kt].1.len() && d[l2] == (orbs[kt].0, #[trigger] orbs[kt].1[s]);
    if kt < k {
        assert(orbs[kt].0 < orbs[k].0);
    } else if kt > k {
        assert(orbs[k].0 < orbs[kt].0);
    }
    crate::dictionary::lemma_lit_unique(d, (id, ms[s]), l2);
}

/// Transversal round trip: under any assignment that satisfies the formula
/// of `encode_problem`, the transversal decoded from it names every orbit
/// of a quotient arc and picks vertices that are adjacent in the original
/// graph wherever the quotient has an arc.
pub proof fn lemma_transversal_round_trip(
    q: &QuotientGraph,
    g: &Graph,
    listing: Seq<(VertexIndex, Seq<VertexIndex>)>,
    f: Formula,
    dict: SATEncodingDictionary,
    a: Seq<bool>,
    t: Seq<(VertexIndex, VertexIndex)>,
)
    requires
        same_entries(t, decode_spec(dict@, a)),
        orbit_listing(q.orbits@, listing),
        forall|j: int|
            0 <= j < arcs_spec(q.quotient_graph.vertices@).len() ==> orbit_named(
                q.orbits@,
                (#[trigger] arcs_spec(q.quotient_graph.vertices@)[j]).0,
            ) && orbit_named(q.orbits@, arcs_spec(q.quotient_graph.vertices@)[j].1),
        encodes_problem(q, g, listing, Some((f, dict))),
        satisfies(a, formula_view(&f)),
    ensures
        forall|j: int|
            0 <= j < arcs_spec(q.quotient_graph.vertices@).len() ==> names_orbit(
                t,
                (#[trigger] arcs_spec(q.quotient_graph.vertices@)[j]).0,
            ) && names_orbit(t, arcs_spec(q.quotient_graph.vertices@)[j].1),
        consistent(t, g, arcs_spec(q.quotient_graph.vertices@)),
{
    let o = q.orbits@;
    let orbs = listing;
    let edges = arcs_spec(q.quotient_graph.vertices@);
    let d = dict@;
    let tc = transversal_clauses(d, orbs);
    let dc = descriptive_clauses(d, g, edges, orbs);
    let fv = formula_view(&f);
    assert(fv == tc + dc);
    dict.lemma_valid();
    // Every orbit of an arc is listed, and its at-least-one clause is in the formula.
    assert forall|c: VertexIndex| orbit_named(o, c) implies exists|k: int|
        0 <= k < orbs.len() && (#[trigger] orbs[k]).0 == c by {
        let x = choose|x: int| 0 <= x < o.len() && o[x] == c;
    }
    assert forall|k: int| 0 <= k < orbs.len() implies fv.contains(orbit_lits(d, (#[trigger] orbs[k]).0, orbs[k].1)) by {
        lemma_transversal_contains(d, orbs, k);
        let i = choose|i: int| 0 <= i < tc.len() && tc[i] == orbit_lits(d, orbs[k].0, orbs[k].1);
        assert(fv[i] == tc[i]);
    }
    assert forall|j: int| 0 <= j < edges.len() implies names_orbit(t, (#[trigger] edges[j]).0)
        && names_orbit(t, edges[j].1) && adjacent(g, picked(t, edges[j].0) as int, picked(t, edges[j].1)) by {
        let kx = choose|k: int| 0 <= k < orbs.len() && (#[trigger] orbs[k]).0 == edges[j].0;
        let ky = choose|k: int| 0 <= k < orbs.len() && (#[trigger] orbs[k]).0 == edges[j].1;
        lemma_arc_adjacent(o, orbs, d, a, g, edges, j, kx, ky, t);
    }
}

/// One quotient arc: its orbits are named by the decoded transversal and
/// their picks are adjacent.
proof fn lemma_arc_adjacent(
    o: Seq<VertexIndex>,
    orbs: Seq<(VertexIndex, Seq<VertexIndex>)>,
    d: Seq<(VertexIndex, VertexIndex)>,
    a: Seq<bool>,
    g: &Graph,
    edges: Seq<(VertexIndex, VertexIndex)>,
    j: int,
    kx: int,
    ky: int,
    t: Seq<(VertexIndex, VertexIndex)>,
)
    requires
        same_entries(t, decode_spec(d, a)),
        orbit_listing(o, orbs),
        d == lookup_all(seq![(-1i32, -1i32)], all_keys(orbs)),
        valid_pairs(d),
        d.len() <= MAX_LITERAL,
        satisfies(a, transversal_clauses(d, orbs) + descriptive_clauses(d, g, edges, orbs)),
        forall|k: int|
            0 <= k < orbs.len() ==> (transversal_clauses(d, orbs) + descriptive_clauses(d, g, edges, orbs)).contains(
                orbit_lits(d, (#[trigger] orbs[k]).0, orbs[k].1),
            ),
        0 <= j < edges.len(),
        0 <= kx < orbs.len(),
        0 <= ky < orbs.len(),
        orbs[kx].0 == edges[j].0,
        orbs[ky].0 == edges[j].1,
    ensures
        names_orbit(t, edges[j].0),
        names_orbit(t, edges[j].1),
        adjacent(g, picked(t, edges[j].0) as int, picked(t, edges[j].1)),
{
    let tc = transversal_clauses(d, orbs);
    let dc = descriptive_clauses(d, g, edges, orbs);
    let fv = tc + dc;
    let x = edges[j].0;
    let y = edges[j].1;
    lemma_pick_member(o, orbs, d, a, fv, kx, t);
    lemma_pick_member(o, orbs, d, a, fv, ky, t);
    let v1 = picked(t, x);
    let v2 = picked(t, y);
    let s1 = choose|s: int| 0 <= s < orbs[kx].1.len() && #[trigger] orbs[kx].1[s] == v1 && is_true(a, lit(d, (x, orbs[kx].1[s])));
    let s2 = choose|s: int| 0 <= s < orbs[ky].1.len() && #[trigger] orbs[ky].1[s] == v2 && is_true(a, lit(d, (y, orbs[ky].1[s])));
    if !adjacent(g, v1 as int, v2) {
        lemma_members_of_sorted(orbs, kx);
        lemma_members_of_sorted(orbs, ky);
        lemma_missing_arc_clause(d, g, edges, orbs, j, kx, ky, s1, s2);
        let c = seq![(-lit(d, (x, v1))) as Literal, (-lit(d, (y, v2))) as Literal];
        let i = choose|i: int| 0 <= i < dc.len() && dc[i] == c;
        assert(fv[tc.len() + i] == c);
        assert(clause_true(a, fv[tc.len() + i]));
        lemma_lit_positions(orbs, d, kx, s1);
        lemma_lit_positions(orbs, d, ky, s2);
        let jj = choose|jj: int| 0 <= jj < c.len() && lit_true(a, #[trigger] c[jj] as int);
        assert(c[0] as int == -lit(d, (x, v1)));
        assert(c[1] as int == -lit(d, (y, v2)));
    }
}

/// The literal of an orbit's member is a position of the pair list other
/// than the placeholder.
proof fn lemma_lit_positions(orbs: Seq<(VertexIndex, Seq<VertexIndex>)>, d: Seq<(VertexIndex, VertexIndex)>, k: int, s: int)
    requires
        0 <= k < orbs.len(),
        0 <= s < orbs[k].1.len(),
        orbs[k].0 >= 0,
        d == lookup_all(seq![(-1i32, -1i32)], all_keys(orbs)),
        valid_pairs(d),
        d.len() <= MAX_LITERAL,
    ensures
        1 <= lit(d, (orbs[k].0, orbs[k].1[s])) < d.len(),
        d[lit(d, (orbs[k].0, orbs[k].1[s]))] == (orbs[k].0, orbs[k].1[s]),
{
    let init = seq![(-1i32, -1i32)];
    assert(init.no_duplicates());
    lemma_all_keys(orbs);
    lemma_lookup_all_grows(init, all_keys(orbs));
    let p = (orbs[k].0, orbs[k].1[s]);
    assert(all_keys(orbs).contains(p));
    let l = choose|l: int| 0 <= l < d.len() && d[l] == p;
    crate::dictionary::lemma_lit_unique(d, p, l);
    assert(l != 0);
}

/// The clause that forbids picking two members without an arc between
/// them is among the descriptive constraints.
proof fn lemma_missing_arc_clause(
    d: Seq<(VertexIndex, VertexIndex)>,
    g: &Graph,
    edges: Seq<(VertexIndex, VertexIndex)>,
    orbs: Seq<(VertexIndex, Seq<VertexIndex>)>,
    j: int,
    kx: int,
    ky: int,
    s1: int,
    s2: int,
)
    requires
        0 <= j < edges.len(),
        0 <= kx < orbs.len(),
        0 <= ky < orbs.len(),
        orbs[kx].0 == edges[j].0,
        orbs[ky].0 == edges[j].1,
        members_of(orbs, edges[j].0) == orbs[kx].1,
        members_of(orbs, edges[j].1) == orbs[ky].1,
        0 <= s1 < orbs[kx].1.len(),
        0 <= s2 < orbs[ky].1.len(),
        !adjacent(g, orbs[kx].1[s1] as int, orbs[ky].1[s2]),
    ensures
        descriptive_clauses(d, g, edges, orbs).contains(
            seq![(-lit(d, (edges[j].0, orbs[kx].1[s1]))) as Literal, (-lit(d, (edges[j].1, orbs[ky].1[s2]))) as Literal],
        ),
{
    let x = edges[j].0;
    let y = edges[j].1;
    let m1 = orbs[kx].1;
    let m2 = orbs[ky].1;
    lemma_row_contains(d, g, x, m1[s1], y, m2, s2);
    let c = seq![(-lit(d, (x, m1[s1]))) as Literal, (-lit(d, (y, m2[s2]))) as Literal];
    lemma_edge_contains(d, g, x, m1, y, m2, s1, c);
    lemma_descriptive_contains(d, g, edges, orbs, j, c);
}

} // verus!
