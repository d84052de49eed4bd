//! The descriptiveness problem as a CNF formula: a transversal picks
//! exactly one vertex per orbit, and every quotient edge must be an edge
//! between the picked vertices.
use crate::dictionary::{
    lit, lookup_all, lookup_step, lemma_lit_unique, Literal, SATEncodingDictionary, MAX_LITERAL,
};
use crate::graph::{adjacent, arcs_spec, strictly_sorted, Graph};
use crate::orbits::Orbits;
use crate::quotient::QuotientGraph;
use crate::VertexIndex;
use itertools::Itertools;
use vstd::prelude::*;

verus! {

/// A disjunction of literals.
pub type Clause = Vec<Literal>;

/// A conjunction of clauses.
pub type Formula = Vec<Clause>;

/// An orbit id with its members in ascending order.
pub type OrbitEncoding = (VertexIndex, Vec<VertexIndex>);

/// An arc of the quotient graph.
#[derive(Debug, PartialEq, Eq, Clone, Copy, Structural)]
pub struct EdgeEncoding(pub VertexIndex, pub VertexIndex);

/// The quotient graph's arcs and its orbits.
#[derive(Debug, Clone)]
pub struct QuotientGraphEncoding(pub Vec<EdgeEncoding>, pub Vec<OrbitEncoding>);

impl EdgeEncoding {
    /// The arc as a pair.
    pub fn get_edge(&self) -> (r: (VertexIndex, VertexIndex))
        ensures
            r == (self.0, self.1),
    {
        (self.0, self.1)
    }
}

/// The clauses of a formula.
pub open spec fn formula_view(f: &Formula) -> Seq<Seq<Literal>> {
    f@.map_values(|c: Clause| c@)
}

/// The arcs as pairs.
pub open spec fn edges_view(es: &Vec<EdgeEncoding>) -> Seq<(VertexIndex, VertexIndex)> {
    es@.map_values(|e: EdgeEncoding| (e.0, e.1))
}

/// The orbits as ids with member sequences.
pub open spec fn orbits_view(os: &Vec<OrbitEncoding>) -> Seq<(VertexIndex, Seq<VertexIndex>)> {
    os@.map_values(|e: OrbitEncoding| (e.0, e.1@))
}

/// `listing` names each orbit of the labelling `o` once, in ascending
/// order of id, with its members in ascending order; negative labels
/// belong to no orbit.
pub open spec fn orbit_listing(o: Seq<VertexIndex>, listing: Seq<(VertexIndex, Seq<VertexIndex>)>) -> bool {
    &&& forall|k: int|
        0 <= k < listing.len() ==> {
            let (id, ms) = #[trigger] listing[k];
            &&& id >= 0
            &&& ms.len() > 0
            &&& strictly_sorted(ms)
            &&& forall|v: VertexIndex| ms.contains(v) <==> 0 <= v < o.len() && o[v as int] == id
        }
    &&& forall|k1: int, k2: int|
        0 <= k1 < k2 < listing.len() ==> (#[trigger] listing[k1]).0 < (#[trigger] listing[k2]).0
    &&& forall|x: int|
        0 <= x < o.len() && #[trigger] o[x] >= 0 ==> exists|k: int|
            0 <= k < listing.len() && (#[trigger] listing[k]).0 == o[x]
}

/// The pairs `(s[i], s[j])` with `i < j`, in lexicographic order of positions.
pub open spec fn pairs_spec(s: Seq<Literal>) -> Seq<(Literal, Literal)>
    decreases s.len(),
{
    if s.len() == 0 {
        seq![]
    } else {
        s.drop_first().map_values(|x: Literal| (s[0], x)) + pairs_spec(s.drop_first())
    }
}

/// The literals of an orbit's members.
pub open spec fn orbit_lits(d: Seq<(VertexIndex, VertexIndex)>, id: VertexIndex, ms: Seq<VertexIndex>) -> Seq<Literal> {
    ms.map_values(|v: VertexIndex| lit(d, (id, v)) as Literal)
}

/// The pairs of an orbit with each of its members.
pub open spec fn orbit_keys(id: VertexIndex, ms: Seq<VertexIndex>) -> Seq<(VertexIndex, VertexIndex)> {
    ms.map_values(|v: VertexIndex| (id, v))
}

/// Exactly one member of the orbit is picked: a clause `-a | -b` for each
/// two members, then the clause of all members.
pub open spec fn orbit_clauses(d: Seq<(VertexIndex, VertexIndex)>, id: VertexIndex, ms: Seq<VertexIndex>) -> Seq<Seq<Literal>> {
    pairs_spec(orbit_lits(d, id, ms)).map_values(|p: (Literal, Literal)| seq![(-p.0) as Literal, (-p.1) as Literal]).push(
        orbit_lits(d, id, ms),
    )
}

/// The exactly-one clauses of every orbit, in order.
pub open spec fn transversal_clauses(d: Seq<(VertexIndex, VertexIndex)>, orbs: Seq<(VertexIndex, Seq<VertexIndex>)>) -> Seq<Seq<Literal>>
    decreases orbs.len(),
{
    if orbs.len() == 0 {
        seq![]
    } else {
        transversal_clauses(d, orbs.drop_last()) + orbit_clauses(d, orbs.last().0, orbs.last().1)
    }
}

/// Every (orbit, member) pair, orbit by orbit.
pub open spec fn all_keys(orbs: Seq<(VertexIndex, Seq<VertexIndex>)>) -> Seq<(VertexIndex, VertexIndex)>
    decreases orbs.len(),
{
    if orbs.len() == 0 {
        seq![]
    } else {
        all_keys(orbs.drop_last()) + orbit_keys(orbs.last().0, orbs.last().1)
    }
}

/// The members of the first orbit named `id`.
pub open spec fn members_of(orbs: Seq<(VertexIndex, Seq<VertexIndex>)>, id: VertexIndex) -> Seq<VertexIndex>
    decreases orbs.len(),
{
    if orbs.len() == 0 {
        seq![]
    } else if orbs[0].0 == id {
        orbs[0].1
    } else {
        members_of(orbs.drop_first(), id)
    }
}

/// Some orbit is named `id`.
pub open spec fn has_orbit(orbs: Seq<(VertexIndex, Seq<VertexIndex>)>, id: VertexIndex) -> bool {
    exists|k: int| 0 <= k < orbs.len() && (#[trigger] orbs[k]).0 == id
}

/// For picked `v1` of orbit `o1`: one clause `-(o1,v1) | -(o2,v2)` for each
/// member `v2` of `m2` that `v1` has no arc to.
pub open spec fn row_clauses(
    d: Seq<(VertexIndex, VertexIndex)>,
    g: &Graph,
    o1: VertexIndex,
    v1: VertexIndex,
    o2: VertexIndex,
    m2: Seq<VertexIndex>,
) -> Seq<Seq<Literal>>
    decreases m2.len(),
{
    if m2.len() == 0 {
        seq![]
    } else {
        let rest = row_clauses(d, g, o1, v1, o2, m2.drop_last());
        if adjacent(g, v1 as int, m2.last()) {
            rest
        } else {
            rest.push(seq![(-lit(d, (o1, v1))) as Literal, (-lit(d, (o2, m2.last()))) as Literal])
        }
    }
}

/// The clauses of one quotient arc, member of `m1` by member.
pub open spec fn edge_clauses(
    d: Seq<(VertexIndex, VertexIndex)>,
    g: &Graph,
    o1: VertexIndex,
    m1: Seq<VertexIndex>,
    o2: VertexIndex,
    m2: Seq<VertexIndex>,
) -> Seq<Seq<Literal>>
    decreases m1.len(),
{
    if m1.len() == 0 {
        seq![]
    } else {
        edge_clauses(d, g, o1, m1.drop_last(), o2, m2) + row_clauses(d, g, o1, m1.last(), o2, m2)
    }
}

/// The descriptive-constraint clauses of all quotient arcs, in order.
pub open spec fn descriptive_clauses(
    d: Seq<(VertexIndex, VertexIndex)>,
    g: &Graph,
    edges: Seq<(VertexIndex, VertexIndex)>,
    orbs: Seq<(VertexIndex, Seq<VertexIndex>)>,
) -> Seq<Seq<Literal>>
    decreases edges.len(),
{
    if edges.len() == 0 {
        seq![]
    } else {
        let e = edges.last();
        descriptive_clauses(d, g, edges.drop_last(), orbs) + edge_clauses(
            d,
            g,
            e.0,
            members_of(orbs, e.0),
            e.1,
            members_of(orbs, e.1),
        )
    }
}

/// Pairs are made of elements of the sequence.
proof fn lemma_pairs_members(s: Seq<Literal>)
    ensures
        forall|j: int|
            0 <= j < pairs_spec(s).len() ==> s.contains(#[trigger] pairs_spec(s)[j].0) && s.contains(
                pairs_spec(s)[j].1,
            ),
    decreases s.len(),
{
    if s.len() > 0 {
        let t = s.drop_first();
        lemma_pairs_members(t);
        let head = t.map_values(|x: Literal| (s[0], x));
        assert forall|j: int| 0 <= j < pairs_spec(s).len() implies s.contains(#[trigger] pairs_spec(s)[j].0) && s.contains(
            pairs_spec(s)[j].1,
        ) by {
            assert(s[0] == s[0]);
            assert(s.contains(s[0]));
            if j < head.len() {
                assert(s[j + 1] == t[j]);
                assert(pairs_spec(s)[j] == (s[0], t[j]));
            } else {
                let p = pairs_spec(t)[j - head.len()];
                assert(pairs_spec(s)[j] == p);
                let a = choose|a: int| 0 <= a < t.len() && t[a] == p.0;
                assert(s[a + 1] == p.0);
                let b = choose|b: int| 0 <= b < t.len() && t[b] == p.1;
                assert(s[b + 1] == p.1);
            }
        }
    }
}

/// Encoding size: `k` elements give `k (k - 1) / 2` pairs.
pub proof fn lemma_pairs_count(s: Seq<Literal>)
    ensures
        pairs_spec(s).len() == s.len() * (s.len() - 1) / 2,
    decreases s.len(),
{
    if s.len() > 0 {
        lemma_pairs_count(s.drop_first());
        let n = s.len() as int;
        assert((n - 1) + (n - 1) * (n - 2) / 2 == n * (n - 1) / 2) by (nonlinear_arith)
            requires
                n >= 1,
        ;
    }
}

/// Encoding size: an orbit of `k` members gives exactly `1 + k (k - 1) / 2`
/// transversal clauses.
pub proof fn lemma_orbit_clause_count(d: Seq<(VertexIndex, VertexIndex)>, id: VertexIndex, ms: Seq<VertexIndex>)
    ensures
        orbit_clauses(d, id, ms).len() == 1 + ms.len() * (ms.len() - 1) / 2,
{
    lemma_pairs_count(orbit_lits(d, id, ms));
}

/// Literals of pairs already in a list keep their value as the list grows.
proof fn lemma_lit_stable(d: Seq<(VertexIndex, VertexIndex)>, d2: Seq<(VertexIndex, VertexIndex)>, p: (VertexIndex, VertexIndex))
    requires
        d2.no_duplicates(),
        d.len() <= d2.len(),
        d == d2.take(d.len() as int),
        d.contains(p),
    ensures
        lit(d2, p) == lit(d, p),
        d2.contains(p),
{
    let i = choose|i: int| 0 <= i < d.len() && d[i] == p;
    assert(d2[i] == p);
    lemma_lit_unique(d2, p, i);
    assert(d.no_duplicates()) by {
        assert forall|a: int, b: int| 0 <= a < d.len() && 0 <= b < d.len() && a != b implies d[a] != d[b] by {
            assert(d[a] == d2[a] && d[b] == d2[b]);
        }
    }
    lemma_lit_unique(d, p, i);
}

/// Looking pairs up only appends; every looked-up pair is then present.
pub proof fn lemma_lookup_all_grows(ps: Seq<(VertexIndex, VertexIndex)>, keys: Seq<(VertexIndex, VertexIndex)>)
    requires
        ps.no_duplicates(),
    ensures
        lookup_all(ps, keys).no_duplicates(),
        ps.len() <= lookup_all(ps, keys).len() <= ps.len() + keys.len(),
        ps == lookup_all(ps, keys).take(ps.len() as int),
        forall|i: int| 0 <= i < keys.len() ==> lookup_all(ps, keys).contains(#[trigger] keys[i]),
        forall|i: int|
            ps.len() <= i < lookup_all(ps, keys).len() ==> keys.contains(#[trigger] lookup_all(ps, keys)[i]),
    decreases keys.len(),
{
    if keys.len() > 0 {
        let prev = keys.drop_last();
        lemma_lookup_all_grows(ps, prev);
        let d = lookup_all(ps, prev);
        let p = keys.last();
        let d2 = lookup_step(d, p);
        if !d.contains(p) {
            assert(d2.no_duplicates()) by {
                assert forall|a: int, b: int| 0 <= a < d2.len() && 0 <= b < d2.len() && a != b implies d2[a] != d2[b] by {
                    if a == d.len() {
                        assert(d.contains(d2[b]));
                    } else if b == d.len() {
                        assert(d.contains(d2[a]));
                    }
                }
            }
            assert(d2.take(ps.len() as int) =~= d.take(ps.len() as int));
        }
        assert forall|i: int| 0 <= i < keys.len() implies d2.contains(#[trigger] keys[i]) by {
            if i < prev.len() {
                assert(prev[i] == keys[i]);
                assert(d.contains(keys[i]));
                let j = choose|j: int| 0 <= j < d.len() && d[j] == keys[i];
                assert(d2[j] == keys[i]);
            } else {
                if d.contains(p) {
                } else {
                    assert(d2[d.len() as int] == p);
                }
            }
        }
        assert forall|i: int| ps.len() <= i < d2.len() implies keys.contains(#[trigger] d2[i]) by {
            if i < d.len() {
                assert(d2[i] == d[i]);
                let j = choose|j: int| 0 <= j < prev.len() && prev[j] == d[i];
                assert(keys[j] == d[i]);
            } else {
                assert(keys[keys.len() - 1] == p);
            }
        }
    }
}

/// The clauses of an orbit depend only on the literals of its own pairs.
proof fn lemma_orbit_clauses_stable(
    d: Seq<(VertexIndex, VertexIndex)>,
    d2: Seq<(VertexIndex, VertexIndex)>,
    id: VertexIndex,
    ms: Seq<VertexIndex>,
)
    requires
        d2.no_duplicates(),
        d.len() <= d2.len(),
        d == d2.take(d.len() as int),
        forall|i: int| 0 <= i < ms.len() ==> d.contains((id, #[trigger] ms[i])),
    ensures
        orbit_lits(d2, id, ms) == orbit_lits(d, id, ms),
        orbit_clauses(d2, id, ms) == orbit_clauses(d, id, ms),
{
    assert forall|i: int| 0 <= i < ms.len() implies #[trigger] orbit_lits(d2, id, ms)[i] == orbit_lits(d, id, ms)[i] by {
        lemma_lit_stable(d, d2, (id, ms[i]));
    }
    assert(orbit_lits(d2, id, ms) =~= orbit_lits(d, id, ms));
}

/// The exactly-one clauses of one orbit: `-a | -b` for every two members,
/// then the disjunction of all members. Allocates the members' literals.
pub fn encode_orbit(orbit: &OrbitEncoding, dict: &mut SATEncodingDictionary) -> (r: Formula)
    requires
        old(dict).wf(),
        orbit.0 >= 0,
        forall|i: int| 0 <= i < orbit.1@.len() ==> #[trigger] orbit.1@[i] >= 0,
        old(dict)@.len() + orbit.1@.len() <= MAX_LITERAL,
    ensures
        final(dict).wf(),
        final(dict)@ == lookup_all(old(dict)@, orbit_keys(orbit.0, orbit.1@)),
        formula_view(&r) == orbit_clauses(final(dict)@, orbit.0, orbit.1@),
{
    let id = orbit.0;
    let members = &orbit.1;
    let ghost ms = members@;
    let ghost keys = orbit_keys(id, ms);
    let ghost d0 = dict@;
    let mut lits: Vec<Literal> = Vec::new();
    let mut i: usize = 0;
    while i < members.len()
        invariant
            id == orbit.0,
            id >= 0,
            ms == members@,
            keys == orbit_keys(id, ms),
            d0 == old(dict)@,
            forall|j: int| 0 <= j < ms.len() ==> #[trigger] ms[j] >= 0,
            d0.len() + ms.len() <= MAX_LITERAL,
            i <= ms.len(),
            dict.wf(),
            dict@ == lookup_all(d0, keys.take(i as int)),
            dict@.len() <= d0.len() + i,
            d0.len() <= dict@.len(),
            d0 == dict@.take(d0.len() as int),
            forall|j: int| 0 <= j < i ==> dict@.contains((id, #[trigger] ms[j])),
            lits@ == orbit_lits(dict@, id, ms.take(i as int)),
            forall|j: int| 0 <= j < lits@.len() ==> 1 <= #[trigger] lits@[j] < MAX_LITERAL,
        decreases ms.len() - i,
    {
        let ghost before = dict@;
        let v = members[i];
        let l = dict.lookup_pairing(id, v);
        proof {
            dict.lemma_valid();
            assert(keys.take(i + 1).drop_last() =~= keys.take(i as int));
            assert(keys.take(i + 1).last() == (id, v));
            assert(before == dict@.take(before.len() as int));
            assert forall|j: int| 0 <= j < i implies #[trigger] orbit_lits(dict@, id, ms.take(i as int))[j] == orbit_lits(before, id, ms.take(i as int))[j] by {
                assert(ms.take(i as int)[j] == ms[j]);
                lemma_lit_stable(before, dict@, (id, ms[j]));
            }
            assert forall|j: int| 0 <= j < i + 1 implies dict@.contains((id, #[trigger] ms[j])) by {
                if j < i {
                    lemma_lit_stable(before, dict@, (id, ms[j]));
                } else {
                    assert(dict@[l as int] == (id, v));
                }
            }
            assert(before.len() <= dict@.len());
            assert(d0 == dict@.take(d0.len() as int)) by {
                assert(dict@.take(before.len() as int).take(d0.len() as int) =~= dict@.take(d0.len() as int));
            }
        }
        lits.push(l);
        proof {
            assert(lits@ =~= orbit_lits(dict@, id, ms.take(i + 1)));
        }
        i += 1;
    }
    proof {
        assert(ms.take(i as int) =~= ms);
        assert(keys.take(i as int) =~= keys);
    }
    let pairs = literal_pairs(&lits);
    proof {
        lemma_pairs_members(lits@);
    }
    let mut formula: Formula = Vec::new();
    let mut j: usize = 0;
    while j < pairs.len()
        invariant
            pairs@ == pairs_spec(lits@),
            forall|t: int| 0 <= t < lits@.len() ==> 1 <= #[trigger] lits@[t] < MAX_LITERAL,
            forall|t: int|
                0 <= t < pairs_spec(lits@).len() ==> lits@.contains(#[trigger] pairs_spec(lits@)[t].0)
                    && lits@.contains(pairs_spec(lits@)[t].1),
            j <= pairs@.len(),
            formula@.len() == j,
            formula_view(&formula) == pairs@.take(j as int).map_values(
                |p: (Literal, Literal)| seq![(-p.0) as Literal, (-p.1) as Literal],
            ),
        decreases pairs@.len() - j,
    {
        let (a, b) = pairs[j];
        proof {
            assert(lits@.contains(a));
            assert(lits@.contains(b));
        }
        let ghost before = formula@;
        let not_a = -a;
        let not_b = -b;
        let mut clause: Clause = Vec::new();
        clause.push(not_a);
        clause.push(not_b);
        assert(clause@ =~= seq![(-a) as Literal, (-b) as Literal]);
        formula.push(clause);
        proof {
            assert(formula@ == before.push(formula@.last()));
            assert(formula_view(&formula) =~= pairs@.take(j + 1).map_values(
                |p: (Literal, Literal)| seq![(-p.0) as Literal, (-p.1) as Literal],
            )) by {
                assert forall|t: int| 0 <= t < j + 1 implies #[trigger] formula_view(&formula)[t] == pairs@.take(j + 1).map_values(
                    |p: (Literal, Literal)| seq![(-p.0) as Literal, (-p.1) as Literal],
                )[t] by {
                    if t < j {
                        assert(formula@[t] == before[t]);
                        assert(before.map_values(|c: Clause| c@)[t] == pairs@.take(j as int).map_values(
                            |p: (Literal, Literal)| seq![(-p.0) as Literal, (-p.1) as Literal],
                        )[t]);
                    } else {
                        assert(formula@[t]@ =~= seq![(-a) as Literal, (-b) as Literal]);
                    }
                }
            }
        }
        j += 1;
    }
    proof {
        assert(pairs@.take(j as int) =~= pairs@);
    }
    let ghost before = formula@;
    let ghost lv = lits@;
    formula.push(lits);
    proof {
        assert(formula_view(&formula) =~= orbit_clauses(dict@, id, ms)) by {
            assert forall|t: int| 0 <= t < formula@.len() implies #[trigger] formula_view(&formula)[t] == orbit_clauses(dict@, id, ms)[t] by {
                if t < before.len() {
                    assert(formula@[t] == before[t]);
                }
            }
        }
    }
    formula
}

/// The members of the first orbit named `id`.
fn find_members(orbits: &Vec<OrbitEncoding>, id: VertexIndex) -> (r: &Vec<VertexIndex>)
    requires
        has_orbit(orbits_view(orbits), id),
    ensures
        r@ == members_of(orbits_view(orbits), id),
        exists|k: int| 0 <= k < orbits@.len() && orbits_view(orbits)[k].0 == id && #[trigger] orbits_view(orbits)[k].1 == r@,
{
    let ghost os = orbits_view(orbits);
    assert(os.subrange(0, os.len() as int) =~= os);
    let mut k: usize = 0;
    while k < orbits.len()
        invariant
            os == orbits_view(orbits),
            has_orbit(os, id),
            k <= os.len(),
            members_of(os, id) == members_of(os.subrange(k as int, os.len() as int), id),
            forall|j: int| 0 <= j < k ==> (#[trigger] os[j]).0 != id,
        decreases os.len() - k,
    {
        let ghost rest = os.subrange(k as int, os.len() as int);
        assert(rest[0] == os[k as int]);
        if orbits[k].0 == id {
            assert(os[k as int] == (orbits@[k as int].0, orbits@[k as int].1@));
            return &orbits[k].1;
        }
        assert(rest.drop_first() =~= os.subrange(k + 1, os.len() as int));
        k += 1;
    }
    proof {
        let j = choose|j: int| 0 <= j < os.len() && (#[trigger] os[j]).0 == id;
        assert(os[j].0 != id);
    }
    &orbits[0].1
}

/// Every orbit is named by a non-negative id, its members are vertices of
/// `g`, and `d` holds the pair of each orbit with each of its members.
pub open spec fn orbits_registered(
    d: Seq<(VertexIndex, VertexIndex)>,
    g: &Graph,
    orbs: Seq<(VertexIndex, Seq<VertexIndex>)>,
) -> bool {
    forall|k: int, i: int|
        0 <= k < orbs.len() && 0 <= i < orbs[k].1.len() ==> {
            &&& orbs[k].0 >= 0
            &&& 0 <= #[trigger] orbs[k].1[i] < g.vertices@.len()
            &&& d.contains((orbs[k].0, orbs[k].1[i]))
        }
}

/// The descriptive-constraint clauses: for every quotient arc `(o1, o2)`
/// and members `v1` of `o1`, `v2` of `o2` without the arc `v1 -> v2` in
/// the original graph, the clause `-(o1,v1) | -(o2,v2)`. The dictionary
/// must already hold every pair.
pub fn descriptive_constraints(
    quotient: &QuotientGraphEncoding,
    dict: &SATEncodingDictionary,
    original_graph: &Graph,
) -> (r: Formula)
    requires
        dict.wf(),
        forall|j: int|
            0 <= j < edges_view(&quotient.0).len() ==> has_orbit(orbits_view(&quotient.1), (#[trigger] edges_view(&quotient.0)[j]).0)
                && has_orbit(orbits_view(&quotient.1), edges_view(&quotient.0)[j].1),
        members_in_graph(original_graph, orbits_view(&quotient.1)),
        keys_present(dict@, descriptive_keys(original_graph, edges_view(&quotient.0), orbits_view(&quotient.1))),
    ensures
        formula_view(&r) == descriptive_clauses(
            dict@,
            original_graph,
            edges_view(&quotient.0),
            orbits_view(&quotient.1),
        ),
{
    let ghost d = dict@;
    let ghost g = original_graph;
    let ghost es = edges_view(&quotient.0);
    let ghost os = orbits_view(&quotient.1);
    let mut formula: Formula = Vec::new();
    let mut j: usize = 0;
    while j < quotient.0.len()
        invariant
            d == dict@,
            dict.wf(),
            es == edges_view(&quotient.0),
            os == orbits_view(&quotient.1),
            forall|t: int|
                0 <= t < es.len() ==> has_orbit(os, (#[trigger] es[t]).0) && has_orbit(os, es[t].1),
            members_in_graph(original_graph, os),
            keys_present(d, descriptive_keys(original_graph, es, os)),
            j <= es.len(),
            formula_view(&formula) == descriptive_clauses(d, original_graph, es.take(j as int), os),
        decreases es.len() - j,
    {
        let (start_orbit, end_orbit) = quotient.0[j].get_edge();
        assert(es[j as int] == (start_orbit, end_orbit));
        let start_members = find_members(&quotient.1, start_orbit);
        let end_members = find_members(&quotient.1, end_orbit);
        let ghost m1 = start_members@;
        let ghost m2 = end_members@;
        let ghost base = formula_view(&formula);
        proof {
            assert(es.take(j + 1).drop_last() =~= es.take(j as int));
            assert(es.take(j + 1).last() == (start_orbit, end_orbit));
        }
        let mut a: usize = 0;
        while a < start_members.len()
            invariant
                d == dict@,
                dict.wf(),
                m1 == start_members@,
                m2 == end_members@,
                members_in_graph(original_graph, os),
                keys_present(d, descriptive_keys(original_graph, es, os)),
                es == edges_view(&quotient.0),
                j < es.len(),
                es[j as int] == (start_orbit, end_orbit),
                m1 == members_of(os, start_orbit),
                m2 == members_of(os, end_orbit),
                exists|k: int| 0 <= k < os.len() && os[k].0 == start_orbit && #[trigger] os[k].1 == m1,
                exists|k: int| 0 <= k < os.len() && os[k].0 == end_orbit && #[trigger] os[k].1 == m2,
                a <= m1.len(),
                formula_view(&formula) == base + edge_clauses(d, original_graph, start_orbit, m1.take(a as int), end_orbit, m2),
            decreases m1.len() - a,
        {
            let v1 = start_members[a];
            let ghost mid = formula_view(&formula);
            proof {
                assert(m1.take(a + 1).drop_last() =~= m1.take(a as int));
                assert(m1.take(a + 1).last() == v1);
            }
            let mut b: usize = 0;
            while b < end_members.len()
                invariant
                    d == dict@,
                    dict.wf(),
                    m1 == start_members@,
                    m2 == end_members@,
                    a < m1.len(),
                    v1 == m1[a as int],
                    members_in_graph(original_graph, os),
                    keys_present(d, descriptive_keys(original_graph, es, os)),
                    es == edges_view(&quotient.0),
                    j < es.len(),
                    es[j as int] == (start_orbit, end_orbit),
                    m1 == members_of(os, start_orbit),
                    m2 == members_of(os, end_orbit),
                    exists|k: int| 0 <= k < os.len() && os[k].0 == start_orbit && #[trigger] os[k].1 == m1,
                    exists|k: int| 0 <= k < os.len() && os[k].0 == end_orbit && #[trigger] os[k].1 == m2,
                    b <= m2.len(),
                    formula_view(&formula) == mid + row_clauses(d, original_graph, start_orbit, v1, end_orbit, m2.take(b as int)),
                decreases m2.len() - b,
            {
                let v2 = end_members[b];
                let ghost here = formula@;
                proof {
                    assert(m2.take(b + 1).drop_last() =~= m2.take(b as int));
                    assert(m2.take(b + 1).last() == v2);
                    let k1 = choose|k: int| 0 <= k < os.len() && os[k].0 == start_orbit && #[trigger] os[k].1 == m1;
                    let k2 = choose|k: int| 0 <= k < os.len() && os[k].0 == end_orbit && #[trigger] os[k].1 == m2;
                    assert(os[k1].1[a as int] == v1);
                    assert(os[k2].1[b as int] == v2);
                }
                if !original_graph.lookup_edge(&v1, &v2) {
                    proof {
                        lemma_row_keys_contains(original_graph, start_orbit, v1, end_orbit, m2, b as int);
                        lemma_edge_keys_contains(original_graph, start_orbit, m1, end_orbit, m2, a as int, (start_orbit, v1));
                        lemma_edge_keys_contains(original_graph, start_orbit, m1, end_orbit, m2, a as int, (end_orbit, v2));
                        lemma_descriptive_keys_contains(original_graph, es, os, j as int, (start_orbit, v1));
                        lemma_descriptive_keys_contains(original_graph, es, os, j as int, (end_orbit, v2));
                        let dk = descriptive_keys(original_graph, es, os);
                        let i1 = choose|i: int| 0 <= i < dk.len() && dk[i] == (start_orbit, v1);
                        let i2 = choose|i: int| 0 <= i < dk.len() && dk[i] == (end_orbit, v2);
                        assert(d.contains(dk[i1]));
                        assert(d.contains(dk[i2]));
                    }
                    let l1 = dict.get_literal(start_orbit, v1);
                    let l2 = dict.get_literal(end_orbit, v2);
                    let not_l1 = -l1;
                    let not_l2 = -l2;
                    let mut clause: Clause = Vec::new();
                    clause.push(not_l1);
                    clause.push(not_l2);
                    assert(clause@ =~= seq![(-lit(d, (start_orbit, v1))) as Literal, (-lit(d, (end_orbit, v2))) as Literal]);
                    formula.push(clause);
                    proof {
                        assert(formula@ == here.push(clause));
                        assert(formula_view(&formula) =~= formula_view(&formula).take(here.len() as int).push(clause@));
                        assert(formula_view(&formula).take(here.len() as int) =~= here.map_values(|c: Clause| c@));
                        assert(formula_view(&formula) =~= mid + row_clauses(d, original_graph, start_orbit, v1, end_orbit, m2.take(b + 1)));
                    }
                } else {
                    proof {
                        assert(formula_view(&formula) =~= mid + row_clauses(d, original_graph, start_orbit, v1, end_orbit, m2.take(b + 1)));
                    }
                }
                b += 1;
            }
            proof {
                assert(m2.take(b as int) =~= m2);
                assert(formula_view(&formula) =~= base + edge_clauses(d, original_graph, start_orbit, m1.take(a + 1), end_orbit, m2));
            }
            a += 1;
        }
        proof {
            assert(m1.take(a as int) =~= m1);
            assert(m1 == members_of(os, start_orbit));
            assert(m2 == members_of(os, end_orbit));
            assert(formula_view(&formula) =~= descriptive_clauses(d, original_graph, es.take(j + 1), os));
        }
        j += 1;
    }
    proof {
        assert(es.take(j as int) =~= es);
    }
    formula
}

/// Every key of `all_keys` is an orbit paired with one of its members, and
/// every such pair is a key.
pub proof fn lemma_all_keys(orbs: Seq<(VertexIndex, Seq<VertexIndex>)>)
    ensures
        forall|p: (VertexIndex, VertexIndex)|
            #[trigger] all_keys(orbs).contains(p) ==> exists|t: int, i: int|
                0 <= t < orbs.len() && 0 <= i < orbs[t].1.len() && p == (orbs[t].0, #[trigger] orbs[t].1[i]),
        forall|t: int, i: int|
            0 <= t < orbs.len() && 0 <= i < orbs[t].1.len() ==> all_keys(orbs).contains(
                (orbs[t].0, #[trigger] orbs[t].1[i]),
            ),
    decreases orbs.len(),
{
    if orbs.len() > 0 {
        let prev = orbs.drop_last();
        lemma_all_keys(prev);
        let last = orbs.last();
        let ks = orbit_keys(last.0, last.1);
        let pk = all_keys(prev);
        assert(all_keys(orbs) == pk + ks);
        assert forall|p: (VertexIndex, VertexIndex)| #[trigger] all_keys(orbs).contains(p) implies exists|t: int, i: int|
            0 <= t < orbs.len() && 0 <= i < orbs[t].1.len() && p == (orbs[t].0, #[trigger] orbs[t].1[i]) by {
            let a = choose|a: int| 0 <= a < all_keys(orbs).len() && all_keys(orbs)[a] == p;
            if a < pk.len() {
                assert(pk.contains(p));
                let (t, i) = choose|t: int, i: int|
                    0 <= t < prev.len() && 0 <= i < prev[t].1.len() && p == (prev[t].0, #[trigger] prev[t].1[i]);
                assert(orbs[t] == prev[t]);
            } else {
                let i = a - pk.len();
                assert(ks[i] == p);
                assert(orbs[orbs.len() - 1] == last);
                assert(p == (orbs[orbs.len() - 1].0, orbs[orbs.len() - 1].1[i]));
            }
        }
        assert forall|t: int, i: int| 0 <= t < orbs.len() && 0 <= i < orbs[t].1.len() implies all_keys(orbs).contains(
            (orbs[t].0, #[trigger] orbs[t].1[i]),
        ) by {
            let p = (orbs[t].0, orbs[t].1[i]);
            if t < prev.len() {
                assert(prev[t] == orbs[t]);
                assert(pk.contains(p));
                let a = choose|a: int| 0 <= a < pk.len() && pk[a] == p;
                assert(all_keys(orbs)[a] == p);
            } else {
                assert(ks[i] == p);
                assert(all_keys(orbs)[pk.len() + i] == p);
            }
        }
    }
}

/// The transversal clauses depend only on the literals of their own pairs.
proof fn lemma_transversal_stable(
    d: Seq<(VertexIndex, VertexIndex)>,
    d2: Seq<(VertexIndex, VertexIndex)>,
    orbs: Seq<(VertexIndex, Seq<VertexIndex>)>,
)
    requires
        d2.no_duplicates(),
        d.len() <= d2.len(),
        d == d2.take(d.len() as int),
        forall|t: int, i: int|
            0 <= t < orbs.len() && 0 <= i < orbs[t].1.len() ==> d.contains((orbs[t].0, #[trigger] orbs[t].1[i])),
    ensures
        transversal_clauses(d2, orbs) == transversal_clauses(d, orbs),
    decreases orbs.len(),
{
    if orbs.len() > 0 {
        let prev = orbs.drop_last();
        assert forall|t: int, i: int| 0 <= t < prev.len() && 0 <= i < prev[t].1.len() implies d.contains((prev[t].0, #[trigger] prev[t].1[i])) by {
            assert(prev[t] == orbs[t]);
        }
        lemma_transversal_stable(d, d2, prev);
        let last = orbs.last();
        assert forall|i: int| 0 <= i < last.1.len() implies d.contains((last.0, #[trigger] last.1[i])) by {
            assert(orbs[orbs.len() - 1] == last);
        }
        lemma_orbit_clauses_stable(d, d2, last.0, last.1);
    }
}

/// A non-negative label that some vertex carries.
pub open spec fn orbit_named(o: Seq<VertexIndex>, c: VertexIndex) -> bool {
    c >= 0 && o.contains(c)
}

/// What `encode_problem` returns for a quotient whose orbits are listed by
/// `listing`: `None` when no descriptive-constraint clause arises, else
/// the transversal clauses followed by those clauses, with the dictionary
/// that numbers the pairs of every orbit in listing order.
pub open spec fn encodes_problem(
    q: &QuotientGraph,
    g: &Graph,
    listing: Seq<(VertexIndex, Seq<VertexIndex>)>,
    r: Option<(Formula, SATEncodingDictionary)>,
) -> bool {
    let d = lookup_all(seq![(-1i32, -1i32)], all_keys(listing));
    let constraints = descriptive_clauses(d, g, arcs_spec(q.quotient_graph.vertices@), listing);
    match r {
        None => constraints.len() == 0,
        Some((f, dict)) => {
            &&& dict.wf()
            &&& dict@ == d
            &&& constraints.len() > 0
            &&& formula_view(&f) == transversal_clauses(d, listing) + constraints
        },
    }
}

/// Encodes whether the quotient is descriptive: the formula is satisfiable
/// exactly when a transversal exists whose picked vertices are adjacent
/// wherever the quotient has an arc. `None` when that holds trivially.
#[verifier::rlimit(60)]
pub fn encode_problem(quotient_graph: &QuotientGraph, original_graph: &Graph) -> (r: Option<(Formula, SATEncodingDictionary)>)
    requires
        quotient_graph.orbits@.len() == original_graph.vertices@.len(),
        original_graph.vertices@.len() < MAX_LITERAL,
        forall|x: int|
            0 <= x < quotient_graph.orbits@.len() ==> #[trigger] quotient_graph.orbits@[x] < quotient_graph.orbits@.len(),
        forall|j: int|
            0 <= j < arcs_spec(quotient_graph.quotient_graph.vertices@).len() ==> orbit_named(
                quotient_graph.orbits@,
                (#[trigger] arcs_spec(quotient_graph.quotient_graph.vertices@)[j]).0,
            ) && orbit_named(quotient_graph.orbits@, arcs_spec(quotient_graph.quotient_graph.vertices@)[j].1),
    ensures
        exists|listing: Seq<(VertexIndex, Seq<VertexIndex>)>|
            orbit_listing(quotient_graph.orbits@, listing) && #[trigger] encodes_problem(
                quotient_graph,
                original_graph,
                listing,
                r,
            ),
{
    let ghost o = quotient_graph.orbits@;
    let ghost n = o.len();
    let edges = encode_edges(&quotient_graph.quotient_graph);
    let orbits = encode_orbits(&quotient_graph.orbits);
    let ghost os = orbits_view(&orbits);
    let ghost init = seq![(-1i32, -1i32)];
    let mut dict = SATEncodingDictionary::default();
    let mut transversal: Formula = Vec::new();
    proof {
        assert(os.take(0) =~= Seq::<(VertexIndex, Seq<VertexIndex>)>::empty());
        assert(all_keys(os.take(0)) =~= Seq::<(VertexIndex, VertexIndex)>::empty());
        assert(formula_view(&transversal) =~= transversal_clauses(dict@, os.take(0)));
    }
    let mut k: usize = 0;
    while k < orbits.len()
        invariant
            o == quotient_graph.orbits@,
            n == o.len(),
            n == original_graph.vertices@.len(),
            n < MAX_LITERAL,
            os == orbits_view(&orbits),
            orbit_listing(o, os),
            init == seq![(-1i32, -1i32)],
            k <= os.len(),
            dict.wf(),
            dict@ == lookup_all(init, all_keys(os.take(k as int))),
            formula_view(&transversal) == transversal_clauses(dict@, os.take(k as int)),
        decreases os.len() - k,
    {
        let ghost before = dict@;
        proof {
            dict.lemma_valid();
            lemma_capacity(o, os, k as int, before, init);
            assert(os[k as int] == (orbits@[k as int].0, orbits@[k as int].1@));
            assert forall|i: int| 0 <= i < orbits@[k as int].1@.len() implies #[trigger] orbits@[k as int].1@[i] >= 0 by {
                assert(os[k as int].1.contains(os[k as int].1[i]));
            }
        }
        let mut clauses = encode_orbit(&orbits[k], &mut dict);
        let ghost added = formula_view(&clauses);
        let ghost t0 = transversal@;
        let ghost c0 = clauses@;
        transversal.append(&mut clauses);
        proof {
            assert(transversal@ == t0 + c0);
            assert(formula_view(&transversal) =~= t0.map_values(|c: Clause| c@) + added);
            dict.lemma_valid();
            lemma_transversal_step(os, k as int, init, before, dict@);
        }
        k += 1;
    }
    proof {
        assert(os.take(k as int) =~= os);
        lemma_all_keys(os);
        lemma_lookup_all_grows(init, all_keys(os));
        assert forall|k2: int, i: int| 0 <= k2 < os.len() && 0 <= i < os[k2].1.len() implies {
            &&& os[k2].0 >= 0
            &&& 0 <= #[trigger] os[k2].1[i] < original_graph.vertices@.len()
            &&& dict@.contains((os[k2].0, os[k2].1[i]))
        } by {
            assert(os[k2].1.contains(os[k2].1[i]));
            let p = (os[k2].0, os[k2].1[i]);
            assert(all_keys(os).contains(p));
            let a = choose|a: int| 0 <= a < all_keys(os).len() && all_keys(os)[a] == p;
        }
        assert(orbits_registered(dict@, original_graph, os));
    }
    let encoding = QuotientGraphEncoding(edges, orbits);
    proof {
        let es = edges_view(&encoding.0);
        assert forall|j: int| 0 <= j < es.len() implies has_orbit(os, (#[trigger] es[j]).0) && has_orbit(os, es[j].1) by {
            let arcs = arcs_spec(quotient_graph.quotient_graph.vertices@);
            assert(es[j] == arcs[j]);
            let x = choose|x: int| 0 <= x < o.len() && o[x] == es[j].0;
            let y = choose|y: int| 0 <= y < o.len() && o[y] == es[j].1;
            assert(o[x] >= 0 && o[y] >= 0);
        }
    }
    proof {
        lemma_registered_keys_present(dict@, original_graph, edges_view(&encoding.0), os);
    }
    let mut descriptive = descriptive_constraints(&encoding, &dict, original_graph);
    proof {
        assert(edges_view(&encoding.0) == arcs_spec(quotient_graph.quotient_graph.vertices@));
        assert(orbits_view(&encoding.1) == os);
        assert(dict@ == lookup_all(init, all_keys(os)));
    }
    if descriptive.len() == 0 {
        proof {
            assert(formula_view(&descriptive).len() == 0);
            assert(encodes_problem(quotient_graph, original_graph, os, None));
        }
        None
    } else {
        let ghost tv = formula_view(&transversal);
        let ghost dv = formula_view(&descriptive);
        let ghost t0 = transversal@;
        let ghost d0 = descriptive@;
        transversal.append(&mut descriptive);
        proof {
            assert(transversal@ == t0 + d0);
            assert(formula_view(&transversal) =~= tv + dv);
            assert(encodes_problem(quotient_graph, original_graph, os, Some((transversal, dict))));
        }
        Some((transversal, dict))
    }
}

/// One more orbit's keys extend the dictionary and the transversal clauses.
pub proof fn lemma_transversal_step_pub(
    os: Seq<(VertexIndex, Seq<VertexIndex>)>,
    k: int,
    init: Seq<(VertexIndex, VertexIndex)>,
    before: Seq<(VertexIndex, VertexIndex)>,
    after: Seq<(VertexIndex, VertexIndex)>,
)
    requires
        0 <= k < os.len(),
        init == seq![(-1i32, -1i32)],
        before == lookup_all(init, all_keys(os.take(k))),
        after == lookup_all(before, orbit_keys(os[k].0, os[k].1)),
    ensures
        after == lookup_all(init, all_keys(os.take(k + 1))),
        transversal_clauses(after, os.take(k)) + orbit_clauses(after, os[k].0, os[k].1)
            == transversal_clauses(after, os.take(k + 1)),
        transversal_clauses(after, os.take(k)) == transversal_clauses(before, os.take(k)),
{
    lemma_transversal_step(os, k, init, before, after);
}

proof fn lemma_transversal_step(
    os: Seq<(VertexIndex, Seq<VertexIndex>)>,
    k: int,
    init: Seq<(VertexIndex, VertexIndex)>,
    before: Seq<(VertexIndex, VertexIndex)>,
    after: Seq<(VertexIndex, VertexIndex)>,
)
    requires
        0 <= k < os.len(),
        init == seq![(-1i32, -1i32)],
        before == lookup_all(init, all_keys(os.take(k))),
        after == lookup_all(before, orbit_keys(os[k].0, os[k].1)),
    ensures
        after == lookup_all(init, all_keys(os.take(k + 1))),
        transversal_clauses(after, os.take(k)) + orbit_clauses(after, os[k].0, os[k].1)
            == transversal_clauses(after, os.take(k + 1)),
        transversal_clauses(after, os.take(k)) == transversal_clauses(before, os.take(k)),
{
    assert(init.no_duplicates());
    lemma_lookup_all_grows(init, all_keys(os.take(k)));
    lemma_lookup_all_grows(before, orbit_keys(os[k].0, os[k].1));
    assert(os.take(k + 1).drop_last() =~= os.take(k));
    assert(os.take(k + 1).last() == os[k]);
    assert(all_keys(os.take(k + 1)) == all_keys(os.take(k)) + orbit_keys(os[k].0, os[k].1));
    lemma_lookup_all_concat(init, all_keys(os.take(k)), orbit_keys(os[k].0, os[k].1));
    lemma_all_keys(os.take(k));
    assert forall|t: int, i: int|
        0 <= t < os.take(k).len() && 0 <= i < os.take(k)[t].1.len() implies before.contains(
            (os.take(k)[t].0, #[trigger] os.take(k)[t].1[i]),
        ) by {
        let p = (os.take(k)[t].0, os.take(k)[t].1[i]);
        assert(all_keys(os.take(k)).contains(p));
        let a = choose|a: int| 0 <= a < all_keys(os.take(k)).len() && all_keys(os.take(k))[a] == p;
    }
    lemma_transversal_stable(before, after, os.take(k));
}

/// Looking up two runs of keys in turn is looking up their concatenation.
proof fn lemma_lookup_all_concat(
    ps: Seq<(VertexIndex, VertexIndex)>,
    a: Seq<(VertexIndex, VertexIndex)>,
    b: Seq<(VertexIndex, VertexIndex)>,
)
    ensures
        lookup_all(ps, a + b) == lookup_all(lookup_all(ps, a), b),
    decreases b.len(),
{
    if b.len() == 0 {
        assert(a + b =~= a);
    } else {
        lemma_lookup_all_concat(ps, a, b.drop_last());
        assert((a + b).drop_last() =~= a + b.drop_last());
        assert((a + b).last() == b.last());
    }
}

/// Room for the next orbit's literals: the pairs allocated so far have
/// distinct vertices of earlier orbits, so together with the next orbit's
/// members they number at most `n`.
proof fn lemma_capacity(
    o: Seq<VertexIndex>,
    os: Seq<(VertexIndex, Seq<VertexIndex>)>,
    k: int,
    d: Seq<(VertexIndex, VertexIndex)>,
    init: Seq<(VertexIndex, VertexIndex)>,
)
    requires
        orbit_listing(o, os),
        0 <= k < os.len(),
        init == seq![(-1i32, -1i32)],
        d == lookup_all(init, all_keys(os.take(k))),
        crate::dictionary::valid_pairs(d),
    ensures
        d.len() + os[k].1.len() <= o.len() + 1,
{
    let ms = os[k].1;
    let rest = d.subrange(1, d.len() as int);
    lemma_all_keys(os.take(k));
    assert(init.no_duplicates());
    lemma_lookup_all_grows(init, all_keys(os.take(k)));
    assert forall|i: int| 0 <= i < rest.len() implies exists|t: int, j: int|
        0 <= t < k && 0 <= j < os[t].1.len() && #[trigger] rest[i] == (os[t].0, os[t].1[j]) by {
        assert(rest[i] == d[i + 1]);
        assert(all_keys(os.take(k)).contains(d[i + 1]));
        let (t, j) = choose|t: int, j: int|
            0 <= t < os.take(k).len() && 0 <= j < os.take(k)[t].1.len() && d[i + 1] == (os.take(k)[t].0, #[trigger] os.take(k)[t].1[j]);
        assert(os.take(k)[t] == os[t]);
    }
    let s = rest.map_values(|p: (VertexIndex, VertexIndex)| p.1 as usize) + ms.map_values(|v: VertexIndex| v as usize);
    assert forall|i: int| 0 <= i < s.len() implies #[trigger] s[i] < o.len() && o[s[i] as int] == (if i < rest.len() {
        rest[i].0
    } else {
        os[k].0
    }) && (i < rest.len() ==> rest[i].0 < os[k].0) by {
        if i < rest.len() {
            let (t, j) = choose|t: int, j: int|
                0 <= t < k && 0 <= j < os[t].1.len() && #[trigger] rest[i] == (os[t].0, os[t].1[j]);
            assert(os[t].1.contains(os[t].1[j]));
            assert(os[t].0 < os[k].0);
        } else {
            let j = i - rest.len();
            assert(ms.contains(ms[j]));
        }
    }
    assert(s.no_duplicates()) by {
        assert forall|a: int, b: int| 0 <= a < s.len() && 0 <= b < s.len() && a != b implies s[a] != s[b] by {
            assert(s[a] < o.len() && o[s[a] as int] == (if a < rest.len() { rest[a].0 } else { os[k].0 }));
            assert(s[b] < o.len() && o[s[b] as int] == (if b < rest.len() { rest[b].0 } else { os[k].0 }));
            if a < rest.len() && b < rest.len() {
                assert(rest[a].0 < os[k].0);
                assert(s[a] == rest[a].1 as usize);
                assert(s[b] == rest[b].1 as usize);
                assert(d[a + 1].1 >= 0 && d[b + 1].1 >= 0);
                if s[a] == s[b] {
                    assert(rest[a].1 == rest[b].1);
                    assert(rest[a] == rest[b]);
                    assert(d[a + 1] == d[b + 1]);
                }
            } else if a >= rest.len() && b >= rest.len() {
                let ia = a - rest.len();
                let ib = b - rest.len();
                assert(s[a] == ms[ia] as usize);
                assert(s[b] == ms[ib] as usize);
                assert(ms.contains(ms[ia]) && ms.contains(ms[ib]));
                if ia < ib {
                    assert(ms[ia] < ms[ib]);
                } else {
                    assert(ms[ib] < ms[ia]);
                }
            } else if a < rest.len() {
                assert(rest[a].0 < os[k].0);
            } else {
                assert(rest[b].0 < os[k].0);
            }
        }
    }
    crate::permutation::lemma_distinct_bounded(s, o.len() as nat);
}

/// A value with a high-level view of its part of the SAT encoding.
pub trait HighLevelEncoding {
    type HighLevelRepresentation;

    /// The values on which the view can be taken.
    spec fn encodable(&self) -> bool;

    /// The high-level view.
    fn encode_high(&self) -> Self::HighLevelRepresentation
        requires
            self.encodable(),
    ;
}

impl HighLevelEncoding for Graph {
    type HighLevelRepresentation = Vec<EdgeEncoding>;

    open spec fn encodable(&self) -> bool {
        true
    }

    fn encode_high(&self) -> Vec<EdgeEncoding> {
        encode_edges(self)
    }
}

impl HighLevelEncoding for Orbits {
    type HighLevelRepresentation = Vec<OrbitEncoding>;

    open spec fn encodable(&self) -> bool {
        &&& self@.len() <= 2147483648
        &&& forall|x: int| 0 <= x < self@.len() ==> #[trigger] self@[x] < self@.len()
    }

    fn encode_high(&self) -> Vec<OrbitEncoding> {
        encode_orbits(self)
    }
}

impl HighLevelEncoding for QuotientGraph {
    type HighLevelRepresentation = QuotientGraphEncoding;

    open spec fn encodable(&self) -> bool {
        self.orbits.encodable()
    }

    fn encode_high(&self) -> QuotientGraphEncoding {
        QuotientGraphEncoding(encode_edges(&self.quotient_graph), encode_orbits(&self.orbits))
    }
}

/// A part of the problem that becomes clauses over the dictionary's literals.
pub trait SATEncoding {
    /// The dictionaries and graphs with which the part can be encoded.
    spec fn sat_ready(&self, dict: &SATEncodingDictionary, original_graph: &Graph) -> bool;

    /// The literal list after encoding.
    spec fn sat_pairs(&self, pairs: Seq<(VertexIndex, VertexIndex)>, original_graph: &Graph) -> Seq<(VertexIndex, VertexIndex)>;

    /// The clauses, over the literal list after encoding.
    spec fn sat_clauses(&self, pairs: Seq<(VertexIndex, VertexIndex)>, original_graph: &Graph) -> Seq<Seq<Literal>>;

    /// Encodes the part, allocating literals as needed.
    fn encode_sat(&self, dict: &mut SATEncodingDictionary, original_graph: &Graph) -> (r: Formula)
        requires
            self.sat_ready(old(dict), original_graph),
        ensures
            final(dict).wf(),
            final(dict)@ == self.sat_pairs(old(dict)@, original_graph),
            formula_view(&r) == self.sat_clauses(final(dict)@, original_graph),
    ;
}

impl SATEncoding for OrbitEncoding {
    open spec fn sat_ready(&self, dict: &SATEncodingDictionary, original_graph: &Graph) -> bool {
        &&& dict.wf()
        &&& self.0 >= 0
        &&& forall|i: int| 0 <= i < self.1@.len() ==> #[trigger] self.1@[i] >= 0
        &&& dict@.len() + self.1@.len() <= MAX_LITERAL
    }

    open spec fn sat_pairs(&self, pairs: Seq<(VertexIndex, VertexIndex)>, original_graph: &Graph) -> Seq<(VertexIndex, VertexIndex)> {
        lookup_all(pairs, orbit_keys(self.0, self.1@))
    }

    open spec fn sat_clauses(&self, pairs: Seq<(VertexIndex, VertexIndex)>, original_graph: &Graph) -> Seq<Seq<Literal>> {
        orbit_clauses(pairs, self.0, self.1@)
    }

    fn encode_sat(&self, dict: &mut SATEncodingDictionary, original_graph: &Graph) -> (r: Formula) {
        encode_orbit(self, dict)
    }
}

impl SATEncoding for QuotientGraphEncoding {
    open spec fn sat_ready(&self, dict: &SATEncodingDictionary, original_graph: &Graph) -> bool {
        &&& dict.wf()
        &&& forall|j: int|
            0 <= j < edges_view(&self.0).len() ==> has_orbit(orbits_view(&self.1), (#[trigger] edges_view(&self.0)[j]).0)
                && has_orbit(orbits_view(&self.1), edges_view(&self.0)[j].1)
        &&& members_in_graph(original_graph, orbits_view(&self.1))
        &&& dict@.len() + all_keys(orbits_view(&self.1)).len() <= MAX_LITERAL
    }

    open spec fn sat_pairs(&self, pairs: Seq<(VertexIndex, VertexIndex)>, original_graph: &Graph) -> Seq<(VertexIndex, VertexIndex)> {
        lookup_all(pairs, descriptive_keys(original_graph, edges_view(&self.0), orbits_view(&self.1)))
    }

    open spec fn sat_clauses(&self, pairs: Seq<(VertexIndex, VertexIndex)>, original_graph: &Graph) -> Seq<Seq<Literal>> {
        descriptive_clauses(pairs, original_graph, edges_view(&self.0), orbits_view(&self.1))
    }

    fn encode_sat(&self, dict: &mut SATEncodingDictionary, original_graph: &Graph) -> (r: Formula) {
        encode_descriptive(self, dict, original_graph)
    }
}

/// The pairs whose literals the row clauses of `v1` use, in clause order.
pub open spec fn row_keys(
    g: &Graph,
    o1: VertexIndex,
    v1: VertexIndex,
    o2: VertexIndex,
    m2: Seq<VertexIndex>,
) -> Seq<(VertexIndex, VertexIndex)>
    decreases m2.len(),
{
    if m2.len() == 0 {
        seq![]
    } else {
        let rest = row_keys(g, o1, v1, o2, m2.drop_last());
        if adjacent(g, v1 as int, m2.last()) {
            rest
        } else {
            rest + seq![(o1, v1), (o2, m2.last())]
        }
    }
}

/// The pairs whose literals the clauses of one quotient arc use.
pub open spec fn edge_keys(
    g: &Graph,
    o1: VertexIndex,
    m1: Seq<VertexIndex>,
    o2: VertexIndex,
    m2: Seq<VertexIndex>,
) -> Seq<(VertexIndex, VertexIndex)>
    decreases m1.len(),
{
    if m1.len() == 0 {
        seq![]
    } else {
        edge_keys(g, o1, m1.drop_last(), o2, m2) + row_keys(g, o1, m1.last(), o2, m2)
    }
}

/// The pairs whose literals the descriptive-constraint clauses use, in
/// clause order, two per clause.
pub open spec fn descriptive_keys(
    g: &Graph,
    edges: Seq<(VertexIndex, VertexIndex)>,
    orbs: Seq<(VertexIndex, Seq<VertexIndex>)>,
) -> Seq<(VertexIndex, VertexIndex)>
    decreases edges.len(),
{
    if edges.len() == 0 {
        seq![]
    } else {
        let e = edges.last();
        descriptive_keys(g, edges.drop_last(), orbs) + edge_keys(
            g,
            e.0,
            members_of(orbs, e.0),
            e.1,
            members_of(orbs, e.1),
        )
    }
}

/// Every pair of `keys` is in `d`.
pub open spec fn keys_present(d: Seq<(VertexIndex, VertexIndex)>, keys: Seq<(VertexIndex, VertexIndex)>) -> bool {
    forall|i: int| 0 <= i < keys.len() ==> d.contains(#[trigger] keys[i])
}

/// Every orbit is named by a non-negative id and its members are vertices of `g`.
pub open spec fn members_in_graph(g: &Graph, orbs: Seq<(VertexIndex, Seq<VertexIndex>)>) -> bool {
    &&& forall|k: int| 0 <= k < orbs.len() ==> (#[trigger] orbs[k]).0 >= 0
    &&& forall|k: int, i: int| 0 <= k < orbs.len() && 0 <= i < orbs[k].1.len() ==> 0 <= #[trigger] orbs[k].1[i] < g.vertices@.len()
}

/// Distinct elements that all occur in `k` are at most as many as `k`.
proof fn lemma_pigeonhole(s: Seq<(VertexIndex, VertexIndex)>, k: Seq<(VertexIndex, VertexIndex)>)
    requires
        s.no_duplicates(),
        forall|i: int| 0 <= i < s.len() ==> k.contains(#[trigger] s[i]),
    ensures
        s.len() <= k.len(),
{
    s.unique_seq_to_set();
    k.lemma_cardinality_of_set();
    vstd::seq_lib::seq_to_set_is_finite(k);
    assert(s.to_set().subset_of(k.to_set())) by {
        assert forall|x: (VertexIndex, VertexIndex)| s.to_set().contains(x) implies k.to_set().contains(x) by {
            assert(s.contains(x));
            let i = choose|i: int| 0 <= i < s.len() && s[i] == x;
        }
    }
    vstd::set_lib::lemma_len_subset(s.to_set(), k.to_set());
}

/// The members of the first orbit with an id are the members of some
/// orbit with that id.
proof fn lemma_members_of(orbs: Seq<(VertexIndex, Seq<VertexIndex>)>, id: VertexIndex)
    requires
        has_orbit(orbs, id),
    ensures
        exists|k: int| 0 <= k < orbs.len() && orbs[k].0 == id && #[trigger] orbs[k].1 == members_of(orbs, id),
    decreases orbs.len(),
{
    if orbs[0].0 != id {
        let rest = orbs.drop_first();
        let k = choose|k: int| 0 <= k < orbs.len() && (#[trigger] orbs[k]).0 == id;
        assert(rest[k - 1] == orbs[k]);
        lemma_members_of(rest, id);
        let j = choose|j: int| 0 <= j < rest.len() && rest[j].0 == id && #[trigger] rest[j].1 == members_of(rest, id);
        assert(orbs[j + 1] == rest[j]);
    } else {
        assert(orbs[0].1 == members_of(orbs, id));
    }
}

/// The pairs of the row keys pair `o1` with `v1` or `o2` with a member of `m2`.
proof fn lemma_row_keys_from(g: &Graph, o1: VertexIndex, v1: VertexIndex, o2: VertexIndex, m2: Seq<VertexIndex>)
    ensures
        forall|i: int|
            0 <= i < row_keys(g, o1, v1, o2, m2).len() ==> #[trigger] row_keys(g, o1, v1, o2, m2)[i] == (o1, v1)
                || (row_keys(g, o1, v1, o2, m2)[i].0 == o2 && m2.contains(row_keys(g, o1, v1, o2, m2)[i].1)),
    decreases m2.len(),
{
    if m2.len() > 0 {
        let prev = m2.drop_last();
        lemma_row_keys_from(g, o1, v1, o2, prev);
        let r = row_keys(g, o1, v1, o2, prev);
        let rk = row_keys(g, o1, v1, o2, m2);
        assert forall|i: int| 0 <= i < rk.len() implies #[trigger] rk[i] == (o1, v1) || (rk[i].0 == o2 && m2.contains(rk[i].1)) by {
            if i < r.len() {
                assert(rk[i] == r[i]);
                if r[i] != (o1, v1) {
                    let t = choose|t: int| 0 <= t < prev.len() && prev[t] == r[i].1;
                    assert(m2[t] == r[i].1);
                }
            } else {
                assert(m2[m2.len() - 1] == m2.last());
            }
        }
    }
}

/// The pairs of the edge keys pair `o1` with a member of `m1` or `o2` with
/// a member of `m2`.
proof fn lemma_edge_keys_from(g: &Graph, o1: VertexIndex, m1: Seq<VertexIndex>, o2: VertexIndex, m2: Seq<VertexIndex>)
    ensures
        forall|i: int|
            0 <= i < edge_keys(g, o1, m1, o2, m2).len() ==> (#[trigger] edge_keys(g, o1, m1, o2, m2)[i].0 == o1 && m1.contains(
                edge_keys(g, o1, m1, o2, m2)[i].1,
            )) || (edge_keys(g, o1, m1, o2, m2)[i].0 == o2 && m2.contains(edge_keys(g, o1, m1, o2, m2)[i].1)),
    decreases m1.len(),
{
    if m1.len() > 0 {
        let prev = m1.drop_last();
        lemma_edge_keys_from(g, o1, prev, o2, m2);
        lemma_row_keys_from(g, o1, m1.last(), o2, m2);
        let e = edge_keys(g, o1, prev, o2, m2);
        let r = row_keys(g, o1, m1.last(), o2, m2);
        let ek = edge_keys(g, o1, m1, o2, m2);
        assert(ek == e + r);
        assert forall|i: int| 0 <= i < ek.len() implies (#[trigger] ek[i].0 == o1 && m1.contains(ek[i].1)) || (ek[i].0 == o2
            && m2.contains(ek[i].1)) by {
            if i < e.len() {
                assert(ek[i] == e[i]);
                if e[i].0 == o1 && prev.contains(e[i].1) {
                    let t = choose|t: int| 0 <= t < prev.len() && prev[t] == e[i].1;
                    assert(m1[t] == e[i].1);
                }
            } else {
                assert(ek[i] == r[i - e.len()]);
                assert(m1[m1.len() - 1] == m1.last());
            }
        }
    }
}

/// Every descriptive key pairs an orbit of the listing with one of its members.
proof fn lemma_descriptive_keys_from(g: &Graph, edges: Seq<(VertexIndex, VertexIndex)>, orbs: Seq<(VertexIndex, Seq<VertexIndex>)>)
    requires
        forall|j: int| 0 <= j < edges.len() ==> has_orbit(orbs, (#[trigger] edges[j]).0) && has_orbit(orbs, edges[j].1),
    ensures
        forall|i: int|
            0 <= i < descriptive_keys(g, edges, orbs).len() ==> exists|k: int, t: int|
                0 <= k < orbs.len() && 0 <= t < orbs[k].1.len() && #[trigger] descriptive_keys(g, edges, orbs)[i] == (
                    orbs[k].0,
                    orbs[k].1[t],
                ),
    decreases edges.len(),
{
    if edges.len() > 0 {
        let prev = edges.drop_last();
        assert forall|j: int| 0 <= j < prev.len() implies has_orbit(orbs, (#[trigger] prev[j]).0) && has_orbit(orbs, prev[j].1) by {
            assert(prev[j] == edges[j]);
        }
        lemma_descriptive_keys_from(g, prev, orbs);
        let e = edges.last();
        assert(edges[edges.len() - 1] == e);
        let m1 = members_of(orbs, e.0);
        let m2 = members_of(orbs, e.1);
        lemma_members_of(orbs, e.0);
        lemma_members_of(orbs, e.1);
        lemma_edge_keys_from(g, e.0, m1, e.1, m2);
        let d = descriptive_keys(g, prev, orbs);
        let ek = edge_keys(g, e.0, m1, e.1, m2);
        let dk = descriptive_keys(g, edges, orbs);
        assert(dk == d + ek);
        let k1 = choose|k: int| 0 <= k < orbs.len() && orbs[k].0 == e.0 && #[trigger] orbs[k].1 == m1;
        let k2 = choose|k: int| 0 <= k < orbs.len() && orbs[k].0 == e.1 && #[trigger] orbs[k].1 == m2;
        assert forall|i: int| 0 <= i < dk.len() implies exists|k: int, t: int|
            0 <= k < orbs.len() && 0 <= t < orbs[k].1.len() && #[trigger] dk[i] == (orbs[k].0, orbs[k].1[t]) by {
            if i < d.len() {
                assert(dk[i] == d[i]);
            } else {
                let x = ek[i - d.len()];
                assert(dk[i] == x);
                if x.0 == e.0 && m1.contains(x.1) {
                    let t = choose|t: int| 0 <= t < m1.len() && m1[t] == x.1;
                    assert(dk[i] == (orbs[k1].0, orbs[k1].1[t]));
                } else {
                    let t = choose|t: int| 0 <= t < m2.len() && m2[t] == x.1;
                    assert(dk[i] == (orbs[k2].0, orbs[k2].1[t]));
                }
            }
        }
    }
}

proof fn lemma_row_keys_contains(g: &Graph, o1: VertexIndex, v1: VertexIndex, o2: VertexIndex, m2: Seq<VertexIndex>, t: int)
    requires
        0 <= t < m2.len(),
        !adjacent(g, v1 as int, m2[t]),
    ensures
        row_keys(g, o1, v1, o2, m2).contains((o1, v1)),
        row_keys(g, o1, v1, o2, m2).contains((o2, m2[t])),
    decreases m2.len(),
{
    let rest = row_keys(g, o1, v1, o2, m2.drop_last());
    let rk = row_keys(g, o1, v1, o2, m2);
    if t < m2.len() - 1 {
        lemma_row_keys_contains(g, o1, v1, o2, m2.drop_last(), t);
        assert(m2.drop_last()[t] == m2[t]);
        let i = choose|i: int| 0 <= i < rest.len() && rest[i] == (o1, v1);
        let i2 = choose|i: int| 0 <= i < rest.len() && rest[i] == (o2, m2[t]);
        assert(rk[i] == rest[i]);
        assert(rk[i2] == rest[i2]);
    } else {
        assert(rk[rest.len() as int] == (o1, v1));
        assert(rk[rest.len() as int + 1] == (o2, m2[t]));
    }
}

proof fn lemma_edge_keys_contains(
    g: &Graph,
    o1: VertexIndex,
    m1: Seq<VertexIndex>,
    o2: VertexIndex,
    m2: Seq<VertexIndex>,
    a: int,
    x: (VertexIndex, VertexIndex),
)
    requires
        0 <= a < m1.len(),
        row_keys(g, o1, m1[a], o2, m2).contains(x),
    ensures
        edge_keys(g, o1, m1, o2, m2).contains(x),
    decreases m1.len(),
{
    let prev = edge_keys(g, o1, m1.drop_last(), o2, m2);
    let row = row_keys(g, o1, m1.last(), o2, m2);
    if a < m1.len() - 1 {
        assert(m1.drop_last()[a] == m1[a]);
        lemma_edge_keys_contains(g, o1, m1.drop_last(), o2, m2, a, x);
        let i = choose|i: int| 0 <= i < prev.len() && prev[i] == x;
        assert((prev + row)[i] == x);
    } else {
        let i = choose|i: int| 0 <= i < row.len() && row[i] == x;
        assert((prev + row)[prev.len() + i] == x);
    }
}

proof fn lemma_descriptive_keys_contains(
    g: &Graph,
    edges: Seq<(VertexIndex, VertexIndex)>,
    orbs: Seq<(VertexIndex, Seq<VertexIndex>)>,
    j: int,
    x: (VertexIndex, VertexIndex),
)
    requires
        0 <= j < edges.len(),
        edge_keys(g, edges[j].0, members_of(orbs, edges[j].0), edges[j].1, members_of(orbs, edges[j].1)).contains(x),
    ensures
        descriptive_keys(g, edges, orbs).contains(x),
    decreases edges.len(),
{
    let prev = descriptive_keys(g, edges.drop_last(), orbs);
    let e = edges.last();
    let last = edge_keys(g, e.0, members_of(orbs, e.0), e.1, members_of(orbs, e.1));
    if j < edges.len() - 1 {
        assert(edges.drop_last()[j] == edges[j]);
        lemma_descriptive_keys_contains(g, edges.drop_last(), orbs, j, x);
        let i = choose|i: int| 0 <= i < prev.len() && prev[i] == x;
        assert((prev + last)[i] == x);
    } else {
        let i = choose|i: int| 0 <= i < last.len() && last[i] == x;
        assert((prev + last)[prev.len() + i] == x);
    }
}

/// With every orbit pair registered, every descriptive key is present.
pub proof fn lemma_registered_keys_present(
    d: Seq<(VertexIndex, VertexIndex)>,
    g: &Graph,
    edges: Seq<(VertexIndex, VertexIndex)>,
    orbs: Seq<(VertexIndex, Seq<VertexIndex>)>,
)
    requires
        forall|j: int| 0 <= j < edges.len() ==> has_orbit(orbs, (#[trigger] edges[j]).0) && has_orbit(orbs, edges[j].1),
        forall|k: int| 0 <= k < orbs.len() ==> (#[trigger] orbs[k]).0 >= 0,
        orbits_registered(d, g, orbs),
    ensures
        keys_present(d, descriptive_keys(g, edges, orbs)),
        members_in_graph(g, orbs),
{
    lemma_descriptive_keys_from(g, edges, orbs);
    assert forall|k: int, i: int| 0 <= k < orbs.len() && 0 <= i < orbs[k].1.len() implies 0 <= #[trigger] orbs[k].1[i]
        < g.vertices@.len() by {}
    let dk = descriptive_keys(g, edges, orbs);
    assert forall|i: int| 0 <= i < dk.len() implies d.contains(#[trigger] dk[i]) by {
        let (k, t) = choose|k: int, t: int| 0 <= k < orbs.len() && 0 <= t < orbs[k].1.len() && #[trigger] dk[i] == (orbs[k].0, orbs[k].1[t]);
        assert(d.contains((orbs[k].0, orbs[k].1[t])));
    }
}

/// Room for the next key: either it is in the dictionary already, or the
/// dictionary, whose new pairs are orbit pairs, is below the literal cap.
proof fn lemma_room(
    d0: Seq<(VertexIndex, VertexIndex)>,
    d: Seq<(VertexIndex, VertexIndex)>,
    os: Seq<(VertexIndex, Seq<VertexIndex>)>,
    p: (VertexIndex, VertexIndex),
)
    requires
        d.no_duplicates(),
        d0.len() <= d.len(),
        forall|i: int| d0.len() <= i < d.len() ==> all_keys(os).contains(#[trigger] d[i]),
        all_keys(os).contains(p),
        d0.len() + all_keys(os).len() <= MAX_LITERAL,
    ensures
        d.contains(p) || d.len() < MAX_LITERAL,
{
    if !d.contains(p) {
        let s = d.subrange(d0.len() as int, d.len() as int).push(p);
        assert(s.no_duplicates()) by {
            assert forall|a: int, b: int| 0 <= a < s.len() && 0 <= b < s.len() && a != b implies s[a] != s[b] by {
                if a < s.len() - 1 && b < s.len() - 1 {
                    assert(s[a] == d[d0.len() + a] && s[b] == d[d0.len() + b]);
                } else if a == s.len() - 1 && b < s.len() - 1 {
                    assert(s[b] == d[d0.len() + b]);
                } else if b == s.len() - 1 && a < s.len() - 1 {
                    assert(s[a] == d[d0.len() + a]);
                }
            }
        }
        assert forall|i: int| 0 <= i < s.len() implies all_keys(os).contains(#[trigger] s[i]) by {
            if i < s.len() - 1 {
                assert(s[i] == d[d0.len() + i]);
            }
        }
        lemma_pigeonhole(s, all_keys(os));
    }
}

/// Allocates, in clause order, the literals that the descriptive-constraint
/// clauses use.
fn register_descriptive_keys(
    quotient: &QuotientGraphEncoding,
    dict: &mut SATEncodingDictionary,
    original_graph: &Graph,
)
    requires
        old(dict).wf(),
        forall|j: int|
            0 <= j < edges_view(&quotient.0).len() ==> has_orbit(orbits_view(&quotient.1), (#[trigger] edges_view(&quotient.0)[j]).0)
                && has_orbit(orbits_view(&quotient.1), edges_view(&quotient.0)[j].1),
        members_in_graph(original_graph, orbits_view(&quotient.1)),
        old(dict)@.len() + all_keys(orbits_view(&quotient.1)).len() <= MAX_LITERAL,
    ensures
        final(dict).wf(),
        final(dict)@ == lookup_all(old(dict)@, descriptive_keys(original_graph, edges_view(&quotient.0), orbits_view(&quotient.1))),
{
    let ghost d0 = dict@;
    let ghost g = original_graph;
    let ghost es = edges_view(&quotient.0);
    let ghost os = orbits_view(&quotient.1);
    let ghost mut ks: Seq<(VertexIndex, VertexIndex)> = seq![];
    proof {
        dict.lemma_valid();
        lemma_all_keys(os);
        assert(dict@.subrange(0, d0.len() as int) =~= d0);
    }
    let mut j: usize = 0;
    while j < quotient.0.len()
        invariant
            es == edges_view(&quotient.0),
            os == orbits_view(&quotient.1),
            forall|t: int| 0 <= t < es.len() ==> has_orbit(os, (#[trigger] es[t]).0) && has_orbit(os, es[t].1),
            members_in_graph(original_graph, os),
            d0.len() + all_keys(os).len() <= MAX_LITERAL,
            forall|k: int, t: int| 0 <= k < os.len() && 0 <= t < os[k].1.len() ==> all_keys(os).contains((os[k].0, #[trigger] os[k].1[t])),
            dict.wf(),
            d0.len() <= dict@.len(),
            forall|i: int| d0.len() <= i < dict@.len() ==> all_keys(os).contains(#[trigger] dict@[i]),
            j <= es.len(),
            ks == descriptive_keys(original_graph, es.take(j as int), os),
            dict@ == lookup_all(d0, ks),
        decreases es.len() - j,
    {
        let (start_orbit, end_orbit) = quotient.0[j].get_edge();
        assert(es[j as int] == (start_orbit, end_orbit));
        let start_members = find_members(&quotient.1, start_orbit);
        let end_members = find_members(&quotient.1, end_orbit);
        let ghost m1 = start_members@;
        let ghost m2 = end_members@;
        let ghost base = ks;
        let mut a: usize = 0;
        while a < start_members.len()
            invariant
                m1 == start_members@,
                m2 == end_members@,
                os == orbits_view(&quotient.1),
                members_in_graph(original_graph, os),
                d0.len() + all_keys(os).len() <= MAX_LITERAL,
                forall|k: int, t: int| 0 <= k < os.len() && 0 <= t < os[k].1.len() ==> all_keys(os).contains((os[k].0, #[trigger] os[k].1[t])),
                exists|k: int| 0 <= k < os.len() && os[k].0 == start_orbit && #[trigger] os[k].1 == m1,
                exists|k: int| 0 <= k < os.len() && os[k].0 == end_orbit && #[trigger] os[k].1 == m2,
                dict.wf(),
                d0.len() <= dict@.len(),
                forall|i: int| d0.len() <= i < dict@.len() ==> all_keys(os).contains(#[trigger] dict@[i]),
                a <= m1.len(),
                ks == base + edge_keys(original_graph, start_orbit, m1.take(a as int), end_orbit, m2),
                dict@ == lookup_all(d0, ks),
            decreases m1.len() - a,
        {
            let v1 = start_members[a];
            let ghost mid = ks;
            proof {
                assert(m1.take(a + 1).drop_last() =~= m1.take(a as int));
                assert(m1.take(a + 1).last() == v1);
            }
            let mut b: usize = 0;
            while b < end_members.len()
                invariant
                    m1 == start_members@,
                    m2 == end_members@,
                    a < m1.len(),
                    v1 == m1[a as int],
                    os == orbits_view(&quotient.1),
                    members_in_graph(original_graph, os),
                    d0.len() + all_keys(os).len() <= MAX_LITERAL,
                    forall|k: int, t: int| 0 <= k < os.len() && 0 <= t < os[k].1.len() ==> all_keys(os).contains((os[k].0, #[trigger] os[k].1[t])),
                    exists|k: int| 0 <= k < os.len() && os[k].0 == start_orbit && #[trigger] os[k].1 == m1,
                    exists|k: int| 0 <= k < os.len() && os[k].0 == end_orbit && #[trigger] os[k].1 == m2,
                    dict.wf(),
                    d0.len() <= dict@.len(),
                    forall|i: int| d0.len() <= i < dict@.len() ==> all_keys(os).contains(#[trigger] dict@[i]),
                    b <= m2.len(),
                    ks == mid + row_keys(original_graph, start_orbit, v1, end_orbit, m2.take(b as int)),
                    dict@ == lookup_all(d0, ks),
                decreases m2.len() - b,
            {
                let v2 = end_members[b];
                let k1 = Ghost(choose|k: int| 0 <= k < os.len() && os[k].0 == start_orbit && #[trigger] os[k].1 == m1);
                let k2 = Ghost(choose|k: int| 0 <= k < os.len() && os[k].0 == end_orbit && #[trigger] os[k].1 == m2);
                proof {
                    assert(m2.take(b + 1).drop_last() =~= m2.take(b as int));
                    assert(m2.take(b + 1).last() == v2);
                    assert(os[k1@].1[a as int] == v1);
                    assert(os[k2@].1[b as int] == v2);
                    assert(all_keys(os).contains((start_orbit, v1)));
                    assert(all_keys(os).contains((end_orbit, v2)));
                }
                if !original_graph.lookup_edge(&v1, &v2) {
                    proof {
                        dict.lemma_valid();
                        lemma_room(d0, dict@, os, (start_orbit, v1));
                    }
                    let ghost before = dict@;
                    let _ = dict.lookup_pairing(start_orbit, v1);
                    proof {
                        dict.lemma_valid();
                        assert(ks.push((start_orbit, v1)).drop_last() =~= ks);
                        assert(lookup_all(d0, ks.push((start_orbit, v1))) == lookup_step(lookup_all(d0, ks), (start_orbit, v1)));
                        ks = ks.push((start_orbit, v1));
                        assert forall|i: int| d0.len() <= i < dict@.len() implies all_keys(os).contains(#[trigger] dict@[i]) by {
                            if i < before.len() {
                                assert(dict@[i] == before[i]);
                            }
                        }
                        lemma_room(d0, dict@, os, (end_orbit, v2));
                    }
                    let ghost before2 = dict@;
                    let _ = dict.lookup_pairing(end_orbit, v2);
                    proof {
                        assert(ks.push((end_orbit, v2)).drop_last() =~= ks);
                        assert(lookup_all(d0, ks.push((end_orbit, v2))) == lookup_step(lookup_all(d0, ks), (end_orbit, v2)));
                        ks = ks.push((end_orbit, v2));
                        assert forall|i: int| d0.len() <= i < dict@.len() implies all_keys(os).contains(#[trigger] dict@[i]) by {
                            if i < before2.len() {
                                assert(dict@[i] == before2[i]);
                            }
                        }
                        assert(ks =~= mid + row_keys(original_graph, start_orbit, v1, end_orbit, m2.take(b + 1)));
                    }
                } else {
                    proof {
                        assert(ks =~= mid + row_keys(original_graph, start_orbit, v1, end_orbit, m2.take(b + 1)));
                    }
                }
                b += 1;
            }
            proof {
                assert(m2.take(b as int) =~= m2);
                assert(ks =~= base + edge_keys(original_graph, start_orbit, m1.take(a + 1), end_orbit, m2));
            }
            a += 1;
        }
        proof {
            assert(m1.take(a as int) =~= m1);
            assert(m1 == members_of(os, start_orbit));
            assert(m2 == members_of(os, end_orbit));
            assert(es.take(j + 1).drop_last() =~= es.take(j as int));
            assert(es.take(j + 1).last() == (start_orbit, end_orbit));
            assert(ks =~= descriptive_keys(original_graph, es.take(j + 1), os));
        }
        j += 1;
    }
    assert(es.take(j as int) =~= es);
}

/// The descriptive-constraint clauses: for every quotient arc `(o1, o2)`
/// and members `v1` of `o1`, `v2` of `o2` without the arc `v1 -> v2` in
/// the original graph, the clause `-(o1,v1) | -(o2,v2)`. Literals are
/// allocated on first use, in clause order.
pub fn encode_descriptive(
    quotient: &QuotientGraphEncoding,
    dict: &mut SATEncodingDictionary,
    original_graph: &Graph,
) -> (r: Formula)
    requires
        old(dict).wf(),
        forall|j: int|
            0 <= j < edges_view(&quotient.0).len() ==> has_orbit(orbits_view(&quotient.1), (#[trigger] edges_view(&quotient.0)[j]).0)
                && has_orbit(orbits_view(&quotient.1), edges_view(&quotient.0)[j].1),
        members_in_graph(original_graph, orbits_view(&quotient.1)),
        old(dict)@.len() + all_keys(orbits_view(&quotient.1)).len() <= MAX_LITERAL,
    ensures
        final(dict).wf(),
        final(dict)@ == lookup_all(old(dict)@, descriptive_keys(original_graph, edges_view(&quotient.0), orbits_view(&quotient.1))),
        formula_view(&r) == descriptive_clauses(
            final(dict)@,
            original_graph,
            edges_view(&quotient.0),
            orbits_view(&quotient.1),
        ),
{
    register_descriptive_keys(quotient, dict, original_graph);
    proof {
        dict.lemma_valid();
        let keys = descriptive_keys(original_graph, edges_view(&quotient.0), orbits_view(&quotient.1));
        assert(old(dict)@.no_duplicates()) by {
            old(dict).lemma_valid();
        }
        lemma_lookup_all_grows(old(dict)@, keys);
    }
    descriptive_constraints(quotient, dict, original_graph)
}

/// Relies on itertools' `combinations(2)`: every two elements in
/// lexicographic order of their positions.
#[verifier::external_body]
fn literal_pairs(lits: &Vec<Literal>) -> (r: Vec<(Literal, Literal)>)
    ensures
        r@ == pairs_spec(lits@),
{
    lits.iter().copied().combinations(2).map(|pair| (pair[0], pair[1])).collect()
}

/// The quotient arcs of a graph, in the graph's order.
pub fn encode_edges(graph: &Graph) -> (r: Vec<EdgeEncoding>)
    ensures
        edges_view(&r) == arcs_spec(graph.vertices@),
{
    let arcs = graph.iterate_edges();
    let mut edges: Vec<EdgeEncoding> = Vec::new();
    let mut k: usize = 0;
    while k < arcs.len()
        invariant
            k <= arcs@.len(),
            edges@.len() == k,
            edges_view(&edges) == arcs@.take(k as int),
        decreases arcs@.len() - k,
    {
        let (start, end) = arcs[k];
        let ghost before = edges@;
        edges.push(EdgeEncoding(start, end));
        proof {
            assert(edges@ == before.push(EdgeEncoding(start, end)));
            assert forall|i: int| 0 <= i < k + 1 implies #[trigger] edges_view(&edges)[i] == arcs@.take(k + 1)[i] by {
                if i < k {
                    assert(edges@[i] == before[i]);
                    assert(before.map_values(|e: EdgeEncoding| (e.0, e.1))[i] == arcs@.take(k as int)[i]);
                }
            }
            assert(edges_view(&edges) =~= arcs@.take(k + 1));
        }
        k += 1;
    }
    assert(arcs@.take(k as int) =~= arcs@);
    edges
}

/// Lists the orbits of a labelling: ids ascending, members ascending;
/// negative labels belong to no orbit.
pub fn encode_orbits(orbits: &Orbits) -> (r: Vec<OrbitEncoding>)
    requires
        orbits@.len() <= 2147483648,
        forall|x: int| 0 <= x < orbits@.len() ==> #[trigger] orbits@[x] < orbits@.len(),
    ensures
        orbit_listing(orbits@, orbits_view(&r)),
{
    let n = orbits.len();
    let ghost o = orbits@;
    let mut buckets: Vec<Vec<VertexIndex>> = Vec::new();
    let mut c: usize = 0;
    while c < n
        invariant
            c <= n,
            buckets@.len() == c,
            forall|b: int| 0 <= b < c ==> (#[trigger] buckets@[b])@.len() == 0,
        decreases n - c,
    {
        buckets.push(Vec::new());
        c += 1;
    }
    let mut x: usize = 0;
    while x < n
        invariant
            n == o.len() <= 2147483648,
            o == orbits@,
            forall|y: int| 0 <= y < n ==> #[trigger] o[y] < n,
            x <= n,
            buckets@.len() == n,
            forall|b: int| 0 <= b < n ==> strictly_sorted((#[trigger] buckets@[b])@),
            forall|b: int, v: VertexIndex|
                0 <= b < n ==> ((#[trigger] buckets@[b]@.contains(v)) <==> 0 <= v < x && o[v as int] == b),
            forall|b: int, i: int|
                0 <= b < n && 0 <= i < buckets@[b]@.len() ==> #[trigger] buckets@[b]@[i] < x,
        decreases n - x,
    {
        let label = orbits[x];
        if label >= 0 {
            let b = label as usize;
            let ghost before = buckets@;
            let mut bucket: Vec<VertexIndex> = Vec::new();
            buckets.set_and_swap(b, &mut bucket);
            bucket.push(x as VertexIndex);
            buckets.set(b, bucket);
            proof {
                let old_b = before[b as int]@;
                assert(buckets@[b as int]@ == old_b.push(x as VertexIndex));
                assert forall|bb: int| 0 <= bb < n implies strictly_sorted((#[trigger] buckets@[bb])@) by {
                    if bb == b {
                        assert forall|i: int, j: int| 0 <= i < j < buckets@[bb]@.len() implies #[trigger] buckets@[bb]@[i] < #[trigger] buckets@[bb]@[j] by {
                            if j == old_b.len() {
                                assert(old_b[i] < x);
                            } else {
                                assert(old_b[i] < old_b[j]);
                            }
                        }
                    } else {
                        assert(buckets@[bb] == before[bb]);
                    }
                }
                assert forall|bb: int, v: VertexIndex| 0 <= bb < n implies ((#[trigger] buckets@[bb]@.contains(v)) <==> 0 <= v < x + 1 && o[v as int] == bb) by {
                    assert(before[bb]@.contains(v) <==> 0 <= v < x && o[v as int] == bb);
                    if bb == b {
                        crate::quotient::lemma_contains_push(old_b, x as VertexIndex, v);
                    } else {
                        assert(buckets@[bb] == before[bb]);
                        if v == x as VertexIndex {
                            assert(o[x as int] == b);
                        }
                    }
                }
                assert forall|bb: int, i: int| 0 <= bb < n && 0 <= i < buckets@[bb]@.len() implies #[trigger] buckets@[bb]@[i] < x + 1 by {
                    if bb == b && i == buckets@[bb]@.len() - 1 {
                    } else if bb == b {
                        assert(buckets@[bb]@[i] == before[bb]@[i]);
                    } else {
                        assert(buckets@[bb] == before[bb]);
                    }
                }
            }
        } else {
            proof {
                assert forall|bb: int, v: VertexIndex| 0 <= bb < n implies ((#[trigger] buckets@[bb]@.contains(v)) <==> 0 <= v < x + 1 && o[v as int] == bb) by {
                    if v == x as VertexIndex {
                        assert(o[x as int] < 0);
                    }
                }
            }
        }
        x += 1;
    }
    let mut listing: Vec<OrbitEncoding> = Vec::new();
    let mut b: usize = 0;
    while b < n
        invariant
            n == o.len() <= 2147483648,
            o == orbits@,
            b <= n,
            buckets@.len() == n,
            forall|bb: int| 0 <= bb < n ==> strictly_sorted((#[trigger] buckets@[bb])@),
            forall|bb: int, v: VertexIndex|
                0 <= bb < n ==> ((#[trigger] buckets@[bb]@.contains(v)) <==> 0 <= v < n && o[v as int] == bb),
            forall|k: int|
                0 <= k < listing@.len() ==> {
                    let (id, ms) = #[trigger] orbits_view(&listing)[k];
                    &&& 0 <= id < b
                    &&& ms.len() > 0
                    &&& strictly_sorted(ms)
                    &&& forall|v: VertexIndex| ms.contains(v) <==> 0 <= v < o.len() && o[v as int] == id
                },
            forall|k1: int, k2: int|
                0 <= k1 < k2 < listing@.len() ==> (#[trigger] orbits_view(&listing)[k1]).0 < (
                #[trigger] orbits_view(&listing)[k2]).0,
            forall|y: int|
                0 <= y < n && 0 <= #[trigger] o[y] < b ==> exists|k: int|
                    0 <= k < listing@.len() && (#[trigger] orbits_view(&listing)[k]).0 == o[y],
        decreases n - b,
    {
        let ghost before = orbits_view(&listing);
        if buckets[b].len() > 0 {
            let members = buckets[b].clone();
            listing.push((b as VertexIndex, members));
            proof {
                let after = orbits_view(&listing);
                assert(after.len() == before.len() + 1);
                assert forall|k: int| 0 <= k < before.len() implies #[trigger] after[k] == before[k] by {}
                assert(after[before.len() as int] == (b as VertexIndex, buckets@[b as int]@));
                assert forall|y: int| 0 <= y < n && 0 <= #[trigger] o[y] < b + 1 implies exists|k: int|
                    0 <= k < after.len() && (#[trigger] after[k]).0 == o[y] by {
                    if o[y] < b {
                        let k = choose|k: int| 0 <= k < before.len() && (#[trigger] before[k]).0 == o[y];
                        assert(after[k] == before[k]);
                    } else {
                        assert(after[before.len() as int].0 == o[y]);
                    }
                }
            }
        } else {
            proof {
                assert forall|y: int| 0 <= y < n && 0 <= #[trigger] o[y] < b + 1 implies exists|k: int|
                    0 <= k < before.len() && (#[trigger] before[k]).0 == o[y] by {
                    if o[y] == b {
                        assert(buckets@[b as int]@.contains(y as VertexIndex));
                    }
                }
            }
        }
        b += 1;
    }
    listing
}

} // verus!
