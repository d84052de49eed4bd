//! Transversals decoded from satisfying assignments, their independent
//! check against the original graph, and the orbits of an unsatisfiable core.
use crate::dictionary::{lit, Literal, SATEncodingDictionary};
use crate::encoding::{edges_view, Clause, QuotientGraphEncoding};
use crate::graph::{adjacent, dedup_sorted, sorted_copy, strictly_sorted, Graph};
use crate::VertexIndex;
use vstd::prelude::*;

verus! {

/// Whether the assignment makes variable `l` true; variables that it does
/// not cover are false.
pub open spec fn is_true(assignment: Seq<bool>, l: int) -> bool {
    0 <= l < assignment.len() && assignment[l]
}

/// The pairs whose literals the assignment makes true, in literal order;
/// position 0 of the pair list is never a literal.
pub open spec fn decode_spec(pairs: Seq<(VertexIndex, VertexIndex)>, assignment: Seq<bool>) -> Seq<(VertexIndex, VertexIndex)>
    decreases pairs.len(),
{
    if pairs.len() <= 1 {
        seq![]
    } else {
        let rest = decode_spec(pairs.drop_last(), assignment);
        if is_true(assignment, pairs.len() - 1) {
            rest.push(pairs.last())
        } else {
            rest
        }
    }
}

/// The two lists hold the same entries.
pub open spec fn same_entries(t: Seq<(VertexIndex, VertexIndex)>, u: Seq<(VertexIndex, VertexIndex)>) -> bool {
    forall|x: (VertexIndex, VertexIndex)| t.contains(x) <==> u.contains(x)
}

/// `(orbit, vertex)` pairs in lexicographic order.
pub open spec fn pair_le(a: (VertexIndex, VertexIndex), b: (VertexIndex, VertexIndex)) -> bool {
    a.0 < b.0 || (a.0 == b.0 && a.1 <= b.1)
}

/// Relies on `slice::sort_unstable` for tuples, whose order is
/// lexicographic: the same pairs in ascending order.
#[verifier::external_body]
fn sorted_transversal(v: Vec<(VertexIndex, VertexIndex)>) -> (r: Vec<(VertexIndex, VertexIndex)>)
    ensures
        r@.to_multiset() == v@.to_multiset(),
        forall|i: int, j: int| 0 <= i <= j < r@.len() ==> pair_le(#[trigger] r@[i], #[trigger] r@[j]),
{
    let mut r = v;
    r.sort_unstable();
    r
}

/// The vertex that the transversal picks for `orbit`: the first entry of
/// that orbit.
pub open spec fn picked(transversal: Seq<(VertexIndex, VertexIndex)>, orbit: VertexIndex) -> VertexIndex
    decreases transversal.len(),
{
    if transversal.len() == 0 {
        -1i32
    } else if transversal[0].0 == orbit {
        transversal[0].1
    } else {
        picked(transversal.drop_first(), orbit)
    }
}

/// The transversal names `orbit`.
pub open spec fn names_orbit(transversal: Seq<(VertexIndex, VertexIndex)>, orbit: VertexIndex) -> bool {
    exists|i: int| 0 <= i < transversal.len() && (#[trigger] transversal[i]).0 == orbit
}

/// Every quotient arc joins picked vertices that are adjacent in `g`.
pub open spec fn consistent(
    transversal: Seq<(VertexIndex, VertexIndex)>,
    g: &Graph,
    edges: Seq<(VertexIndex, VertexIndex)>,
) -> bool {
    forall|j: int|
        0 <= j < edges.len() ==> adjacent(
            g,
            picked(transversal, (#[trigger] edges[j]).0) as int,
            picked(transversal, edges[j].1),
        )
}

/// Decodes a satisfying assignment: the (orbit, vertex) pairs whose
/// literals are true, sorted by orbit id. `assignment[l]` is the value of
/// variable `l`.
pub fn get_transversal(assignment: &Vec<bool>, dict: SATEncodingDictionary) -> (r: Vec<(VertexIndex, VertexIndex)>)
    ensures
        r@.to_multiset() == decode_spec(dict@, assignment@).to_multiset(),
        same_entries(r@, decode_spec(dict@, assignment@)),
        forall|i: int, j: int| 0 <= i <= j < r@.len() ==> (#[trigger] r@[i]).0 <= (#[trigger] r@[j]).0,
{
    let ghost pairs = dict@;
    let raw_dict = dict.destroy();
    let mut picked: Vec<(VertexIndex, VertexIndex)> = Vec::new();
    if raw_dict.len() <= 1 {
        assert(picked@ =~= decode_spec(pairs, assignment@));
        return picked;
    }
    let mut l: usize = 1;
    proof {
        assert(decode_spec(raw_dict@.take(1), assignment@) == Seq::<(VertexIndex, VertexIndex)>::empty());
    }
    while l < raw_dict.len()
        invariant
            raw_dict@ == pairs,
            1 <= l <= raw_dict@.len(),
            picked@ == decode_spec(raw_dict@.take(l as int), assignment@),
        decreases raw_dict@.len() - l,
    {
        proof {
            assert(raw_dict@.take(l + 1).drop_last() =~= raw_dict@.take(l as int));
        }
        if l < assignment.len() && assignment[l] {
            picked.push(raw_dict[l]);
        }
        l += 1;
    }
    assert(raw_dict@.take(l as int) =~= raw_dict@);
    let sorted = sorted_transversal(picked);
    proof {
        sorted@.to_multiset_ensures();
        picked@.to_multiset_ensures();
        assert forall|x: (VertexIndex, VertexIndex)| sorted@.contains(x) <==> picked@.contains(x) by {
            assert(sorted@.contains(x) <==> sorted@.to_multiset().count(x) > 0);
            assert(picked@.contains(x) <==> picked@.to_multiset().count(x) > 0);
        }
        assert forall|i: int, j: int| 0 <= i <= j < sorted@.len() implies (#[trigger] sorted@[i]).0 <= (#[trigger] sorted@[j]).0 by {
            assert(pair_le(sorted@[i], sorted@[j]));
        }
    }
    sorted
}

/// The vertex of the first entry of `orbit`.
fn pick(transversal: &Vec<(VertexIndex, VertexIndex)>, orbit: VertexIndex) -> (r: VertexIndex)
    requires
        names_orbit(transversal@, orbit),
    ensures
        r == picked(transversal@, orbit),
        exists|i: int| 0 <= i < transversal@.len() && #[trigger] transversal@[i] == (orbit, r),
{
    let ghost t = transversal@;
    assert(t.subrange(0, t.len() as int) =~= t);
    let mut k: usize = 0;
    while k < transversal.len()
        invariant
            t == transversal@,
            names_orbit(t, orbit),
            k <= t.len(),
            picked(t, orbit) == picked(t.subrange(k as int, t.len() as int), orbit),
            forall|j: int| 0 <= j < k ==> (#[trigger] t[j]).0 != orbit,
        decreases t.len() - k,
    {
        let ghost rest = t.subrange(k as int, t.len() as int);
        assert(rest[0] == t[k as int]);
        if transversal[k].0 == orbit {
            return transversal[k].1;
        }
        assert(rest.drop_first() =~= t.subrange(k + 1, t.len() as int));
        k += 1;
    }
    proof {
        let j = choose|j: int| 0 <= j < t.len() && (#[trigger] t[j]).0 == orbit;
        assert(t[j].0 != orbit);
    }
    -1
}

/// Checks a transversal against the original graph: every quotient arc
/// must join picked vertices that are adjacent there.
pub fn is_transversal_consistent(
    transversal: &Vec<(VertexIndex, VertexIndex)>,
    graph: &Graph,
    quotient: &QuotientGraphEncoding,
) -> (r: bool)
    requires
        forall|j: int|
            0 <= j < edges_view(&quotient.0).len() ==> names_orbit(transversal@, (#[trigger] edges_view(&quotient.0)[j]).0)
                && names_orbit(transversal@, edges_view(&quotient.0)[j].1),
        forall|i: int|
            0 <= i < transversal@.len() ==> 0 <= (#[trigger] transversal@[i]).1 < graph.vertices@.len(),
    ensures
        r == consistent(transversal@, graph, edges_view(&quotient.0)),
{
    let ghost es = edges_view(&quotient.0);
    let mut j: usize = 0;
    while j < quotient.0.len()
        invariant
            es == edges_view(&quotient.0),
            forall|t: int|
                0 <= t < es.len() ==> names_orbit(transversal@, (#[trigger] es[t]).0) && names_orbit(transversal@, es[t].1),
            forall|i: int|
                0 <= i < transversal@.len() ==> 0 <= (#[trigger] transversal@[i]).1 < graph.vertices@.len(),
            j <= es.len(),
            forall|t: int|
                0 <= t < j ==> adjacent(graph, picked(transversal@, (#[trigger] es[t]).0) as int, picked(transversal@, es[t].1)),
        decreases es.len() - j,
    {
        let (start_orbit, end_orbit) = quotient.0[j].get_edge();
        assert(es[j as int] == (start_orbit, end_orbit));
        let start = pick(transversal, start_orbit);
        let end = pick(transversal, end_orbit);
        if !graph.lookup_edge(&start, &end) {
            return false;
        }
        j += 1;
    }
    true
}

/// The orbit of each variable of a clause.
pub open spec fn clause_orbits(pairs: Seq<(VertexIndex, VertexIndex)>, core: Seq<Seq<Literal>>, c: VertexIndex) -> bool {
    exists|k: int, i: int|
        0 <= k < core.len() && 0 <= i < core[k].len() && pairs[abs_spec(#[trigger] core[k][i])].0 == c
}

/// Some literal among the first `i` of the clause has a pair of orbit `c`.
pub open spec fn in_clause_upto(pairs: Seq<(VertexIndex, VertexIndex)>, clause: Seq<Literal>, i: int, c: VertexIndex) -> bool {
    exists|t: int| 0 <= t < i && pairs[abs_spec(#[trigger] clause[t])].0 == c
}

/// The orbit of each literal's pair.
pub open spec fn orbits_of(pairs: Seq<(VertexIndex, VertexIndex)>, lits: Seq<Literal>) -> Seq<VertexIndex> {
    lits.map_values(|l: Literal| pairs[abs_spec(l)].0)
}

/// The clauses as sequences.
pub open spec fn clause_seqs(f: Seq<Clause>) -> Seq<Seq<Literal>> {
    f.map_values(|cl: Clause| cl@)
}

/// The clauses at the given 1-based positions.
pub open spec fn selected(indices: Seq<usize>, f: Seq<Clause>) -> Seq<Seq<Literal>> {
    indices.map_values(|j: usize| f[j - 1]@)
}

/// The absolute value.
pub open spec fn abs_spec(l: Literal) -> int {
    if l < 0 {
        -l
    } else {
        l as int
    }
}

/// The orbits whose pairs the clauses of an unsatisfiable core mention,
/// ascending and without repeats.
pub fn get_core_orbits(core_formula: &Vec<Clause>, dict: SATEncodingDictionary) -> (r: Vec<VertexIndex>)
    requires
        dict.wf(),
        forall|k: int, i: int|
            0 <= k < core_formula@.len() && 0 <= i < core_formula@[k]@.len() ==> 1 <= abs_spec(
                #[trigger] core_formula@[k]@[i],
            ) < dict@.len(),
    ensures
        strictly_sorted(r@),
        forall|c: VertexIndex|
            r@.contains(c) <==> clause_orbits(dict@, clause_seqs(core_formula@), c),
{
    let ghost core = clause_seqs(core_formula@);
    proof {
        dict.lemma_valid();
    }
    let raw_dict = dict.destroy();
    let mut core_orbits: Vec<VertexIndex> = Vec::new();
    let mut k: usize = 0;
    while k < core_formula.len()
        invariant
            core == clause_seqs(core_formula@),
            forall|a: int, i: int|
                0 <= a < core_formula@.len() && 0 <= i < core_formula@[a]@.len() ==> 1 <= abs_spec(
                    #[trigger] core_formula@[a]@[i],
                ) < raw_dict@.len(),
            raw_dict@.len() <= crate::dictionary::MAX_LITERAL,
            k <= core_formula@.len(),
            forall|c: VertexIndex|
                core_orbits@.contains(c) <==> clause_orbits(raw_dict@, core.take(k as int), c),
        decreases core_formula@.len() - k,
    {
        let clause = &core_formula[k];
        assert(core[k as int] == clause@);
        let ghost before = core_orbits@;
        let mut i: usize = 0;
        while i < clause.len()
            invariant
                core == clause_seqs(core_formula@),
                core[k as int] == clause@,
                k < core_formula@.len(),
                forall|a: int, t: int|
                    0 <= a < core_formula@.len() && 0 <= t < core_formula@[a]@.len() ==> 1 <= abs_spec(
                        #[trigger] core_formula@[a]@[t],
                    ) < raw_dict@.len(),
                raw_dict@.len() <= crate::dictionary::MAX_LITERAL,
                i <= clause@.len(),
                core_orbits@ == before + orbits_of(raw_dict@, clause@.take(i as int)),
            decreases clause@.len() - i,
        {
            let literal = clause[i];
            assert(core_formula@[k as int]@[i as int] == literal);
            let variable: usize = if literal < 0 {
                (-literal) as usize
            } else {
                literal as usize
            };
            assert(variable as int == abs_spec(literal));
            let orbit = raw_dict[variable].0;
            core_orbits.push(orbit);
            assert(orbits_of(raw_dict@, clause@.take(i + 1)) =~= orbits_of(raw_dict@, clause@.take(i as int)).push(orbit));
            assert(core_orbits@ =~= before + orbits_of(raw_dict@, clause@.take(i + 1)));
            i += 1;
        }
        proof {
            assert(clause@.take(i as int) =~= clause@);
            assert forall|c: VertexIndex| core_orbits@.contains(c) <==> (before.contains(c) || in_clause_upto(raw_dict@, clause@, clause@.len() as int, c)) by {
                let tail = orbits_of(raw_dict@, clause@);
                if core_orbits@.contains(c) {
                    let p = choose|p: int| 0 <= p < core_orbits@.len() && core_orbits@[p] == c;
                    if p < before.len() {
                        assert(before[p] == c);
                    } else {
                        assert(tail[p - before.len()] == c);
                        assert(raw_dict@[abs_spec(clause@[p - before.len()])].0 == c);
                    }
                }
                if before.contains(c) {
                    let p = choose|p: int| 0 <= p < before.len() && before[p] == c;
                    assert(core_orbits@[p] == c);
                }
                if in_clause_upto(raw_dict@, clause@, clause@.len() as int, c) {
                    let t = choose|t: int| 0 <= t < clause@.len() && raw_dict@[abs_spec(#[trigger] clause@[t])].0 == c;
                    assert(core_orbits@[before.len() + t] == c);
                }
            }
        }
        proof {
            assert forall|c: VertexIndex| core_orbits@.contains(c) <==> clause_orbits(raw_dict@, core.take(k + 1), c) by {
                let ck = core.take(k + 1);
                if clause_orbits(raw_dict@, ck, c) {
                    let (a, t) = choose|a: int, t: int|
                        0 <= a < ck.len() && 0 <= t < ck[a].len() && raw_dict@[abs_spec(#[trigger] ck[a][t])].0 == c;
                    if a < k {
                        assert(core.take(k as int)[a] == ck[a]);
                        assert(clause_orbits(raw_dict@, core.take(k as int), c));
                    } else {
                        assert(ck[a] == clause@);
                        assert(raw_dict@[abs_spec(clause@[t])].0 == c);
                    }
                }
                if before.contains(c) {
                    let (a, t) = choose|a: int, t: int|
                        0 <= a < core.take(k as int).len() && 0 <= t < core.take(k as int)[a].len() && raw_dict@[abs_spec(#[trigger] core.take(k as int)[a][t])].0 == c;
                    assert(ck[a] == core.take(k as int)[a]);
                    assert(raw_dict@[abs_spec(ck[a][t])].0 == c);
                }
                if in_clause_upto(raw_dict@, clause@, clause@.len() as int, c) {
                    let t = choose|t: int| 0 <= t < clause@.len() && raw_dict@[abs_spec(#[trigger] clause@[t])].0 == c;
                    assert(ck[k as int] == clause@);
                    assert(raw_dict@[abs_spec(ck[k as int][t])].0 == c);
                }
            }
        }
        k += 1;
    }
    assert(core.take(k as int) =~= core);
    let sorted = sorted_copy(&core_orbits);
    let unique = dedup_sorted(&sorted);
    proof {
        sorted@.to_multiset_ensures();
        core_orbits@.to_multiset_ensures();
        assert forall|c: VertexIndex| unique@.contains(c) <==> core_orbits@.contains(c) by {
            assert(sorted@.contains(c) <==> sorted@.to_multiset().count(c) > 0);
            assert(core_orbits@.contains(c) <==> core_orbits@.to_multiset().count(c) > 0);
        }
    }
    unique
}

/// The orbits of the clauses at the given 1-based positions of `formula`.
pub fn get_core_orbits_indexed(
    clause_indices: &Vec<usize>,
    formula: &Vec<Clause>,
    dict: SATEncodingDictionary,
) -> (r: Vec<VertexIndex>)
    requires
        dict.wf(),
        forall|j: int| 0 <= j < clause_indices@.len() ==> 1 <= #[trigger] clause_indices@[j] <= formula@.len(),
        forall|k: int, i: int|
            0 <= k < formula@.len() && 0 <= i < formula@[k]@.len() ==> 1 <= abs_spec(#[trigger] formula@[k]@[i]) < dict@.len(),
    ensures
        strictly_sorted(r@),
        forall|c: VertexIndex|
            r@.contains(c) <==> clause_orbits(
                dict@,
                selected(clause_indices@, formula@),
                c,
            ),
{
    let mut core_formula: Vec<Clause> = Vec::new();
    let mut j: usize = 0;
    while j < clause_indices.len()
        invariant
            forall|t: int| 0 <= t < clause_indices@.len() ==> 1 <= #[trigger] clause_indices@[t] <= formula@.len(),
            j <= clause_indices@.len(),
            core_formula@.len() == j,
            clause_seqs(core_formula@) == selected(clause_indices@.take(j as int), formula@),
        decreases clause_indices@.len() - j,
    {
        let index = clause_indices[j];
        let clause = formula[index - 1].clone();
        let ghost before = core_formula@;
        core_formula.push(clause);
        proof {
            assert(core_formula@ == before.push(clause));
            assert(clause_seqs(core_formula@) =~= selected(clause_indices@.take(j + 1), formula@)) by {
                assert forall|t: int| 0 <= t < j + 1 implies #[trigger] clause_seqs(core_formula@)[t] == selected(clause_indices@.take(j + 1), formula@)[t] by {
                    if t < j {
                        assert(core_formula@[t] == before[t]);
                        assert(clause_seqs(before)[t] == selected(clause_indices@.take(j as int), formula@)[t]);
                    }
                }
            }
        }
        j += 1;
    }
    proof {
        assert(clause_indices@.take(j as int) =~= clause_indices@);
        assert forall|k: int, i: int|
            0 <= k < core_formula@.len() && 0 <= i < core_formula@[k]@.len() implies 1 <= abs_spec(#[trigger] core_formula@[k]@[i]) < dict@.len() by {
            assert(clause_seqs(core_formula@)[k] == formula@[clause_indices@[k] - 1]@);
        }
    }
    get_core_orbits(&core_formula, dict)
}

} // verus!
