//! Repair steps for non-descriptive quotients: merging or powering the
//! generators that a non-descriptive core implicates.
use crate::encoding::{orbits_view, OrbitEncoding};
use crate::graph::contains_index;
use crate::orbits::raws;
use crate::permutation::{compose_spec, is_identity_spec, maps_into, power_spec, Permutation};
use crate::VertexIndex;
use vstd::prelude::*;

verus! {

/// `p` maps the id vertex of some core orbit to another member of it.
pub open spec fn implicated(p: Seq<usize>, core: Seq<(VertexIndex, Seq<VertexIndex>)>) -> bool {
    exists|k: int|
        0 <= k < core.len() && 0 <= (#[trigger] core[k]).0 < p.len() && p[core[k].0 as int]
            != core[k].0 && core[k].1.contains(p[core[k].0 as int] as VertexIndex)
}

/// The generators that are (`keep`) or are not (`!keep`) implicated, in order.
pub open spec fn select(gens: Seq<Seq<usize>>, core: Seq<(VertexIndex, Seq<VertexIndex>)>, keep: bool) -> Seq<Seq<usize>>
    decreases gens.len(),
{
    if gens.len() == 0 {
        seq![]
    } else {
        let rest = select(gens.drop_last(), core, keep);
        if implicated(gens.last(), core) == keep {
            rest.push(gens.last())
        } else {
            rest
        }
    }
}

/// The generators that are (`keep`) or are not (`!keep`) implicated, as
/// given and in order.
pub open spec fn select_perms(gens: Seq<Permutation>, core: Seq<(VertexIndex, Seq<VertexIndex>)>, keep: bool) -> Seq<Permutation>
    decreases gens.len(),
{
    if gens.len() == 0 {
        seq![]
    } else {
        let rest = select_perms(gens.drop_last(), core, keep);
        if implicated(gens.last().raw@, core) == keep {
            rest.push(gens.last())
        } else {
            rest
        }
    }
}

proof fn lemma_select_perms_raws(gens: Seq<Permutation>, core: Seq<(VertexIndex, Seq<VertexIndex>)>, keep: bool)
    ensures
        raws(select_perms(gens, core, keep)) == select(raws(gens), core, keep),
    decreases gens.len(),
{
    if gens.len() > 0 {
        lemma_select_perms_raws(gens.drop_last(), core, keep);
        assert(raws(gens).drop_last() =~= raws(gens.drop_last()));
        assert(raws(gens).last() == gens.last().raw@);
        let r = select_perms(gens.drop_last(), core, keep);
        assert(raws(r.push(gens.last())) =~= raws(r).push(gens.last().raw@));
    }
}

/// The generators composed in order: the first applied first.
pub open spec fn merged_spec(gens: Seq<Seq<usize>>) -> Seq<usize>
    decreases gens.len(),
{
    if gens.len() <= 1 {
        if gens.len() == 1 {
            gens[0]
        } else {
            seq![]
        }
    } else {
        compose_spec(gens.last(), merged_spec(gens.drop_last()))
    }
}

/// Permutations of one size `n` that fit in an orbit id.
pub open spec fn same_size(gens: Seq<Seq<usize>>, n: nat) -> bool {
    &&& n <= 2147483648
    &&& forall|k: int| 0 <= k < gens.len() ==> (#[trigger] gens[k]).len() == n && maps_into(gens[k])
}

/// Whether the generator maps the id vertex of some core orbit to another
/// member of that orbit.
pub fn is_implicated(generator: &Permutation, core: &Vec<OrbitEncoding>) -> (r: bool)
    requires
        maps_into(generator.raw@),
        generator.raw@.len() <= 2147483648,
    ensures
        r == implicated(generator.raw@, orbits_view(core)),
{
    let ghost cs = orbits_view(core);
    let mut k: usize = 0;
    while k < core.len()
        invariant
            cs == orbits_view(core),
            maps_into(generator.raw@),
            generator.raw@.len() <= 2147483648,
            k <= cs.len(),
            forall|j: int|
                0 <= j < k ==> !(0 <= (#[trigger] cs[j]).0 < generator.raw@.len()
                    && generator.raw@[cs[j].0 as int] != cs[j].0 && cs[j].1.contains(
                    generator.raw@[cs[j].0 as int] as VertexIndex,
                )),
        decreases cs.len() - k,
    {
        let start = core[k].0;
        assert(cs[k as int].0 == start);
        assert(cs[k as int].1 == core@[k as int].1@);
        if start >= 0 {
            match generator._evaluate(&(start as usize)) {
                Some(image) => {
                    if image != start as usize && contains_index(&core[k].1, image as VertexIndex) {
                        return true;
                    }
                },
                None => {},
            }
        }
        k += 1;
    }
    false
}

proof fn lemma_select_step(gens: Seq<Seq<usize>>, core: Seq<(VertexIndex, Seq<VertexIndex>)>, k: int, keep: bool)
    requires
        0 <= k < gens.len(),
    ensures
        select(gens.take(k + 1), core, keep) == if implicated(gens[k], core) == keep {
            select(gens.take(k), core, keep).push(gens[k])
        } else {
            select(gens.take(k), core, keep)
        },
{
    assert(gens.take(k + 1).drop_last() =~= gens.take(k));
}

proof fn lemma_select_same_size(gens: Seq<Seq<usize>>, core: Seq<(VertexIndex, Seq<VertexIndex>)>, keep: bool, n: nat)
    requires
        same_size(gens, n),
    ensures
        same_size(select(gens, core, keep), n),
    decreases gens.len(),
{
    if gens.len() > 0 {
        let prev = gens.drop_last();
        assert(same_size(prev, n)) by {
            assert forall|k: int| 0 <= k < prev.len() implies (#[trigger] prev[k]).len() == n && maps_into(prev[k]) by {
                assert(prev[k] == gens[k]);
            }
        }
        lemma_select_same_size(prev, core, keep, n);
        assert(gens[gens.len() - 1] == gens.last());
    }
}

/// Merge-generators repair: two or more generators implicated by the core
/// are composed in order into one new permutation (its cycles not yet
/// computed), which comes first; a lone implicated generator comes first
/// as it is given; the others follow as given, in order.
pub fn merge_generators(generators: Vec<Permutation>, core: &Vec<OrbitEncoding>) -> (r: Vec<Permutation>)
    requires
        generators@.len() > 0 ==> same_size(raws(generators@), generators@[0].raw@.len()),
    ensures
        ({
            let implicated_ones = select_perms(generators@, orbits_view(core), true);
            let others = select_perms(generators@, orbits_view(core), false);
            &&& implicated_ones.len() == 0 ==> r@ == others
            &&& implicated_ones.len() == 1 ==> r@ == seq![implicated_ones[0]] + others
            &&& implicated_ones.len() >= 2 ==> {
                &&& r@.len() == others.len() + 1
                &&& r@[0].raw@ == merged_spec(raws(implicated_ones))
                &&& r@[0].cycles.is_none()
                &&& r@.subrange(1, r@.len() as int) == others
            }
        }),
{
    let ghost gens = raws(generators@);
    let ghost cs = orbits_view(core);
    let ghost n: nat = if generators@.len() > 0 { generators@[0].raw@.len() } else { 0 };
    let mut involved: Vec<Permutation> = Vec::new();
    let mut not_involved: Vec<Permutation> = Vec::new();
    let mut generators = generators;
    let ghost given = generators@;
    let mut k: usize = 0;
    let length = generators.len();
    while k < length
        invariant
            length == given.len(),
            generators@.len() == length,
            gens == raws(given),
            given.len() > 0 ==> same_size(gens, n),
            given.len() > 0 ==> n == given[0].raw@.len(),
            forall|j: int| k <= j < length ==> #[trigger] generators@[j] == given[j],
            k <= length,
            raws(involved@) == select(gens.take(k as int), cs, true),
            raws(not_involved@) == select(gens.take(k as int), cs, false),
            involved@ == select_perms(given.take(k as int), cs, true),
            not_involved@ == select_perms(given.take(k as int), cs, false),
            cs == orbits_view(core),
        decreases length - k,
    {
        let mut generator = Permutation { raw: Vec::new(), cycles: None };
        generators.set_and_swap(k, &mut generator);
        proof {
            assert(generator == given[k as int]);
            assert(gens[k as int] == generator.raw@);
            lemma_select_step(gens, cs, k as int, true);
            lemma_select_step(gens, cs, k as int, false);
            assert(given.take(k + 1).drop_last() =~= given.take(k as int));
            assert(given.take(k + 1).last() == generator);
        }
        let hit = is_implicated(&generator, core);
        if hit {
            let ghost before = involved@;
            involved.push(generator);
            assert(raws(involved@) =~= raws(before).push(gens[k as int]));
        } else {
            let ghost before = not_involved@;
            not_involved.push(generator);
            assert(raws(not_involved@) =~= raws(before).push(gens[k as int]));
        }
        k += 1;
    }
    proof {
        assert(gens.take(k as int) =~= gens);
        assert(given.take(k as int) =~= given);
        if given.len() > 0 {
            lemma_select_same_size(gens, cs, true, n);
        }
    }
    let ghost sel = select(gens, cs, true);
    let mut next_generators: Vec<Permutation> = Vec::new();
    if involved.len() == 1 {
        let lone = involved.pop();
        match lone {
            Some(g) => next_generators.push(g),
            None => {},
        }
    } else if involved.len() >= 2 {
        let mut merged = Permutation { raw: involved[0].raw.clone(), cycles: None };
        proof {
            assert(raws(involved@)[0] == involved@[0].raw@);
            assert(sel.take(1) =~= seq![sel[0]]);
        }
        let mut j: usize = 1;
        while j < involved.len()
            invariant
                1 <= j <= involved@.len(),
                raws(involved@) == sel,
                same_size(sel, n),
                merged.raw@ == merged_spec(sel.take(j as int)),
                merged.raw@.len() == n,
                maps_into(merged.raw@),
                merged.cycles.is_none(),
            decreases involved@.len() - j,
        {
            let next = &involved[j];
            proof {
                assert(raws(involved@)[j as int] == next.raw@);
                assert(sel.take(j + 1).drop_last() =~= sel.take(j as int));
                assert(sel.take(j + 1).last() == sel[j as int]);
                assert(sel[j as int].len() == n && maps_into(sel[j as int]));
                crate::permutation::lemma_compose_maps_into(next.raw@, merged.raw@);
            }
            match Permutation::merge(&merged, next) {
                Ok(m) => {
                    merged = m;
                },
                Err(_) => {},
            }
            j += 1;
        }
        proof {
            assert(sel.take(j as int) =~= sel);
        }
        next_generators.push(merged);
    }
    let ghost head = next_generators@;
    let ghost tail = not_involved@;
    next_generators.append(&mut not_involved);
    proof {
        lemma_select_perms_raws(given, cs, true);
        let inv = select_perms(given, cs, true);
        assert(next_generators@ == head + tail);
        if inv.len() == 0 {
            assert(head =~= Seq::<Permutation>::empty());
            assert(next_generators@ =~= tail);
        } else if inv.len() == 1 {
            assert(head =~= seq![inv[0]]);
        } else {
            assert(next_generators@.subrange(1, next_generators@.len() as int) =~= tail);
        }
    }
    next_generators
}

/// The exponent after one power-generators step: a live exponent (above
/// zero) of an implicated generator grows by one.
pub open spec fn next_exponent(p: Seq<usize>, n: usize, core: Seq<(VertexIndex, Seq<VertexIndex>)>) -> int {
    if n != 0 && implicated(p, core) {
        n + 1
    } else {
        n as int
    }
}

/// Power-generators repair: raises the exponent of every generator with a
/// live exponent that maps a core vertex to another vertex of its orbit.
pub fn power_generators(generators: &mut Vec<(Permutation, usize)>, core: &Vec<OrbitEncoding>)
    requires
        forall|k: int|
            0 <= k < old(generators)@.len() ==> maps_into((#[trigger] old(generators)@[k]).0.raw@)
                && old(generators)@[k].0.raw@.len() <= 2147483648 && old(generators)@[k].1 < usize::MAX,
    ensures
        final(generators)@.len() == old(generators)@.len(),
        forall|k: int|
            0 <= k < old(generators)@.len() ==> (#[trigger] final(generators)@[k]).0 == old(generators)@[k].0
                && final(generators)@[k].1 == next_exponent(
                old(generators)@[k].0.raw@,
                old(generators)@[k].1,
                orbits_view(core),
            ),
{
    let length = generators.len();
    let mut k: usize = 0;
    while k < length
        invariant
            length == old(generators)@.len(),
            generators@.len() == length,
            k <= length,
            forall|j: int|
                0 <= j < length ==> maps_into((#[trigger] old(generators)@[j]).0.raw@)
                    && old(generators)@[j].0.raw@.len() <= 2147483648 && old(generators)@[j].1 < usize::MAX,
            forall|j: int| k <= j < length ==> #[trigger] generators@[j] == old(generators)@[j],
            forall|j: int|
                0 <= j < k ==> (#[trigger] generators@[j]).0 == old(generators)@[j].0 && generators@[j].1
                    == next_exponent(old(generators)@[j].0.raw@, old(generators)@[j].1, orbits_view(core)),
        decreases length - k,
    {
        let mut entry = (Permutation { raw: Vec::new(), cycles: None }, 0usize);
        let ghost before = generators@;
        generators.set_and_swap(k, &mut entry);
        assert(entry == old(generators)@[k as int]);
        if entry.1 != 0 && is_implicated(&entry.0, core) {
            entry.1 = entry.1 + 1;
        }
        generators.set(k, entry);
        proof {
            assert forall|j: int| 0 <= j < k + 1 implies (#[trigger] generators@[j]).0 == old(generators)@[j].0 && generators@[j].1
                == next_exponent(old(generators)@[j].0.raw@, old(generators)@[j].1, orbits_view(core)) by {
                if j < k {
                    assert(generators@[j] == before[j]);
                }
            }
        }
        k += 1;
    }
}

/// The entries whose power is not the identity, in order.
pub open spec fn live_entries(entries: Seq<(Permutation, usize)>) -> Seq<(Permutation, usize)>
    decreases entries.len(),
{
    if entries.len() == 0 {
        seq![]
    } else {
        let rest = live_entries(entries.drop_last());
        let last = entries.last();
        if is_identity_spec(power_spec(last.0.raw@, last.1 as nat)) {
            rest
        } else {
            rest.push(last)
        }
    }
}

/// Raises each generator to its exponent. Returns the powers, in order,
/// and the entries whose power is not the identity.
pub fn apply_exponents(entries: Vec<(Permutation, usize)>) -> (r: (Vec<Permutation>, Vec<(Permutation, usize)>))
    requires
        forall|k: int| 0 <= k < entries@.len() ==> maps_into((#[trigger] entries@[k]).0.raw@),
    ensures
        r.0@.len() == entries@.len(),
        forall|k: int|
            0 <= k < entries@.len() ==> (#[trigger] r.0@[k]).raw@ == power_spec(entries@[k].0.raw@, entries@[k].1 as nat),
        r.1@ == live_entries(entries@),
{
    let mut entries = entries;
    let ghost given = entries@;
    let length = entries.len();
    let mut powers: Vec<Permutation> = Vec::new();
    let mut live: Vec<(Permutation, usize)> = Vec::new();
    let mut k: usize = 0;
    while k < length
        invariant
            length == given.len(),
            entries@.len() == length,
            forall|j: int| 0 <= j < length ==> maps_into((#[trigger] given[j]).0.raw@),
            forall|j: int| k <= j < length ==> #[trigger] entries@[j] == given[j],
            k <= length,
            powers@.len() == k,
            forall|j: int|
                0 <= j < k ==> (#[trigger] powers@[j]).raw@ == power_spec(given[j].0.raw@, given[j].1 as nat),
            live@ == live_entries(given.take(k as int)),
        decreases length - k,
    {
        let mut entry = (Permutation { raw: Vec::new(), cycles: None }, 0usize);
        entries.set_and_swap(k, &mut entry);
        assert(entry == given[k as int]);
        let power = entry.0._nth_power_of(entry.1);
        let identity = power.is_identity();
        let ghost before = powers@;
        powers.push(power);
        proof {
            assert forall|j: int| 0 <= j < k + 1 implies (#[trigger] powers@[j]).raw@ == power_spec(given[j].0.raw@, given[j].1 as nat) by {
                if j < k {
                    assert(powers@[j] == before[j]);
                }
            }
            assert(given.take(k + 1).drop_last() =~= given.take(k as int));
            assert(given.take(k + 1).last() == given[k as int]);
        }
        if !identity {
            live.push(entry);
        }
        k += 1;
    }
    assert(given.take(k as int) =~= given);
    (powers, live)
}

} // verus!
