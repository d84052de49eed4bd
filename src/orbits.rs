//! Orbit partitions: every vertex labelled with the least vertex that the
//! generators can carry it to.
use crate::permutation::{maps_into, Permutation};
use crate::VertexIndex;
use vstd::prelude::*;

verus! {

/// Vertex to orbit id.
pub type Orbits = Vec<VertexIndex>;

/// The labelling `q` is constant along the arrows `x -> s[x]`.
pub open spec fn respects(q: spec_fn(int) -> int, s: Seq<usize>) -> bool {
    forall|x: int| 0 <= x < s.len() ==> #[trigger] q(s[x] as int) == q(x)
}

/// The labelling `q` is constant along every generator's arrows.
pub open spec fn invariant_labeling(gens: Seq<Seq<usize>>, q: spec_fn(int) -> int) -> bool {
    forall|k: int| 0 <= k < gens.len() ==> respects(q, #[trigger] gens[k])
}

/// `q` gives each vertex the label of its orbit id in `o`.
pub open spec fn labels_by(q: spec_fn(int) -> int, o: Seq<VertexIndex>) -> bool {
    forall|x: int| 0 <= x < o.len() ==> #[trigger] q(o[x] as int) == q(x)
}

/// Every orbit id is at most its vertex and names itself.
pub open spec fn flat(o: Seq<VertexIndex>) -> bool {
    forall|x: int|
        0 <= x < o.len() ==> 0 <= #[trigger] o[x] <= x && o[o[x] as int] == o[x]
}

/// The images of a list of generators.
pub open spec fn raws(gens: Seq<Permutation>) -> Seq<Seq<usize>> {
    gens.map_values(|p: Permutation| p.raw@)
}

/// `o` is the orbit partition of `0..n` under `gens`: closed under every
/// generator, no coarser than any labelling that every generator keeps,
/// and naming each orbit by its least member.
pub open spec fn is_orbit_partition(gens: Seq<Seq<usize>>, n: nat, o: Seq<VertexIndex>) -> bool {
    &&& o.len() == n
    &&& flat(o)
    &&& forall|k: int, x: int|
        0 <= k < gens.len() && 0 <= x < n ==> o[#[trigger] gens[k][x] as int] == #[trigger] o[x]
    &&& forall|q: spec_fn(int) -> int| #[trigger] invariant_labeling(gens, q) ==> labels_by(q, o)
}

/// Generators on the common domain `0..n`.
pub open spec fn generators_on(gens: Seq<Seq<usize>>, n: nat) -> bool {
    forall|k: int| 0 <= k < gens.len() ==> (#[trigger] gens[k]).len() == n && maps_into(gens[k])
}

/// Each vertex in its own orbit.
pub fn empty_orbits(number_vertices: usize) -> (r: Orbits)
    requires
        number_vertices <= 2147483648,
    ensures
        r@.len() == number_vertices,
        forall|i: int| 0 <= i < number_vertices ==> #[trigger] r@[i] == i,
{
    let mut orbits: Orbits = Vec::new();
    let mut vertex: usize = 0;
    while vertex < number_vertices
        invariant
            vertex <= number_vertices <= 2147483648,
            orbits@.len() == vertex,
            forall|i: int| 0 <= i < vertex ==> #[trigger] orbits@[i] == i,
        decreases number_vertices - vertex,
    {
        orbits.push(vertex as VertexIndex);
        vertex += 1;
    }
    orbits
}

/// The orbit id of `vertex`.
pub fn get_orbit(orbits: &Orbits, vertex: VertexIndex) -> (r: VertexIndex)
    requires
        0 <= vertex < orbits@.len(),
    ensures
        r == orbits@[vertex as int],
{
    orbits[vertex as usize]
}

/// Parents point downwards: a forest whose roots are its least members.
pub open spec fn forest(o: Seq<VertexIndex>) -> bool {
    forall|x: int| 0 <= x < o.len() ==> 0 <= #[trigger] o[x] <= x
}

/// The root reached from `x` by following parents.
pub open spec fn root(o: Seq<VertexIndex>, x: int) -> int
    decreases x,
{
    if x <= 0 || x >= o.len() || o[x] >= x || o[x] < 0 {
        x
    } else {
        root(o, o[x] as int)
    }
}

proof fn lemma_root_is_root(o: Seq<VertexIndex>, x: int)
    requires
        forest(o),
        0 <= x < o.len(),
    ensures
        0 <= root(o, x) <= x,
        o[root(o, x)] == root(o, x),
    decreases x,
{
    if x > 0 && o[x] < x {
        lemma_root_is_root(o, o[x] as int);
    } else {
        assert(0 <= o[x] <= x);
        if x == 0 {
            assert(o[0] == 0);
        }
    }
}

proof fn lemma_root_of_root(o: Seq<VertexIndex>, x: int)
    requires
        forest(o),
        0 <= x < o.len(),
        o[x] == x,
    ensures
        root(o, x) == x,
{
}

/// Hanging root `r2` below root `r1 < r2` moves exactly the trees of `r2`.
proof fn lemma_union_roots(o: Seq<VertexIndex>, r1: int, r2: int, x: int)
    requires
        forest(o),
        0 <= r1 < r2 < o.len(),
        o[r1] == r1,
        o[r2] == r2,
        0 <= x < o.len(),
    ensures
        forest(o.update(r2, r1 as VertexIndex)),
        root(o.update(r2, r1 as VertexIndex), x) == (if root(o, x) == r2 {
            r1
        } else {
            root(o, x)
        }),
    decreases x,
{
    let o2 = o.update(r2, r1 as VertexIndex);
    assert(forest(o2)) by {
        assert forall|y: int| 0 <= y < o2.len() implies 0 <= #[trigger] o2[y] <= y by {
            if y != r2 {
                assert(o2[y] == o[y]);
            }
        }
    }
    if x == r2 {
        assert(root(o2, r1) == r1) by {
            assert(o2[r1] == r1);
        }
    } else if x > 0 && o[x] < x {
        lemma_union_roots(o, r1, r2, o[x] as int);
    } else {
        assert(o[x] == x) by {
            assert(0 <= o[x] <= x);
        }
    }
}

/// The root of `start`, found by following parents.
fn find_root(orbits: &Orbits, start: usize) -> (r: usize)
    requires
        forest(orbits@),
        start < orbits@.len(),
    ensures
        r == root(orbits@, start as int),
        r <= start,
        orbits@[r as int] == r,
{
    let mut x = start;
    proof {
        lemma_root_is_root(orbits@, start as int);
    }
    while orbits[x] as usize != x
        invariant
            forest(orbits@),
            x < orbits@.len(),
            root(orbits@, x as int) == root(orbits@, start as int),
        decreases x,
    {
        x = orbits[x] as usize;
    }
    proof {
        lemma_root_is_root(orbits@, start as int);
    }
    x
}

/// Joins the orbits that the generator connects, keeping the smaller id
/// of two merged orbits, and leaves every vertex labelled by its orbit id.
pub fn apply_generator(generator: &Vec<usize>, orbits: &mut Orbits)
    requires
        generator@.len() == old(orbits)@.len(),
        maps_into(generator@),
        flat(old(orbits)@),
    ensures
        final(orbits)@.len() == old(orbits)@.len(),
        flat(final(orbits)@),
        forall|x: int|
            0 <= x < generator@.len() ==> final(orbits)@[#[trigger] generator@[x] as int]
                == final(orbits)@[x],
        forall|x: int, y: int|
            0 <= x < old(orbits)@.len() && 0 <= y < old(orbits)@.len() && old(orbits)@[x] == old(
                orbits,
            )@[y] ==> #[trigger] final(orbits)@[x] == #[trigger] final(orbits)@[y],
        forall|q: spec_fn(int) -> int|
            respects(q, generator@) && labels_by(q, old(orbits)@) ==> #[trigger] labels_by(
                q,
                final(orbits)@,
            ),
{
    let n = orbits.len();
    let ghost o0 = orbits@;
    proof {
        assert forall|x: int| 0 <= x < n implies root(o0, x) == o0[x] by {
            lemma_root_of_root(o0, o0[x] as int);
            if x > 0 && o0[x] < x {
            }
        }
    }
    let mut i: usize = 0;
    while i < n
        invariant
            n == orbits@.len(),
            n == generator@.len(),
            n == o0.len(),
            maps_into(generator@),
            flat(o0),
            i <= n,
            forest(orbits@),
            forall|j: int|
                0 <= j < i ==> root(orbits@, #[trigger] generator@[j] as int) == root(orbits@, j),
            forall|x: int, y: int|
                0 <= x < n && 0 <= y < n && o0[x] == o0[y] ==> #[trigger] root(orbits@, x)
                    == #[trigger] root(orbits@, y),
            forall|q: spec_fn(int) -> int|
                respects(q, generator@) && labels_by(q, o0) ==> forall|x: int|
                    0 <= x < n ==> #[trigger] q(root(orbits@, x)) == q(x),
        decreases n - i,
    {
        let j = generator[i];
        if j != i {
            let r1 = find_root(orbits, i);
            let r2 = find_root(orbits, j);
            let ghost before = orbits@;
            if r1 < r2 {
                orbits.set(r2, r1 as VertexIndex);
                proof {
                    lemma_union_step(before, generator@, o0, i as int, r1 as int, r2 as int);
                }
            } else if r2 < r1 {
                orbits.set(r1, r2 as VertexIndex);
                proof {
                    lemma_union_step(before, generator@, o0, i as int, r2 as int, r1 as int);
                }
            }
        }
        i += 1;
    }
    let ghost ou = orbits@;
    let mut k: usize = 0;
    while k < n
        invariant
            n == orbits@.len(),
            n == ou.len(),
            forest(ou),
            k <= n,
            forall|x: int| 0 <= x < k ==> #[trigger] orbits@[x] == root(ou, x),
            forall|x: int| k <= x < n ==> #[trigger] orbits@[x] == ou[x],
        decreases n - k,
    {
        let parent = orbits[k] as usize;
        proof {
            lemma_root_is_root(ou, k as int);
            assert(0 <= ou[k as int] <= k);
            if parent < k {
                assert(orbits@[parent as int] == root(ou, parent as int));
            } else {
                assert(ou[k as int] == k);
            }
        }
        let grand = orbits[parent];
        orbits.set(k, grand);
        k += 1;
    }
    proof {
        let o = orbits@;
        assert forall|x: int| 0 <= x < n implies 0 <= #[trigger] o[x] <= x && o[o[x] as int] == o[x] by {
            lemma_root_is_root(ou, x);
            lemma_root_is_root(ou, root(ou, x));
            lemma_root_of_root(ou, root(ou, x));
        }
        assert forall|x: int| 0 <= x < n implies o[#[trigger] generator@[x] as int] == o[x] by {
            if generator@[x] as int == x {
            } else {
                assert(root(ou, generator@[x] as int) == root(ou, x));
            }
        }
        assert forall|q: spec_fn(int) -> int|
            respects(q, generator@) && labels_by(q, o0) implies #[trigger] labels_by(q, o) by {
            assert forall|x: int| 0 <= x < n implies #[trigger] q(o[x] as int) == q(x) by {
                assert(q(root(ou, x)) == q(x));
            }
        }
    }
}

/// Folds the generators into their orbit partition.
pub fn generate_orbits(generators: &Vec<Permutation>) -> (r: Orbits)
    requires
        generators@.len() > 0,
        generators_on(raws(generators@), generators@[0].raw@.len()),
        generators@[0].raw@.len() <= 2147483648,
    ensures
        is_orbit_partition(raws(generators@), generators@[0].raw@.len(), r@),
{
    let ghost gens = raws(generators@);
    let number_of_vertices = generators[0].len();
    let ghost n = number_of_vertices as nat;
    let mut orbits = empty_orbits(number_of_vertices);
    proof {
        assert(gens.take(0) =~= Seq::<Seq<usize>>::empty());
        assert forall|q: spec_fn(int) -> int| #[trigger] invariant_labeling(gens.take(0), q) implies labels_by(q, orbits@) by {}
    }
    let mut t: usize = 0;
    while t < generators.len()
        invariant
            gens == raws(generators@),
            n == number_of_vertices,
            n == generators@[0].raw@.len(),
            generators_on(gens, n),
            t <= generators@.len(),
            is_orbit_partition(gens.take(t as int), n, orbits@),
        decreases generators@.len() - t,
    {
        let generator = &generators[t];
        let ghost before = orbits@;
        proof {
            assert(gens[t as int] == generator.raw@);
        }
        apply_generator(&generator.raw, &mut orbits);
        proof {
            let tk = gens.take(t + 1);
            let tk0 = gens.take(t as int);
            let o = orbits@;
            assert forall|k: int, x: int|
                0 <= k < tk.len() && 0 <= x < n implies o[#[trigger] tk[k][x] as int] == #[trigger] o[x] by {
                if k < t {
                    assert(tk[k] == tk0[k]);
                    assert(tk0[k][x] < n);
                    assert(before[tk0[k][x] as int] == before[x]);
                }
            }
            assert forall|q: spec_fn(int) -> int| #[trigger] invariant_labeling(tk, q) implies labels_by(q, o) by {
                assert forall|k: int| 0 <= k < tk0.len() implies respects(q, #[trigger] tk0[k]) by {
                    assert(tk0[k] == tk[k]);
                }
                assert(invariant_labeling(tk0, q));
                assert(respects(q, tk[t as int]));
            }
        }
        t += 1;
    }
    assert(gens.take(t as int) =~= gens);
    orbits
}

/// Orbit confluence: two lists that hold the same generators, in whatever
/// order, give the same orbit partition.
pub proof fn lemma_orbits_confluent(
    gens1: Seq<Seq<usize>>,
    gens2: Seq<Seq<usize>>,
    n: nat,
    o1: Seq<VertexIndex>,
    o2: Seq<VertexIndex>,
)
    requires
        generators_on(gens1, n),
        forall|g: Seq<usize>| gens1.contains(g) <==> gens2.contains(g),
        is_orbit_partition(gens1, n, o1),
        is_orbit_partition(gens2, n, o2),
    ensures
        o1 == o2,
{
    let q1 = |x: int| if 0 <= x < n { o1[x] as int } else { x };
    let q2 = |x: int| if 0 <= x < n { o2[x] as int } else { x };
    assert(invariant_labeling(gens2, q1)) by {
        assert forall|k: int| 0 <= k < gens2.len() implies respects(q1, #[trigger] gens2[k]) by {
            assert(gens2.contains(gens2[k]));
            let k1 = choose|k1: int| 0 <= k1 < gens1.len() && gens1[k1] == gens2[k];
            assert(gens1[k1] == gens2[k]);
            assert forall|x: int| 0 <= x < gens2[k].len() implies #[trigger] q1(gens2[k][x] as int) == q1(x) by {
                assert(gens1[k1].len() == n && maps_into(gens1[k1]));
                assert(gens1[k1][x] < n);
                assert(o1[gens1[k1][x] as int] == o1[x]);
            }
        }
    }
    assert(invariant_labeling(gens1, q2)) by {
        assert forall|k: int| 0 <= k < gens1.len() implies respects(q2, #[trigger] gens1[k]) by {
            assert(gens1.contains(gens1[k]));
            let k2 = choose|k2: int| 0 <= k2 < gens2.len() && gens2[k2] == gens1[k];
            assert forall|x: int| 0 <= x < gens1[k].len() implies #[trigger] q2(gens1[k][x] as int) == q2(x) by {
                assert(gens1[k].len() == n && maps_into(gens1[k]));
                assert(gens2[k2][x] < n);
                assert(o2[gens2[k2][x] as int] == o2[x]);
            }
        }
    }
    assert(labels_by(q1, o2));
    assert(labels_by(q2, o1));
    assert forall|x: int| 0 <= x < n implies o1[x] == o2[x] by {
        let a = o1[x];
        let b = o2[x];
        assert(q1(o2[x] as int) == q1(x));
        assert(q2(o1[x] as int) == q2(x));
        assert(o1[b as int] == a);
        assert(o2[a as int] == b);
    }
    assert(o1 =~= o2);
}

/// Orbit idempotence: the orbit id of an orbit id is itself.
pub proof fn lemma_orbits_idempotent(gens: Seq<Seq<usize>>, n: nat, o: Seq<VertexIndex>)
    requires
        is_orbit_partition(gens, n, o),
    ensures
        forall|v: int| 0 <= v < n ==> #[trigger] o[o[v] as int] == o[v],
{
}

/// One union step keeps the loop's facts.
proof fn lemma_union_step(
    o: Seq<VertexIndex>,
    g: Seq<usize>,
    o0: Seq<VertexIndex>,
    i: int,
    r1: int,
    r2: int,
)
    requires
        forest(o),
        o.len() == g.len(),
        o0.len() == o.len(),
        maps_into(g),
        0 <= i < g.len(),
        0 <= r1 < r2 < o.len(),
        o[r1] == r1,
        o[r2] == r2,
        (r1 == root(o, i) && r2 == root(o, g[i] as int)) || (r2 == root(o, i) && r1 == root(
            o,
            g[i] as int,
        )),
        forall|j: int| 0 <= j < i ==> root(o, #[trigger] g[j] as int) == root(o, j),
        forall|x: int, y: int|
            0 <= x < o.len() && 0 <= y < o.len() && o0[x] == o0[y] ==> #[trigger] root(o, x)
                == #[trigger] root(o, y),
        forall|q: spec_fn(int) -> int|
            respects(q, g) && labels_by(q, o0) ==> forall|x: int|
                0 <= x < o.len() ==> #[trigger] q(root(o, x)) == q(x),
    ensures
        ({
            let o2 = o.update(r2, r1 as VertexIndex);
            &&& forest(o2)
            &&& forall|j: int| 0 <= j < i + 1 ==> root(o2, #[trigger] g[j] as int) == root(o2, j)
            &&& forall|x: int, y: int|
                0 <= x < o.len() && 0 <= y < o.len() && o0[x] == o0[y] ==> #[trigger] root(o2, x)
                    == #[trigger] root(o2, y)
            &&& forall|q: spec_fn(int) -> int|
                respects(q, g) && labels_by(q, o0) ==> forall|x: int|
                    0 <= x < o.len() ==> #[trigger] q(root(o2, x)) == q(x)
        }),
{
    let o2 = o.update(r2, r1 as VertexIndex);
    lemma_union_roots(o, r1, r2, 0);
    assert forall|x: int| 0 <= x < o.len() implies root(o2, x) == (if root(o, x) == r2 {
        r1
    } else {
        root(o, x)
    }) by {
        lemma_union_roots(o, r1, r2, x);
    }
    assert forall|j: int| 0 <= j < i + 1 implies root(o2, #[trigger] g[j] as int) == root(o2, j) by {
        assert(g[j] < g.len());
    }
    assert forall|x: int, y: int|
        0 <= x < o.len() && 0 <= y < o.len() && o0[x] == o0[y] implies #[trigger] root(o2, x)
            == #[trigger] root(o2, y) by {
        assert(root(o, x) == root(o, y));
    }
    assert forall|q: spec_fn(int) -> int|
        respects(q, g) && labels_by(q, o0) implies forall|x: int|
            0 <= x < o.len() ==> #[trigger] q(root(o2, x)) == q(x) by {
        assert(q(root(o, i)) == q(i));
        assert(g[i] < g.len());
        assert(q(root(o, g[i] as int)) == q(g[i] as int));
        assert(q(g[i] as int) == q(i));
        assert forall|x: int| 0 <= x < o.len() implies #[trigger] q(root(o2, x)) == q(x) by {
            assert(q(root(o, x)) == q(x));
        }
    }
}

} // verus!
