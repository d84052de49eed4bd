//! Permutations of `0..n`: evaluation, composition, powers and cycles.
use itertools::Itertools;
use vstd::prelude::*;

verus! {

/// Returned when two permutations of different sizes are combined.
#[derive(Debug)]
pub struct IncompatiblePermutationSizes;

/// Every image of `s` lies in its domain `0..s.len()`.
pub open spec fn maps_into(s: Seq<usize>) -> bool {
    forall|i: int| 0 <= i < s.len() ==> #[trigger] s[i] < s.len()
}

/// `s` is a bijection of `0..s.len()`.
pub open spec fn is_bijection(s: Seq<usize>) -> bool {
    &&& maps_into(s)
    &&& forall|i: int, j: int|
        0 <= i < s.len() && 0 <= j < s.len() && #[trigger] s[i] == #[trigger] s[j] ==> i == j
}

/// `left` after `right`: the image of `i` is `left(right(i))`.
pub open spec fn compose_spec(left: Seq<usize>, right: Seq<usize>) -> Seq<usize> {
    Seq::new(right.len(), |i: int| left[right[i] as int])
}

/// The identity on `0..n`.
pub open spec fn identity_spec(n: nat) -> Seq<usize> {
    Seq::new(n, |i: int| i as usize)
}

/// The `k`-th power of `p`, repeated composition; the zeroth is the identity.
pub open spec fn power_spec(p: Seq<usize>, k: nat) -> Seq<usize>
    decreases k,
{
    if k == 0 {
        identity_spec(p.len())
    } else if k == 1 {
        p
    } else {
        compose_spec(p, power_spec(p, (k - 1) as nat))
    }
}

/// `p` fixes every point.
pub open spec fn is_identity_spec(p: Seq<usize>) -> bool {
    forall|i: int| 0 <= i < p.len() ==> #[trigger] p[i] == i
}

/// `c` lists one cycle of `p`: distinct points, each mapped to the next,
/// the last one back to the first.
pub open spec fn is_cycle(p: Seq<usize>, c: Seq<usize>) -> bool {
    &&& c.len() >= 1
    &&& c.no_duplicates()
    &&& forall|i: int| 0 <= i < c.len() ==> #[trigger] c[i] < p.len()
    &&& forall|i: int| 0 <= i < c.len() - 1 ==> #[trigger] p[c[i] as int] == c[i + 1]
    &&& p[c[c.len() - 1] as int] == c[0]
}

/// `c` starts at its least element.
pub open spec fn starts_at_min(c: Seq<usize>) -> bool {
    c.len() >= 1 && forall|i: int| 0 <= i < c.len() ==> c[0] <= #[trigger] c[i]
}

/// `x` occurs in one of the cycles `cs`.
pub open spec fn covered(cs: Seq<Seq<usize>>, x: usize) -> bool {
    exists|k: int| 0 <= k < cs.len() && #[trigger] cs[k].contains(x)
}

/// `cs` is the canonical cycle decomposition of `p`: its cycles of length
/// above one, each starting at its least element, ordered by that element.
pub open spec fn is_cycle_decomposition(p: Seq<usize>, cs: Seq<Seq<usize>>) -> bool {
    &&& forall|k: int|
        0 <= k < cs.len() ==> is_cycle(p, #[trigger] cs[k]) && cs[k].len() > 1 && starts_at_min(
            cs[k],
        )
    &&& forall|k1: int, k2: int|
        0 <= k1 < k2 < cs.len() ==> #[trigger] cs[k1][0] < #[trigger] cs[k2][0]
    &&& forall|x: usize| x < p.len() && p[x as int] != x ==> covered(cs, x)
}

/// `c` rotated left by `k` places.
pub open spec fn rotate_spec(c: Seq<usize>, k: int) -> Seq<usize> {
    Seq::new(
        c.len(),
        |i: int|
            if i + k < c.len() {
                c[i + k]
            } else {
                c[i + k - c.len()]
            },
    )
}

/// The point that follows position `i` of cycle `c`.
pub open spec fn next_in(c: Seq<usize>, i: int) -> usize {
    if i < c.len() - 1 {
        c[i + 1]
    } else {
        c[0]
    }
}

/// The images that a list of disjoint cycles writes.
pub open spec fn realizes_cycles(raw: Seq<usize>, cs: Seq<Seq<usize>>) -> bool {
    forall|k: int, i: int|
        0 <= k < cs.len() && 0 <= i < cs[k].len() ==> raw[#[trigger] cs[k][i] as int] == next_in(
            cs[k],
            i,
        )
}

/// Cycles that share no point, hold no repeated point and stay below `size`.
pub open spec fn disjoint_cycles(cs: Seq<Seq<usize>>, size: nat) -> bool {
    &&& forall|k: int|
        0 <= k < cs.len() ==> (#[trigger] cs[k]).len() >= 1 && cs[k].no_duplicates()
    &&& forall|k: int, i: int| 0 <= k < cs.len() && 0 <= i < cs[k].len() ==> #[trigger] cs[k][i] < size
    &&& forall|k1: int, k2: int, i1: int, i2: int|
        0 <= k1 < cs.len() && 0 <= k2 < cs.len() && k1 != k2 && 0 <= i1 < cs[k1].len() && 0 <= i2
            < cs[k2].len() ==> #[trigger] cs[k1][i1] != #[trigger] cs[k2][i2]
}

/// The cycles of `cs` longer than one point, in order.
pub open spec fn nontrivial(cs: Seq<Seq<usize>>) -> Seq<Seq<usize>>
    decreases cs.len(),
{
    if cs.len() == 0 {
        seq![]
    } else {
        let rest = nontrivial(cs.drop_last());
        if cs.last().len() > 1 {
            rest.push(cs.last())
        } else {
            rest
        }
    }
}

pub proof fn lemma_compose_maps_into(left: Seq<usize>, right: Seq<usize>)
    requires
        maps_into(left),
        maps_into(right),
        left.len() == right.len(),
    ensures
        maps_into(compose_spec(left, right)),
{
    assert forall|i: int| 0 <= i < right.len() implies #[trigger] compose_spec(left, right)[i]
        < right.len() by {
        assert(right[i] < left.len());
    }
}

/// `m` is a multiple of every cycle's length.
pub open spec fn common_multiple(cs: Seq<Seq<usize>>, m: int) -> bool {
    forall|k: int| 0 <= k < cs.len() ==> m % (#[trigger] cs[k]).len() as int == 0
}

/// `r` is the order of a permutation with cycles `cs`: the least positive
/// common multiple of the cycle lengths.
pub open spec fn is_order(cs: Seq<Seq<usize>>, r: int) -> bool {
    &&& r >= 1
    &&& common_multiple(cs, r)
    &&& forall|m: int| m >= 1 && #[trigger] common_multiple(cs, m) ==> r <= m
}

/// The order of `p` fits in a `usize`.
pub open spec fn order_fits(p: Seq<usize>) -> bool {
    forall|cs: Seq<Seq<usize>>|
        #[trigger] is_cycle_decomposition(p, cs) ==> exists|m: int|
            1 <= m <= usize::MAX && #[trigger] common_multiple(cs, m)
}

/// Distinct indices below `n` are at most `n` many.
pub proof fn lemma_distinct_bounded(s: Seq<usize>, n: nat)
    requires
        s.no_duplicates(),
        forall|i: int| 0 <= i < s.len() ==> #[trigger] s[i] < n,
    ensures
        s.len() <= n,
    decreases n,
{
    if n == 0 {
        if s.len() > 0 {
            assert(s[0] < 0);
        }
    } else {
        let top = (n - 1) as usize;
        if exists|i: int| 0 <= i < s.len() && s[i] == top {
            let i = choose|i: int| 0 <= i < s.len() && s[i] == top;
            let t = s.remove(i);
            assert forall|a: int, b: int| 0 <= a < t.len() && 0 <= b < t.len() && a != b implies t[a]
                != t[b] by {
                let a2 = if a < i { a } else { a + 1 };
                let b2 = if b < i { b } else { b + 1 };
                assert(t[a] == s[a2] && t[b] == s[b2]);
            }
            assert forall|j: int| 0 <= j < t.len() implies #[trigger] t[j] < (n - 1) as nat by {
                let j2 = if j < i { j } else { j + 1 };
                assert(t[j] == s[j2]);
            }
            lemma_distinct_bounded(t, (n - 1) as nat);
        } else {
            assert forall|j: int| 0 <= j < s.len() implies #[trigger] s[j] < (n - 1) as nat by {
                assert(s[j] != top);
            }
            lemma_distinct_bounded(s, (n - 1) as nat);
        }
    }
}

/// A cycle is closed under `p`.
proof fn lemma_cycle_closed(p: Seq<usize>, c: Seq<usize>, x: usize)
    requires
        is_cycle(p, c),
        c.contains(x),
    ensures
        c.contains(p[x as int]),
{
    let a = choose|a: int| 0 <= a < c.len() && c[a] == x;
    if a < c.len() - 1 {
        assert(c[a + 1] == p[x as int]);
    } else {
        assert(c[0] == p[x as int]);
    }
}

/// Under a bijection, the point mapped onto a member of a cycle is in it too.
proof fn lemma_cycle_preimage(p: Seq<usize>, c: Seq<usize>, x: usize)
    requires
        is_bijection(p),
        is_cycle(p, c),
        x < p.len(),
        c.contains(p[x as int]),
    ensures
        c.contains(x),
{
    let b = choose|b: int| 0 <= b < c.len() && c[b] == p[x as int];
    let prev = if b == 0 { c.len() - 1 } else { b - 1 };
    assert(p[c[prev] as int] == c[b]);
    assert(c[prev] < p.len());
    assert(c[prev] as int == x as int);
}

/// A cycle that holds the start of another cycle holds all of it.
proof fn lemma_cycle_contains_cycle(p: Seq<usize>, d: Seq<usize>, c: Seq<usize>, j: int)
    requires
        is_cycle(p, d),
        is_cycle(p, c),
        d.contains(c[0]),
        0 <= j < c.len(),
    ensures
        d.contains(c[j]),
    decreases j,
{
    if j > 0 {
        lemma_cycle_contains_cycle(p, d, c, j - 1);
        lemma_cycle_closed(p, d, c[j - 1]);
    }
}

/// Rotating a cycle gives a cycle through the same points.
proof fn lemma_rotate_cycle(p: Seq<usize>, c: Seq<usize>, k: int)
    requires
        is_cycle(p, c),
        0 <= k < c.len(),
    ensures
        is_cycle(p, rotate_spec(c, k)),
        forall|x: usize| c.contains(x) <==> rotate_spec(c, k).contains(x),
        rotate_spec(c, k)[0] == c[k],
{
    let r = rotate_spec(c, k);
    let n = c.len();
    assert forall|a: int, b: int| 0 <= a < n && 0 <= b < n && a != b implies r[a] != r[b] by {
        let a2 = if a + k < n { a + k } else { a + k - n };
        let b2 = if b + k < n { b + k } else { b + k - n };
        assert(r[a] == c[a2] && r[b] == c[b2]);
    }
    assert forall|i: int| 0 <= i < n - 1 implies #[trigger] p[r[i] as int] == r[i + 1] by {
        if i + k < n - 1 {
            assert(p[c[i + k] as int] == c[i + k + 1]);
        } else if i + k == n - 1 {
            assert(p[c[n - 1] as int] == c[0]);
        } else {
            assert(p[c[i + k - n] as int] == c[i + k - n + 1]);
        }
    }
    if k > 0 {
        assert(p[c[k - 1] as int] == c[k]);
    }
    assert forall|x: usize| c.contains(x) implies r.contains(x) by {
        let a = choose|a: int| 0 <= a < n && c[a] == x;
        let i = if a >= k { a - k } else { a - k + n };
        assert(r[i] == x);
    }
    assert forall|x: usize| r.contains(x) implies c.contains(x) by {
        let i = choose|i: int| 0 <= i < n && r[i] == x;
        let a = if i + k < n { i + k } else { i + k - n };
        assert(c[a] == x);
    }
}

/// A permutation given by the image of each index, with its cycle
/// decomposition once that has been computed.
#[derive(Debug, Clone, PartialEq, Eq, PartialOrd, Ord)]
pub struct Permutation {
    pub raw: Vec<usize>,
    pub cycles: Option<Vec<Vec<usize>>>,
}

impl Permutation {
    /// Builds a permutation from its images without computing its cycles.
    pub fn new(raw: Vec<usize>) -> (r: Self)
        ensures
            r.raw@ == raw@,
            r.cycles.is_none(),
    {
        Permutation { raw, cycles: None }
    }

    /// Size of the domain.
    pub fn len(&self) -> (r: usize)
        ensures
            r == self.raw@.len(),
    {
        self.raw.len()
    }

    fn get(&self, index: usize) -> (r: Option<usize>)
        ensures
            r == (if index < self.raw@.len() {
                Some(self.raw@[index as int])
            } else {
                None::<usize>
            }),
    {
        if index < self.raw.len() {
            Some(self.raw[index])
        } else {
            None
        }
    }

    /// The image of `in_value`, or `None` outside the domain.
    pub fn _evaluate(&self, in_value: &usize) -> (r: Option<usize>)
        ensures
            r == (if *in_value < self.raw@.len() {
                Some(self.raw@[*in_value as int])
            } else {
                None::<usize>
            }),
    {
        self.get(*in_value)
    }

    /// Applies the permutation to each value; values outside the domain
    /// stay as they are.
    pub fn _apply(self, data: Vec<usize>) -> (r: Vec<usize>)
        ensures
            r@.len() == data@.len(),
            forall|i: int|
                0 <= i < data@.len() ==> #[trigger] r@[i] == (if data@[i] < self.raw@.len() {
                    self.raw@[data@[i] as int]
                } else {
                    data@[i]
                }),
    {
        let mut out: Vec<usize> = Vec::new();
        let mut i: usize = 0;
        while i < data.len()
            invariant
                i <= data@.len(),
                out@.len() == i,
                forall|k: int|
                    0 <= k < i ==> #[trigger] out@[k] == (if data@[k] < self.raw@.len() {
                        self.raw@[data@[k] as int]
                    } else {
                        data@[k]
                    }),
            decreases data@.len() - i,
        {
            let value = data[i];
            match self._evaluate(&value) {
                Some(image) => out.push(image),
                None => out.push(value),
            }
            i += 1;
        }
        out
    }

    /// Composes `subsequent_perm` after this permutation, in place:
    /// afterwards the image of `i` is `subsequent_perm(self(i))`.
    pub fn _compose_with(&mut self, subsequent_perm: &Self) -> (r: Result<
        (),
        IncompatiblePermutationSizes,
    >)
        requires
            maps_into(old(self).raw@),
        ensures
            r.is_err() <==> old(self).raw@.len() != subsequent_perm.raw@.len(),
            r.is_ok() ==> final(self).raw@ == compose_spec(subsequent_perm.raw@, old(self).raw@),
            r.is_ok() ==> final(self).cycles.is_none(),
            r.is_err() ==> *final(self) == *old(self),
    {
        if self.raw.len() != subsequent_perm.raw.len() {
            return Err(IncompatiblePermutationSizes);
        }
        let n = self.raw.len();
        let mut i: usize = 0;
        while i < n
            invariant
                n == self.raw@.len(),
                n == subsequent_perm.raw@.len(),
                n == old(self).raw@.len(),
                i <= n,
                forall|k: int|
                    0 <= k < i ==> #[trigger] self.raw@[k] == subsequent_perm.raw@[old(
                        self,
                    ).raw@[k] as int],
                forall|k: int| i <= k < n ==> #[trigger] self.raw@[k] == old(self).raw@[k],
                maps_into(old(self).raw@),
            decreases n - i,
        {
            let index = self.raw[i];
            assert(old(self).raw@[i as int] < n);
            let image = subsequent_perm.raw[index];
            self.raw.set(i, image);
            i += 1;
        }
        self.cycles = None;
        assert(self.raw@ =~= compose_spec(subsequent_perm.raw@, old(self).raw@));
        Ok(())
    }

    /// Standard composition where `right` is applied first:
    /// the image of `a` is `left(right(a))`.
    pub fn _compose(left: &Self, right: &Self) -> (r: Result<Self, IncompatiblePermutationSizes>)
        requires
            maps_into(right.raw@),
        ensures
            r.is_err() <==> left.raw@.len() != right.raw@.len(),
            r.is_ok() ==> r->Ok_0.raw@ == compose_spec(left.raw@, right.raw@),
            r.is_ok() ==> r->Ok_0.cycles.is_none(),
    {
        if left.len() != right.len() {
            return Err(IncompatiblePermutationSizes);
        }
        let mut compositum = Permutation { raw: right.raw.clone(), cycles: None };
        match compositum._compose_with(left) {
            Ok(()) => Ok(compositum),
            Err(e) => Err(e),
        }
    }

    /// Merges two permutations that a repair step implicated together:
    /// `first` is applied first, then `second`.
    pub fn merge(first: &Self, second: &Self) -> (r: Result<Self, IncompatiblePermutationSizes>)
        requires
            maps_into(first.raw@),
        ensures
            r.is_err() <==> first.raw@.len() != second.raw@.len(),
            r.is_ok() ==> r->Ok_0.raw@ == compose_spec(second.raw@, first.raw@),
            r.is_ok() ==> r->Ok_0.cycles.is_none(),
    {
        Self::_compose(second, first)
    }

    /// Rotates a cycle so that it starts at its least element.
    pub fn normalize_cycle(cycle: &mut Vec<usize>)
        requires
            old(cycle)@.len() >= 1,
        ensures
            exists|k: int|
                0 <= k < old(cycle)@.len() && final(cycle)@ == rotate_spec(old(cycle)@, k)
                    && forall|i: int| 0 <= i < k ==> old(cycle)@[i] > old(cycle)@[k],
            starts_at_min(final(cycle)@),
    {
        let min_index = position_of_min(cycle);
        let n = cycle.len();
        let mut rotated: Vec<usize> = Vec::new();
        let mut i: usize = 0;
        while i < n
            invariant
                n == cycle@.len(),
                min_index < n,
                i <= n,
                rotated@ == rotate_spec(cycle@, min_index as int).take(i as int),
            decreases n - i,
        {
            let source = if i < n - min_index {
                i + min_index
            } else {
                i - (n - min_index)
            };
            rotated.push(cycle[source]);
            assert(rotated@ =~= rotate_spec(cycle@, min_index as int).take(i + 1));
            i += 1;
        }
        assert(rotated@ =~= rotate_spec(cycle@, min_index as int));
        assert forall|j: int| 0 <= j < n implies rotated@[0] <= #[trigger] rotated@[j] by {
            let a = if j + min_index < n { j + min_index } else { j + min_index - n };
            assert(rotated@[j] == cycle@[a]);
        }
        *cycle = rotated;
    }

    /// The cycle through `from`, starting at its least element.
    fn get_cycle(&self, from: usize) -> (r: Vec<usize>)
        requires
            is_bijection(self.raw@),
            from < self.raw@.len(),
        ensures
            is_cycle(self.raw@, r@),
            r@.contains(from),
            starts_at_min(r@),
    {
        let ghost p = self.raw@;
        let n = self.raw.len();
        let mut cycle: Vec<usize> = vec![from];
        let mut value = self.raw[from];
        while value != from
            invariant
                p == self.raw@,
                n == p.len(),
                is_bijection(p),
                from < n,
                cycle@.len() >= 1,
                cycle@[0] == from,
                cycle@.no_duplicates(),
                forall|i: int| 0 <= i < cycle@.len() ==> #[trigger] cycle@[i] < n,
                forall|i: int|
                    0 <= i < cycle@.len() - 1 ==> #[trigger] p[cycle@[i] as int] == cycle@[i + 1],
                value == p[cycle@[cycle@.len() - 1] as int],
                cycle@.len() <= n,
            decreases n - cycle@.len(),
        {
            let ghost c = cycle@;
            let ghost last = c.len() - 1;
            assert(value < n);
            assert forall|j: int| 0 <= j < c.len() implies c[j] != value by {
                if j > 0 && c[j] == value {
                    assert(p[c[j - 1] as int] == c[j]);
                    assert(c[j - 1] < n && c[last] < n);
                    assert(j - 1 == last);
                }
            }
            cycle.push(value);
            assert(cycle@[cycle@.len() - 1] == value);
            proof {
                lemma_distinct_bounded(cycle@, n as nat);
            }
            value = self.raw[value];
        }
        let ghost before = cycle@;
        proof {
            assert(before.contains(from));
        }
        Self::normalize_cycle(&mut cycle);
        proof {
            let k = choose|k: int|
                0 <= k < before.len() && cycle@ == rotate_spec(before, k) && forall|i: int|
                    0 <= i < k ==> before[i] > before[k];
            lemma_rotate_cycle(p, before, k);
        }
        cycle
    }

    /// Computes the canonical cycle decomposition and keeps it.
    pub fn compute_cycles(&mut self)
        requires
            is_bijection(old(self).raw@),
        ensures
            final(self).raw@ == old(self).raw@,
            final(self).cycles.is_some(),
            is_cycle_decomposition(final(self).raw@, seqs_of(&final(self).cycles->Some_0)),
    {
        let ghost p = self.raw@;
        let n = self.raw.len();
        let mut cycles: Vec<Vec<usize>> = Vec::new();
        let mut i: usize = 0;
        while i < n
            invariant
                p == self.raw@,
                n == p.len(),
                is_bijection(p),
                i <= n,
                forall|k: int|
                    0 <= k < cycles@.len() ==> is_cycle(p, #[trigger] seqs_of(&cycles)[k])
                        && seqs_of(&cycles)[k].len() > 1 && starts_at_min(seqs_of(&cycles)[k]),
                forall|k1: int, k2: int|
                    0 <= k1 < k2 < cycles@.len() ==> #[trigger] seqs_of(&cycles)[k1][0]
                        < #[trigger] seqs_of(&cycles)[k2][0],
                forall|k: int| 0 <= k < cycles@.len() ==> #[trigger] seqs_of(&cycles)[k][0] < i,
                forall|x: usize| x < i && p[x as int] != x ==> covered(seqs_of(&cycles), x),
            decreases n - i,
        {
            let value = self.raw[i];
            let ghost cs = seqs_of(&cycles);
            if i != value {
                let seen = cycles_contain(&cycles, value);
                if !seen {
                    let c = self.get_cycle(value);
                    proof {
                        lemma_cycle_preimage(p, c@, i);
                        assert(c@[0] <= i);
                        if c@[0] < i {
                            let m = c@[0];
                            assert(c@.len() > 1) by {
                                if c@.len() == 1 {
                                    assert(c@[0] == i);
                                }
                            }
                            assert(p[m as int] == c@[1]);
                            assert(c@[1] != m);
                            assert(covered(cs, m));
                            let k = choose|k: int| 0 <= k < cs.len() && #[trigger] cs[k].contains(m);
                            let b = choose|b: int| 0 <= b < c@.len() && c@[b] == value;
                            lemma_cycle_contains_cycle(p, cs[k], c@, b);
                            assert(false);
                        }
                        assert(c@.len() > 1) by {
                            if c@.len() == 1 {
                                assert(p[c@[0] as int] == c@[0]);
                                assert(c@[0] == value);
                            }
                        }
                    }
                    cycles.push(c);
                    proof {
                        let cs2 = seqs_of(&cycles);
                        assert(cs2.len() == cs.len() + 1);
                        assert forall|k: int| 0 <= k < cs.len() implies #[trigger] cs2[k] == cs[k] by {}
                        assert(cs2[cs.len() as int] == c@);
                        assert forall|x: usize| x < i + 1 && p[x as int] != x implies covered(
                            cs2,
                            x,
                        ) by {
                            if x < i {
                                let k = choose|k: int| 0 <= k < cs.len() && #[trigger] cs[k].contains(x);
                                assert(cs2[k].contains(x));
                            } else {
                                assert(cs2[cs.len() as int].contains(x));
                            }
                        }
                    }
                } else {
                    proof {
                        let k = choose|k: int| 0 <= k < cs.len() && #[trigger] cs[k].contains(value);
                        lemma_cycle_preimage(p, cs[k], i);
                        assert forall|x: usize| x < i + 1 && p[x as int] != x implies covered(
                            cs,
                            x,
                        ) by {
                            if x == i {
                                assert(cs[k].contains(x));
                            }
                        }
                    }
                }
            }
            i += 1;
        }
        self.cycles = Some(cycles);
    }

    /// Builds a permutation from its images and computes its cycles.
    pub fn new_with_cycles(raw: Vec<usize>) -> (r: Self)
        requires
            is_bijection(raw@),
        ensures
            r.raw@ == raw@,
            r.cycles.is_some(),
            is_cycle_decomposition(r.raw@, seqs_of(&r.cycles->Some_0)),
    {
        let mut new = Permutation { raw, cycles: None };
        new.compute_cycles();
        new
    }

    /// The canonical cycle decomposition, computed on first use.
    #[verifier::rlimit(40)]
    pub fn get_cycles(&mut self) -> (r: Vec<Vec<usize>>)
        requires
            is_bijection(old(self).raw@),
            old(self).cycles.is_some() ==> is_cycle_decomposition(
                old(self).raw@,
                seqs_of(&old(self).cycles->Some_0),
            ),
        ensures
            final(self).raw@ == old(self).raw@,
            final(self).cycles.is_some(),
            is_cycle_decomposition(final(self).raw@, seqs_of(&r)),
            seqs_of(&final(self).cycles->Some_0) == seqs_of(&r),
    {
        if self.cycles.is_none() {
            self.compute_cycles();
        }
        match &self.cycles {
            Some(cycles) => {
                let r = cycles.clone();
                proof {
                    assert(seqs_of(&r) =~= seqs_of(&cycles));
                }
                r
            },
            None => Vec::new(),
        }
    }

    /// The `n`-th power of this permutation, as a new value; the zeroth
    /// power is the identity.
    pub fn _nth_power_of(&self, n: usize) -> (r: Self)
        requires
            maps_into(self.raw@),
        ensures
            r.raw@ == power_spec(self.raw@, n as nat),
    {
        if n == 0 {
            return Permutation { raw: identity_raw(self.raw.len()), cycles: None };
        }
        let mut self_copy = Permutation { raw: self.raw.clone(), cycles: None };
        let mut k: usize = 1;
        while k < n
            invariant
                1 <= k,
                maps_into(self.raw@),
                self_copy.raw@ == power_spec(self.raw@, k as nat),
                maps_into(self_copy.raw@),
                self_copy.raw@.len() == self.raw@.len(),
                k == 1 || k <= n,
            decreases n - k,
        {
            let _ = self_copy._compose_with(self);
            proof {
                lemma_compose_maps_into(self.raw@, power_spec(self.raw@, k as nat));
            }
            k += 1;
        }
        assert(power_spec(self.raw@, 1) == self.raw@);
        self_copy
    }

    /// Replaces this permutation by its `n`-th power; the zeroth power is
    /// the identity.
    pub fn _nth_power(&mut self, n: usize)
        requires
            maps_into(old(self).raw@),
        ensures
            final(self).raw@ == power_spec(old(self).raw@, n as nat),
    {
        if n == 0 {
            self.raw = identity_raw(self.raw.len());
            self.cycles = None;
            return;
        }
        let self_copy = Permutation { raw: self.raw.clone(), cycles: None };
        let mut k: usize = 1;
        while k < n
            invariant
                1 <= k,
                maps_into(self_copy.raw@),
                self_copy.raw@ == old(self).raw@,
                self.raw@ == power_spec(self_copy.raw@, k as nat),
                maps_into(self.raw@),
                self.raw@.len() == self_copy.raw@.len(),
                k == 1 || k <= n,
            decreases n - k,
        {
            let ghost before = self.raw@;
            let _ = self._compose_with(&self_copy);
            proof {
                lemma_compose_maps_into(self_copy.raw@, before);
            }
            k += 1;
        }
        assert(power_spec(self_copy.raw@, 1) == self_copy.raw@);
    }

    /// Writes the images of one cycle into `raw`.
    fn _from_cycle(cycle: &Vec<usize>, raw: &mut Vec<usize>)
        requires
            cycle@.len() >= 1,
            cycle@.no_duplicates(),
            forall|i: int| 0 <= i < cycle@.len() ==> #[trigger] cycle@[i] < old(raw)@.len(),
        ensures
            final(raw)@.len() == old(raw)@.len(),
            forall|i: int|
                0 <= i < cycle@.len() ==> final(raw)@[#[trigger] cycle@[i] as int] == next_in(
                    cycle@,
                    i,
                ),
            forall|x: int|
                0 <= x < old(raw)@.len() && !cycle@.contains(x as usize) ==> #[trigger] final(raw)@[x] == old(raw)@[x],
    {
        let first = cycle[0];
        let mut last = first;
        let mut i: usize = 1;
        while i < cycle.len()
            invariant
                1 <= i <= cycle@.len(),
                cycle@.no_duplicates(),
                forall|j: int| 0 <= j < cycle@.len() ==> #[trigger] cycle@[j] < old(raw)@.len(),
                raw@.len() == old(raw)@.len(),
                last == cycle@[i - 1],
                first == cycle@[0],
                forall|j: int| 0 <= j < i - 1 ==> raw@[#[trigger] cycle@[j] as int] == cycle@[j + 1],
                forall|x: int|
                    0 <= x < old(raw)@.len() && !cycle@.subrange(0, i - 1).contains(x as usize)
                        ==> #[trigger] raw@[x] == old(raw)@[x],
            decreases cycle@.len() - i,
        {
            let current = cycle[i];
            raw.set(last, current);
            proof {
                assert forall|x: int|
                    0 <= x < old(raw)@.len() && !cycle@.subrange(0, i as int).contains(
                        x as usize,
                    ) implies #[trigger] raw@[x] == old(raw)@[x] by {
                    assert(cycle@.subrange(0, i as int)[i - 1] == last);
                    if cycle@.subrange(0, i - 1).contains(x as usize) {
                        let a = choose|a: int| 0 <= a < i - 1 && #[trigger] cycle@.subrange(0, i - 1)[a] == x as usize;
                        assert(cycle@.subrange(0, i as int)[a] == x as usize);
                    }
                }
                assert forall|j: int| 0 <= j < i implies raw@[#[trigger] cycle@[j] as int] == cycle@[j + 1] by {
                    if j < i - 1 {
                        assert(cycle@[j] != cycle@[i - 1]);
                    }
                }
            }
            last = current;
            i += 1;
        }
        raw.set(last, first);
        proof {
            let n = cycle@.len();
            assert forall|j: int| 0 <= j < n implies final(raw)@[#[trigger] cycle@[j] as int] == next_in(cycle@, j) by {
                if j < n - 1 {
                    assert(cycle@[j] != cycle@[n - 1]);
                }
            }
            assert forall|x: int|
                0 <= x < old(raw)@.len() && !cycle@.contains(x as usize) implies #[trigger] final(raw)@[x] == old(raw)@[x] by {
                if cycle@.subrange(0, n - 1).contains(x as usize) {
                    let a = choose|a: int| 0 <= a < n - 1 && #[trigger] cycle@.subrange(0, n - 1)[a] == x as usize;
                    assert(cycle@[a] == x as usize);
                }
            }
        }
    }

    /// Builds a permutation of `0..size` from disjoint cycles; points that
    /// no cycle names are fixed. The cycles longer than one point are kept.
    pub fn _from_cycles(cycles: Vec<Vec<usize>>, size: usize) -> (r: Self)
        requires
            disjoint_cycles(seqs_of(&cycles), size as nat),
        ensures
            r.raw@.len() == size,
            realizes_cycles(r.raw@, seqs_of(&cycles)),
            r.cycles.is_some(),
            seqs_of(&r.cycles->Some_0) == nontrivial(seqs_of(&cycles)),
            forall|x: int|
                0 <= x < size && !(exists|k: int| 0 <= k < cycles@.len() && #[trigger] seqs_of(&cycles)[k].contains(x as usize))
                    ==> r.raw@[x] == x,
    {
        let ghost cs = seqs_of(&cycles);
        let mut raw: Vec<usize> = identity_raw(size);
        let mut kept: Vec<Vec<usize>> = Vec::new();
        let mut k: usize = 0;
        while k < cycles.len()
            invariant
                cs == seqs_of(&cycles),
                disjoint_cycles(cs, size as nat),
                k <= cs.len(),
                raw@.len() == size,
                realizes_cycles(raw@, cs.take(k as int)),
                seqs_of(&kept) == nontrivial(cs.take(k as int)),
                forall|y: int|
                    0 <= y < size && !(exists|a: int| 0 <= a < k && #[trigger] cs[a].contains(y as usize)) ==> raw@[y] == y,
            decreases cs.len() - k,
        {
            let cycle = &cycles[k];
            assert(cs[k as int] == cycle@);
            let ghost before = raw@;
            Self::_from_cycle(cycle, &mut raw);
            proof {
                let t = cs.take(k + 1);
                assert forall|k2: int, i: int|
                    0 <= k2 < t.len() && 0 <= i < t[k2].len() implies raw@[#[trigger] t[k2][i] as int]
                        == next_in(t[k2], i) by {
                    if k2 < k {
                        assert(cs.take(k as int)[k2] == t[k2]);
                        assert(before[t[k2][i] as int] == next_in(t[k2], i));
                        if cycle@.contains(t[k2][i]) {
                            let a = choose|a: int| 0 <= a < cycle@.len() && cycle@[a] == t[k2][i];
                            assert(cs[k as int][a] != cs[k2][i]);
                        }
                    }
                }
            }
            proof {
                assert forall|y: int|
                    0 <= y < size && !(exists|a: int| 0 <= a < k + 1 && #[trigger] cs[a].contains(y as usize)) implies raw@[y] == y by {
                    assert(!cs[k as int].contains(y as usize));
                    assert(!(exists|a: int| 0 <= a < k && #[trigger] cs[a].contains(y as usize)));
                }
            }
            if cycle.len() > 1 {
                kept.push(cycle.clone());
            }
            proof {
                assert(cs.take(k + 1).drop_last() =~= cs.take(k as int));
                assert(seqs_of(&kept) =~= nontrivial(cs.take(k + 1)));
            }
            k += 1;
        }
        assert(cs.take(cs.len() as int) =~= cs);
        Permutation { raw, cycles: Some(kept) }
    }

    /// The order of the permutation, the size of the cyclic group it
    /// generates: the least common multiple of its cycle lengths.
    pub fn _get_order(&mut self) -> (r: usize)
        requires
            is_bijection(old(self).raw@),
            old(self).cycles.is_some() ==> is_cycle_decomposition(
                old(self).raw@,
                seqs_of(&old(self).cycles->Some_0),
            ),
            order_fits(old(self).raw@),
        ensures
            final(self).raw@ == old(self).raw@,
            final(self).cycles.is_some(),
            is_cycle_decomposition(final(self).raw@, seqs_of(&final(self).cycles->Some_0)),
            is_order(seqs_of(&final(self).cycles->Some_0), r as int),
    {
        let cycles = self.get_cycles();
        let ghost cs = seqs_of(&cycles);
        proof {
            assert(is_cycle_decomposition(self.raw@, cs));
        }
        let ghost bound = choose|m: int| 1 <= m <= usize::MAX && #[trigger] common_multiple(cs, m);
        let mut size: usize = 1;
        let mut k: usize = 0;
        while k < cycles.len()
            invariant
                cs == seqs_of(&cycles),
                1 <= bound <= usize::MAX,
                common_multiple(cs, bound),
                k <= cs.len(),
                size >= 1,
                forall|j: int| 0 <= j < k ==> size as int % (#[trigger] cs[j]).len() as int == 0,
                forall|m: int|
                    (forall|j: int| 0 <= j < k ==> m % (#[trigger] cs[j]).len() as int == 0) ==> #[trigger] (m % size as int) == 0,
                forall|j: int| 0 <= j < cs.len() ==> (#[trigger] cs[j]).len() >= 1,
            decreases cs.len() - k,
        {
            let len = cycles[k].len();
            assert(cs[k as int].len() == len);
            proof {
                assert(bound % size as int == 0) by {
                    assert forall|j: int| 0 <= j < k implies bound % (#[trigger] cs[j]).len() as int == 0 by {}
                }
                assert(bound % len as int == 0);
            }
            let next = lcm_of(size, len);
            proof {
                assert forall|m: int|
                    (forall|j: int| 0 <= j < k + 1 ==> m % (#[trigger] cs[j]).len() as int == 0) implies #[trigger] (m % next as int) == 0 by {
                    assert forall|j: int| 0 <= j < k implies m % (#[trigger] cs[j]).len() as int == 0 by {}
                    assert(m % size as int == 0);
                    assert(m % cs[k as int].len() as int == 0);
                }
                assert forall|j: int| 0 <= j < k + 1 implies next as int % (#[trigger] cs[j]).len() as int == 0 by {
                    if j < k {
                        lemma_mod_transitive(next as int, size as int, cs[j].len() as int);
                    }
                }
            }
            size = next;
            k += 1;
        }
        proof {
            assert forall|m: int| m >= 1 && #[trigger] common_multiple(cs, m) implies size <= m by {
                assert forall|j: int| 0 <= j < k implies m % (#[trigger] cs[j]).len() as int == 0 by {}
                assert(m % size as int == 0);
                lemma_mod_le(m, size as int);
            }
        }
        size
    }

    /// Replaces this permutation by its power `n` reduced modulo its
    /// order; a multiple of the order gives the identity.
    pub fn _nth_power_mod(&mut self, n: usize)
        requires
            is_bijection(old(self).raw@),
            old(self).cycles.is_some() ==> is_cycle_decomposition(
                old(self).raw@,
                seqs_of(&old(self).cycles->Some_0),
            ),
            order_fits(old(self).raw@),
        ensures
            exists|cs: Seq<Seq<usize>>, ord: int|
                is_cycle_decomposition(old(self).raw@, cs) && #[trigger] is_order(cs, ord)
                    && final(self).raw@ == power_spec(old(self).raw@, (n as int % ord) as nat),
    {
        let order = self._get_order();
        let ghost cs = seqs_of(&self.cycles->Some_0);
        let reduced = n % order;
        self._nth_power(reduced);
        assert(is_order(cs, order as int));
    }

    /// This permutation's power `n` reduced modulo its order, as a new value.
    pub fn _nth_power_of_mod(&self, n: usize) -> (r: Self)
        requires
            is_bijection(self.raw@),
            self.cycles.is_some() ==> is_cycle_decomposition(self.raw@, seqs_of(&self.cycles->Some_0)),
            order_fits(self.raw@),
        ensures
            exists|cs: Seq<Seq<usize>>, ord: int|
                is_cycle_decomposition(self.raw@, cs) && #[trigger] is_order(cs, ord) && r.raw@
                    == power_spec(self.raw@, (n as int % ord) as nat),
    {
        let mut self_copy = Permutation { raw: self.raw.clone(), cycles: None };
        let order = self_copy._get_order();
        let ghost cs = seqs_of(&self_copy.cycles->Some_0);
        let reduced = n % order;
        let r = self_copy._nth_power_of(reduced);
        assert(is_order(cs, order as int));
        r
    }

    /// Builds a permutation of `0..size` from disjoint cycles; points that
    /// no cycle names are fixed. The cycles are not kept.
    pub fn from_cycles(cycles: Vec<Vec<usize>>, size: usize) -> (r: Self)
        requires
            disjoint_cycles(seqs_of(&cycles), size as nat),
        ensures
            r.raw@.len() == size,
            realizes_cycles(r.raw@, seqs_of(&cycles)),
            forall|x: int|
                0 <= x < size && !(exists|k: int| 0 <= k < cycles@.len() && #[trigger] seqs_of(&cycles)[k].contains(x as usize))
                    ==> r.raw@[x] == x,
            r.cycles.is_none(),
    {
        let ghost cs = seqs_of(&cycles);
        let mut raw: Vec<usize> = Vec::new();
        let mut x: usize = 0;
        while x < size
            invariant
                x <= size,
                raw@.len() == x,
                forall|y: int| 0 <= y < x ==> #[trigger] raw@[y] == y,
            decreases size - x,
        {
            raw.push(x);
            x += 1;
        }
        let mut k: usize = 0;
        while k < cycles.len()
            invariant
                cs == seqs_of(&cycles),
                disjoint_cycles(cs, size as nat),
                k <= cs.len(),
                raw@.len() == size,
                realizes_cycles(raw@, cs.take(k as int)),
                forall|y: int|
                    0 <= y < size && !(exists|a: int| 0 <= a < k && #[trigger] cs[a].contains(y as usize)) ==> raw@[y] == y,
            decreases cs.len() - k,
        {
            let cycle = &cycles[k];
            assert(cs[k as int] == cycle@);
            let ghost before = raw@;
            Self::_from_cycle(cycle, &mut raw);
            proof {
                let t = cs.take(k + 1);
                assert forall|k2: int, i: int|
                    0 <= k2 < t.len() && 0 <= i < t[k2].len() implies raw@[#[trigger] t[k2][i] as int]
                        == next_in(t[k2], i) by {
                    if k2 < k {
                        assert(cs.take(k as int)[k2] == t[k2]);
                        assert(before[t[k2][i] as int] == next_in(t[k2], i));
                        if cycle@.contains(t[k2][i]) {
                            let a = choose|a: int| 0 <= a < cycle@.len() && cycle@[a] == t[k2][i];
                            assert(cs[k as int][a] != cs[k2][i]);
                        }
                    }
                }
                assert forall|y: int|
                    0 <= y < size && !(exists|a: int| 0 <= a < k + 1 && #[trigger] cs[a].contains(y as usize)) implies raw@[y] == y by {
                    assert(!cs[k as int].contains(y as usize));
                    assert(!(exists|a: int| 0 <= a < k && #[trigger] cs[a].contains(y as usize)));
                }
            }
            k += 1;
        }
        assert(cs.take(cs.len() as int) =~= cs);
        Permutation { raw, cycles: None }
    }

    /// Whether every point is fixed.
    pub fn is_identity(&self) -> (r: bool)
        ensures
            r == is_identity_spec(self.raw@),
    {
        let mut i: usize = 0;
        while i < self.raw.len()
            invariant
                i <= self.raw@.len(),
                forall|k: int| 0 <= k < i ==> #[trigger] self.raw@[k] == k,
            decreases self.raw@.len() - i,
        {
            if self.raw[i] != i {
                return false;
            }
            i += 1;
        }
        true
    }
}

impl From<Vec<usize>> for Permutation {
    fn from(raw: Vec<usize>) -> (r: Self) {
        Permutation { raw, cycles: None }
    }
}

impl vstd::std_specs::convert::FromSpecImpl<Vec<usize>> for Permutation {
    open spec fn obeys_from_spec() -> bool {
        true
    }

    open spec fn from_spec(raw: Vec<usize>) -> Self {
        Permutation { raw, cycles: None }
    }
}

/// The identity on `0..n`.
fn identity_raw(n: usize) -> (r: Vec<usize>)
    ensures
        r@ == identity_spec(n as nat),
{
    let mut raw: Vec<usize> = Vec::new();
    let mut x: usize = 0;
    while x < n
        invariant
            x <= n,
            raw@.len() == x,
            forall|y: int| 0 <= y < x ==> #[trigger] raw@[y] == y,
        decreases n - x,
    {
        raw.push(x);
        x += 1;
    }
    assert(raw@ =~= identity_spec(n as nat));
    raw
}

/// The cycles as sequences.
pub open spec fn seqs_of(cycles: &Vec<Vec<usize>>) -> Seq<Seq<usize>> {
    cycles@.map_values(|c: Vec<usize>| c@)
}

/// Whether some cycle holds `value`.
fn cycles_contain(cycles: &Vec<Vec<usize>>, value: usize) -> (r: bool)
    ensures
        r == covered(seqs_of(cycles), value),
{
    let mut k: usize = 0;
    while k < cycles.len()
        invariant
            k <= cycles@.len(),
            forall|j: int| 0 <= j < k ==> !(#[trigger] seqs_of(cycles)[j]).contains(value),
        decreases cycles@.len() - k,
    {
        let cycle = &cycles[k];
        assert(seqs_of(cycles)[k as int] == cycle@);
        let mut j: usize = 0;
        while j < cycle.len()
            invariant
                seqs_of(cycles)[k as int] == cycle@,
                k < cycles@.len(),
                j <= cycle@.len(),
                forall|a: int| 0 <= a < j ==> cycle@[a] != value,
            decreases cycle@.len() - j,
        {
            if cycle[j] == value {
                assert(seqs_of(cycles)[k as int][j as int] == value);
                assert(seqs_of(cycles)[k as int].contains(value));
                return true;
            }
            j += 1;
        }
        assert(!seqs_of(cycles)[k as int].contains(value));
        k += 1;
    }
    false
}

proof fn lemma_mod_transitive(a: int, b: int, c: int)
    requires
        b >= 1,
        c >= 1,
        a % b == 0,
        b % c == 0,
    ensures
        a % c == 0,
{
    vstd::arithmetic::div_mod::lemma_mod_mod(a, b, c);
    assert(a == b * (a / b)) by {
        vstd::arithmetic::div_mod::lemma_fundamental_div_mod(a, b);
    }
    assert(b == c * (b / c)) by {
        vstd::arithmetic::div_mod::lemma_fundamental_div_mod(b, c);
    }
    assert(a == c * ((b / c) * (a / b))) by (nonlinear_arith)
        requires
            a == b * (a / b),
            b == c * (b / c),
    ;
    vstd::arithmetic::div_mod::lemma_mod_multiples_basic((b / c) * (a / b), c);
    assert(c * ((b / c) * (a / b)) == ((b / c) * (a / b)) * c) by (nonlinear_arith);
}

proof fn lemma_mod_le(m: int, r: int)
    requires
        m >= 1,
        r >= 1,
        m % r == 0,
    ensures
        r <= m,
{
    vstd::arithmetic::div_mod::lemma_fundamental_div_mod(m, r);
    assert(m == r * (m / r));
    if m / r <= 0 {
        assert(r * (m / r) <= 0) by (nonlinear_arith)
            requires
                r >= 1,
                m / r <= 0,
        ;
    } else {
        assert(r * (m / r) >= r) by (nonlinear_arith)
            requires
                r >= 1,
                m / r >= 1,
        ;
    }
}

/// Relies on num-integer's `Integer::lcm`: the least common multiple,
/// which divides every common multiple and, when some common multiple
/// fits, fits too.
#[verifier::external_body]
fn lcm_of(a: usize, b: usize) -> (r: usize)
    requires
        a >= 1,
        b >= 1,
        exists|m: int| 1 <= m <= usize::MAX && #[trigger] (m % a as int) == 0 && m % b as int == 0,
    ensures
        r >= 1,
        r as int % a as int == 0,
        r as int % b as int == 0,
        forall|m: int| m % a as int == 0 && m % b as int == 0 ==> #[trigger] (m % r as int) == 0,
{
    num::Integer::lcm(&a, &b)
}

/// Relies on itertools' `position_min`: the position of the first least element.
#[verifier::external_body]
fn position_of_min(v: &Vec<usize>) -> (r: usize)
    requires
        v@.len() >= 1,
    ensures
        r < v@.len(),
        forall|i: int| 0 <= i < v@.len() ==> v@[r as int] <= #[trigger] v@[i],
        forall|i: int| 0 <= i < r ==> #[trigger] v@[i] > v@[r as int],
{
    v.iter().position_min().unwrap()
}

} // verus!
