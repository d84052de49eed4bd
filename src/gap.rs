//! Reading conjugacy-class representatives printed by a computer-algebra
//! system: one list of generators per line, `[ g1, g2, ... ]`, each
//! generator a product of cycles in 1-based cycle notation `(1, 2, 3)(4, 5)`.
use crate::mus::{digits_value, is_digit};
use crate::permutation::{disjoint_cycles, realizes_cycles, seqs_of, Permutation};
use crate::VertexIndex;
use vstd::prelude::*;

verus! {

/// Why the text could not be read.
#[derive(Debug, Clone, Copy, PartialEq, Eq, Structural)]
pub enum GapParseError {
    /// The text does not follow the notation.
    Malformed,
    /// A permutation names a point outside `1..=size` or a point twice.
    InvalidCycles,
}

/// Blank: space, tab, carriage return or newline.
pub open spec fn is_blank(b: u8) -> bool {
    b == 32 || b == 9 || b == 13 || b == 10
}

/// The first position at or after `i` that is not blank.
pub open spec fn blank_end(s: Seq<u8>, i: int) -> int
    decreases s.len() - i,
{
    if 0 <= i < s.len() && is_blank(s[i]) {
        blank_end(s, i + 1)
    } else {
        i
    }
}

/// The first position at or after `i` that is not a digit.
pub open spec fn digit_end(s: Seq<u8>, i: int) -> int
    decreases s.len() - i,
{
    if 0 <= i < s.len() && is_digit(s[i]) {
        digit_end(s, i + 1)
    } else {
        i
    }
}

/// A signed 32-bit integer at `i`: an optional sign and digits; its value
/// and the position after it.
pub open spec fn int_at(s: Seq<u8>, i: int) -> Option<(int, int)> {
    let negative = 0 <= i < s.len() && s[i] == 45;
    let signed = 0 <= i < s.len() && (s[i] == 45 || s[i] == 43);
    let j = if signed {
        i + 1
    } else {
        i
    };
    let e = digit_end(s, j);
    if e == j {
        None
    } else {
        let v = digits_value(s.subrange(j, e));
        let value = if negative {
            -v
        } else {
            v
        };
        if -2147483648 <= value <= 2147483647 {
            Some((value, e))
        } else {
            None
        }
    }
}

/// The points of a cycle from `i` on (after its `(`), each shifted down by
/// one, and the position after the closing `)`.
pub open spec fn cycle_items(s: Seq<u8>, i: int) -> Option<(Seq<int>, int)>
    decreases s.len() - i,
{
    let p = blank_end(s, i);
    match int_at(s, p) {
        None => None,
        Some((v, q)) => if q < i || q >= s.len() || v - 1 < -2147483648 {
            None
        } else if s[q] == 44 {
            match cycle_items(s, q + 1) {
                Some((rest, e)) => Some((seq![v - 1] + rest, e)),
                None => None,
            }
        } else if s[q] == 41 {
            Some((seq![v - 1], q + 1))
        } else {
            None
        },
    }
}

/// A cycle at `i`, after optional blanks.
pub open spec fn cycle_at(s: Seq<u8>, i: int) -> Option<(Seq<int>, int)> {
    let p = blank_end(s, i);
    if 0 <= p < s.len() && s[p] == 40 {
        cycle_items(s, p + 1)
    } else {
        None
    }
}

/// Further cycles from `i` on, as many as follow.
pub open spec fn cycles_more(s: Seq<u8>, i: int) -> (Seq<Seq<int>>, int)
    decreases s.len() - i,
{
    match cycle_at(s, i) {
        Some((c, e)) => if e > i && i >= 0 && e <= s.len() {
            let (rest, f) = cycles_more(s, e);
            (seq![c] + rest, f)
        } else {
            (seq![], i)
        },
        None => (seq![], i),
    }
}

/// A permutation at `i`: one cycle or more.
pub open spec fn perm_at(s: Seq<u8>, i: int) -> Option<(Seq<Seq<int>>, int)> {
    match cycle_at(s, i) {
        None => None,
        Some((c, e)) => {
            let (rest, f) = cycles_more(s, e);
            Some((seq![c] + rest, f))
        },
    }
}

/// Further permutations from `i` on, each after `,` and blanks.
pub open spec fn perms_more(s: Seq<u8>, i: int) -> (Seq<Seq<Seq<int>>>, int)
    decreases s.len() - i,
{
    if 0 <= i < s.len() && s[i] == 44 {
        match perm_at(s, blank_end(s, i + 1)) {
            Some((p, e)) => if e > i && e <= s.len() {
                let (rest, f) = perms_more(s, e);
                (seq![p] + rest, f)
            } else {
                (seq![], i)
            },
            None => (seq![], i),
        }
    } else {
        (seq![], i)
    }
}

/// A list of generators at `i`: `[`, blanks, permutations separated by
/// `,` and blanks, blanks, `]`.
pub open spec fn gens_at(s: Seq<u8>, i: int) -> Option<(Seq<Seq<Seq<int>>>, int)> {
    if 0 <= i < s.len() && s[i] == 91 {
        match perm_at(s, blank_end(s, i + 1)) {
            None => None,
            Some((p, e)) => {
                let (rest, f) = perms_more(s, e);
                let q = blank_end(s, f);
                if 0 <= q < s.len() && s[q] == 93 {
                    Some((seq![p] + rest, q + 1))
                } else {
                    None
                }
            },
        }
    } else {
        None
    }
}

/// The position after a line ending at `i`.
pub open spec fn line_end_at(s: Seq<u8>, i: int) -> Option<int> {
    if 0 <= i < s.len() && s[i] == 10 {
        Some(i + 1)
    } else if 0 <= i && i + 1 < s.len() && s[i] == 13 && s[i + 1] == 10 {
        Some(i + 2)
    } else {
        None
    }
}

/// Further lists, one per line, as many as follow.
pub open spec fn reps_more(s: Seq<u8>, i: int) -> Seq<Seq<Seq<Seq<int>>>>
    decreases s.len() - i,
{
    match line_end_at(s, i) {
        Some(j) => match gens_at(s, j) {
            Some((g, e)) => if e > i && e <= s.len() {
                seq![g] + reps_more(s, e)
            } else {
                seq![]
            },
            None => seq![],
        },
        None => seq![],
    }
}

/// Cycles that name points of `0..size`, none twice.
pub open spec fn valid_cycles(cs: Seq<Seq<int>>, size: nat) -> bool {
    &&& forall|k: int, i: int| 0 <= k < cs.len() && 0 <= i < cs[k].len() ==> 0 <= #[trigger] cs[k][i] < size
    &&& disjoint_cycles(as_points(cs), size)
}

/// The cycles as points.
pub open spec fn as_points(cs: Seq<Seq<int>>) -> Seq<Seq<usize>> {
    cs.map_values(|c: Seq<int>| c.map_values(|v: int| v as usize))
}

/// `p` is the permutation of `0..size` with these cycles and every other
/// point fixed.
pub open spec fn permutation_of(cs: Seq<Seq<int>>, size: nat, p: Permutation) -> bool {
    &&& p.raw@.len() == size
    &&& realizes_cycles(p.raw@, as_points(cs))
    &&& forall|x: int|
        0 <= x < size && !(exists|k: int| 0 <= k < cs.len() && #[trigger] as_points(cs)[k].contains(x as usize)) ==> p.raw@[x] == x
}

proof fn lemma_blank_end(s: Seq<u8>, i: int)
    requires
        0 <= i,
    ensures
        i <= blank_end(s, i),
        blank_end(s, i) <= s.len() || blank_end(s, i) == i,
    decreases s.len() - i,
{
    if 0 <= i < s.len() && is_blank(s[i]) {
        lemma_blank_end(s, i + 1);
    }
}

pub(crate) fn skip_blanks(s: &[u8], i: usize) -> (r: usize)
    requires
        i <= s@.len(),
    ensures
        r == blank_end(s@, i as int),
        i <= r <= s@.len(),
{
    let mut j = i;
    while j < s.len() && (s[j] == 32 || s[j] == 9 || s[j] == 13 || s[j] == 10)
        invariant
            i <= j <= s@.len(),
            blank_end(s@, j as int) == blank_end(s@, i as int),
        decreases s@.len() - j,
    {
        j += 1;
    }
    j
}

pub(crate) fn skip_digits(s: &[u8], i: usize) -> (r: usize)
    requires
        i <= s@.len(),
    ensures
        r == digit_end(s@, i as int),
        i <= r <= s@.len(),
        forall|k: int| i <= k < r ==> is_digit(#[trigger] s@[k]),
{
    let mut j = i;
    while j < s.len() && 48 <= s[j] && s[j] <= 57
        invariant
            i <= j <= s@.len(),
            digit_end(s@, j as int) == digit_end(s@, i as int),
            forall|k: int| i <= k < j ==> is_digit(#[trigger] s@[k]),
        decreases s@.len() - j,
    {
        j += 1;
    }
    j
}

/// The value of the digits `s[j..e]`, if it is at most `2^31`.
pub(crate) fn small_value(s: &[u8], j: usize, e: usize) -> (r: Option<i64>)
    requires
        j <= e <= s@.len(),
        forall|k: int| j <= k < e ==> is_digit(#[trigger] s@[k]),
    ensures
        r is Some <==> digits_value(s@.subrange(j as int, e as int)) <= 2147483648,
        r is Some ==> r->Some_0 == digits_value(s@.subrange(j as int, e as int)),
        r is Some ==> 0 <= r->Some_0 <= 2147483648,
{
    let ghost d = s@.subrange(j as int, e as int);
    let mut value: i64 = 0;
    let mut k: usize = j;
    while k < e
        invariant
            j <= k <= e <= s@.len(),
            d == s@.subrange(j as int, e as int),
            forall|a: int| j <= a < e ==> is_digit(#[trigger] s@[a]),
            0 <= value <= 2147483648,
            value == digits_value(d.take(k - j)),
        decreases e - k,
    {
        proof {
            assert(d.take(k - j + 1).drop_last() =~= d.take(k - j));
            assert(d.take(k - j + 1).last() == s@[k as int]);
            assert(is_digit(s@[k as int]));
        }
        let next = value * 10 + (s[k] - 48) as i64;
        if next > 2147483648 {
            proof {
                assert forall|a: int| 0 <= a < d.len() implies is_digit(#[trigger] d[a]) by {
                    assert(d[a] == s@[j + a]);
                }
                lemma_digits_grow(d, k - j + 1);
            }
            return None;
        }
        value = next;
        k += 1;
    }
    assert(d.take(k - j) =~= d);
    Some(value)
}

/// A longer run of digits is worth at least as much as its prefix.
proof fn lemma_digits_grow(d: Seq<u8>, n: int)
    requires
        0 <= n <= d.len(),
        forall|a: int| 0 <= a < d.len() ==> is_digit(#[trigger] d[a]),
    ensures
        digits_value(d) >= digits_value(d.take(n)),
        digits_value(d.take(n)) >= 0,
    decreases d.len(),
{
    if n == d.len() {
        assert(d.take(n) =~= d);
        lemma_digits_nonneg(d);
    } else {
        let prev = d.drop_last();
        assert forall|a: int| 0 <= a < prev.len() implies is_digit(#[trigger] prev[a]) by {
            assert(prev[a] == d[a]);
        }
        lemma_digits_grow(prev, n);
        assert(prev.take(n) =~= d.take(n));
        lemma_digits_nonneg(prev);
        assert(is_digit(d[d.len() - 1]));
    }
}

proof fn lemma_digits_nonneg(d: Seq<u8>)
    requires
        forall|a: int| 0 <= a < d.len() ==> is_digit(#[trigger] d[a]),
    ensures
        digits_value(d) >= 0,
    decreases d.len(),
{
    if d.len() > 0 {
        let prev = d.drop_last();
        assert forall|a: int| 0 <= a < prev.len() implies is_digit(#[trigger] prev[a]) by {
            assert(prev[a] == d[a]);
        }
        lemma_digits_nonneg(prev);
        assert(is_digit(d[d.len() - 1]));
    }
}

/// The integer at `i`.
pub(crate) fn read_int(s: &[u8], i: usize) -> (r: Option<(i64, usize)>)
    requires
        i <= s@.len(),
    ensures
        match int_at(s@, i as int) {
            None => r is None,
            Some((v, e)) => r is Some && r->Some_0.0 == v && r->Some_0.1 == e,
        },
        r is Some ==> i < r->Some_0.1 <= s@.len(),
{
    let negative = i < s.len() && s[i] == 45;
    let signed = i < s.len() && (s[i] == 45 || s[i] == 43);
    let j = if signed { i + 1 } else { i };
    let e = skip_digits(s, j);
    if e == j {
        return None;
    }
    match small_value(s, j, e) {
        None => None,
        Some(v) => {
            let value = if negative { -v } else { v };
            if -2147483648 <= value && value <= 2147483647 {
                Some((value, e))
            } else {
                None
            }
        },
    }
}

/// Points as integers.
pub open spec fn ints(v: Seq<VertexIndex>) -> Seq<int> {
    v.map_values(|x: VertexIndex| x as int)
}

/// Cycles as integer sequences.
pub open spec fn cycles_view(v: Seq<Vec<VertexIndex>>) -> Seq<Seq<int>> {
    v.map_values(|c: Vec<VertexIndex>| ints(c@))
}

/// Generator lists as cycle sequences.
pub open spec fn gens_view(v: Seq<Vec<Vec<VertexIndex>>>) -> Seq<Seq<Seq<int>>> {
    v.map_values(|g: Vec<Vec<VertexIndex>>| cycles_view(g@))
}

/// Lines of generator lists.
pub open spec fn reps_view(v: Seq<Vec<Vec<Vec<VertexIndex>>>>) -> Seq<Seq<Seq<Seq<int>>>> {
    v.map_values(|r: Vec<Vec<Vec<VertexIndex>>>| gens_view(r@))
}

fn read_cycle_items(s: &[u8], i: usize) -> (r: Option<(Vec<VertexIndex>, usize)>)
    requires
        i <= s@.len(),
    ensures
        match cycle_items(s@, i as int) {
            None => r is None,
            Some((vs, e)) => r is Some && ints(r->Some_0.0@) == vs && r->Some_0.1 == e,
        },
    decreases s@.len() - i,
{
    let p = skip_blanks(s, i);
    match read_int(s, p) {
        None => None,
        Some((v, q)) => {
            if q < i || q >= s.len() || v - 1 < -2147483648 {
                return None;
            }
            let point = (v - 1) as VertexIndex;
            if s[q] == 44 {
                match read_cycle_items(s, q + 1) {
                    Some((rest, e)) => {
                        let mut rest = rest;
                        let ghost before = rest@;
                        rest.insert(0, point);
                        assert(ints(rest@) =~= seq![v - 1] + ints(before));
                        Some((rest, e))
                    },
                    None => None,
                }
            } else if s[q] == 41 {
                let mut single: Vec<VertexIndex> = Vec::new();
                single.push(point);
                assert(ints(single@) =~= seq![v - 1]);
                Some((single, q + 1))
            } else {
                None
            }
        },
    }
}

fn read_cycle(s: &[u8], i: usize) -> (r: Option<(Vec<VertexIndex>, usize)>)
    requires
        i <= s@.len(),
    ensures
        match cycle_at(s@, i as int) {
            None => r is None,
            Some((vs, e)) => r is Some && ints(r->Some_0.0@) == vs && r->Some_0.1 == e,
        },
{
    let p = skip_blanks(s, i);
    if p < s.len() && s[p] == 40 {
        read_cycle_items(s, p + 1)
    } else {
        None
    }
}

fn read_cycles_more(s: &[u8], i: usize) -> (r: (Vec<Vec<VertexIndex>>, usize))
    requires
        i <= s@.len(),
    ensures
        cycles_view(r.0@) == cycles_more(s@, i as int).0,
        r.1 == cycles_more(s@, i as int).1,
        r.1 <= s@.len(),
    decreases s@.len() - i,
{
    match read_cycle(s, i) {
        Some((c, e)) => {
            if e > i && e <= s.len() {
                let (rest, f) = read_cycles_more(s, e);
                let mut rest = rest;
                let ghost before = rest@;
                let ghost cv = ints(c@);
                rest.insert(0, c);
                assert(cycles_view(rest@) =~= seq![cv] + cycles_view(before));
                (rest, f)
            } else {
                (Vec::new(), i)
            }
        },
        None => (Vec::new(), i),
    }
}

fn read_perm(s: &[u8], i: usize) -> (r: Option<(Vec<Vec<VertexIndex>>, usize)>)
    requires
        i <= s@.len(),
    ensures
        match perm_at(s@, i as int) {
            None => r is None,
            Some((cs, e)) => r is Some && cycles_view(r->Some_0.0@) == cs && r->Some_0.1 == e && e <= s@.len(),
        },
{
    match read_cycle(s, i) {
        None => None,
        Some((c, e)) => {
            proof {
                lemma_cycle_end(s@, i as int);
            }
            let (rest, f) = read_cycles_more(s, e);
            let mut rest = rest;
            let ghost before = rest@;
            let ghost cv = ints(c@);
            rest.insert(0, c);
            assert(cycles_view(rest@) =~= seq![cv] + cycles_view(before));
            Some((rest, f))
        },
    }
}

proof fn lemma_cycle_items_end(s: Seq<u8>, i: int)
    requires
        0 <= i,
    ensures
        cycle_items(s, i) is Some ==> i < cycle_items(s, i)->Some_0.1 <= s.len(),
    decreases s.len() - i,
{
    let p = blank_end(s, i);
    lemma_blank_end(s, i);
    match int_at(s, p) {
        None => {},
        Some((v, q)) => {
            if q >= i && q < s.len() && s[q] == 44 {
                lemma_cycle_items_end(s, q + 1);
            }
        },
    }
}

proof fn lemma_cycle_end(s: Seq<u8>, i: int)
    requires
        0 <= i,
    ensures
        cycle_at(s, i) is Some ==> i < cycle_at(s, i)->Some_0.1 <= s.len(),
{
    let p = blank_end(s, i);
    lemma_blank_end(s, i);
    if 0 <= p < s.len() && s[p] == 40 {
        lemma_cycle_items_end(s, p + 1);
    }
}

fn read_perms_more(s: &[u8], i: usize) -> (r: (Vec<Vec<Vec<VertexIndex>>>, usize))
    requires
        i <= s@.len(),
    ensures
        gens_view(r.0@) == perms_more(s@, i as int).0,
        r.1 == perms_more(s@, i as int).1,
        r.1 <= s@.len(),
    decreases s@.len() - i,
{
    if i < s.len() && s[i] == 44 {
        let p = skip_blanks(s, i + 1);
        match read_perm(s, p) {
            Some((perm, e)) => {
                if e > i && e <= s.len() {
                    let (rest, f) = read_perms_more(s, e);
                    let mut rest = rest;
                    let ghost before = rest@;
                    let ghost pv = cycles_view(perm@);
                    rest.insert(0, perm);
                    assert(gens_view(rest@) =~= seq![pv] + gens_view(before));
                    (rest, f)
                } else {
                    (Vec::new(), i)
                }
            },
            None => (Vec::new(), i),
        }
    } else {
        (Vec::new(), i)
    }
}

fn read_gens(s: &[u8], i: usize) -> (r: Option<(Vec<Vec<Vec<VertexIndex>>>, usize)>)
    requires
        i <= s@.len(),
    ensures
        match gens_at(s@, i as int) {
            None => r is None,
            Some((gs, e)) => r is Some && gens_view(r->Some_0.0@) == gs && r->Some_0.1 == e && e <= s@.len(),
        },
{
    if i < s.len() && s[i] == 91 {
        let p = skip_blanks(s, i + 1);
        match read_perm(s, p) {
            None => None,
            Some((perm, e)) => {
                let (rest, f) = read_perms_more(s, e);
                let q = skip_blanks(s, f);
                if q < s.len() && s[q] == 93 {
                    let mut rest = rest;
                    let ghost before = rest@;
                    let ghost pv = cycles_view(perm@);
                    rest.insert(0, perm);
                    assert(gens_view(rest@) =~= seq![pv] + gens_view(before));
                    Some((rest, q + 1))
                } else {
                    None
                }
            },
        }
    } else {
        None
    }
}

fn read_reps_more(s: &[u8], i: usize) -> (r: Vec<Vec<Vec<Vec<VertexIndex>>>>)
    requires
        i <= s@.len(),
    ensures
        reps_view(r@) == reps_more(s@, i as int),
    decreases s@.len() - i,
{
    let start = if i < s.len() && s[i] == 10 {
        i + 1
    } else if i < s.len() && s.len() - i > 1 && s[i] == 13 && s[i + 1] == 10 {
        i + 2
    } else {
        return Vec::new();
    };
    match read_gens(s, start) {
        Some((gens, e)) => {
            if e > i && e <= s.len() {
                let mut rest = read_reps_more(s, e);
                let ghost before = rest@;
                let ghost gv = gens_view(gens@);
                rest.insert(0, gens);
                assert(reps_view(rest@) =~= seq![gv] + reps_view(before));
                rest
            } else {
                Vec::new()
            }
        },
        None => Vec::new(),
    }
}

/// Point `x` occurs in a cycle before `k`, or in cycle `k` before position `i`.
pub open spec fn occurs_before(cs: Seq<Seq<int>>, k: int, i: int, x: int) -> bool {
    (exists|a: int, b: int| 0 <= a < k && 0 <= b < cs[a].len() && #[trigger] cs[a][b] == x) || (exists|b: int|
        0 <= b < i && #[trigger] cs[k][b] == x)
}

/// The permutation of `0..size` with the given cycles, every other point
/// fixed; fails on a point out of range, a point named twice, or an empty
/// cycle.
pub fn to_permutation(cycles: &Vec<Vec<VertexIndex>>, size: usize) -> (r: Result<Permutation, GapParseError>)
    ensures
        r is Ok <==> valid_cycles(cycles_view(cycles@), size as nat),
        r is Ok ==> permutation_of(cycles_view(cycles@), size as nat, r->Ok_0),
        r is Err ==> r == Err::<Permutation, GapParseError>(GapParseError::InvalidCycles),
{
    let ghost cs = cycles_view(cycles@);
    let mut seen: Vec<bool> = Vec::new();
    let mut x: usize = 0;
    while x < size
        invariant
            x <= size,
            seen@.len() == x,
            forall|y: int| 0 <= y < x ==> !(#[trigger] seen@[y]),
        decreases size - x,
    {
        seen.push(false);
        x += 1;
    }
    let mut points: Vec<Vec<usize>> = Vec::new();
    let mut k: usize = 0;
    while k < cycles.len()
        invariant
            cs == cycles_view(cycles@),
            k <= cs.len(),
            seen@.len() == size,
            points@.len() == k,
            forall|a: int| 0 <= a < k ==> (#[trigger] points@[a])@ == cs[a].map_values(|v: int| v as usize),
            forall|a: int, b: int| 0 <= a < k && 0 <= b < cs[a].len() ==> 0 <= #[trigger] cs[a][b] < size,
            forall|a: int| 0 <= a < k ==> (#[trigger] cs[a]).len() >= 1,
            forall|a1: int, b1: int, a2: int, b2: int|
                0 <= a1 < k && 0 <= a2 < k && 0 <= b1 < cs[a1].len() && 0 <= b2 < cs[a2].len() && (a1 != a2 || b1 != b2)
                    ==> #[trigger] cs[a1][b1] != #[trigger] cs[a2][b2],
            forall|y: int| 0 <= y < size ==> (#[trigger] seen@[y] <==> occurs_before(cs, k as int, 0, y)),
        decreases cs.len() - k,
    {
        let cycle = &cycles[k];
        assert(cs[k as int] == ints(cycle@));
        if cycle.len() == 0 {
            proof {
                assert(as_points(cs)[k as int].len() == 0);
            }
            return Err(GapParseError::InvalidCycles);
        }
        let mut pts: Vec<usize> = Vec::new();
        let mut i: usize = 0;
        while i < cycle.len()
            invariant
                cs == cycles_view(cycles@),
                k < cs.len(),
                cs[k as int] == ints(cycle@),
                i <= cycle@.len(),
                seen@.len() == size,
                pts@ == cs[k as int].take(i as int).map_values(|v: int| v as usize),
                forall|a: int, b: int| 0 <= a < k && 0 <= b < cs[a].len() ==> 0 <= #[trigger] cs[a][b] < size,
                forall|b: int| 0 <= b < i ==> 0 <= #[trigger] cs[k as int][b] < size,
                forall|a1: int, b1: int, a2: int, b2: int|
                    0 <= a1 < k && 0 <= a2 < k && 0 <= b1 < cs[a1].len() && 0 <= b2 < cs[a2].len() && (a1 != a2 || b1 != b2)
                        ==> #[trigger] cs[a1][b1] != #[trigger] cs[a2][b2],
                forall|a: int, b1: int, b2: int|
                    0 <= a < k && 0 <= b1 < cs[a].len() && 0 <= b2 < i ==> #[trigger] cs[a][b1] != #[trigger] cs[k as int][b2],
                forall|b1: int, b2: int| 0 <= b1 < b2 < i ==> #[trigger] cs[k as int][b1] != #[trigger] cs[k as int][b2],
                forall|y: int| 0 <= y < size ==> (#[trigger] seen@[y] <==> occurs_before(cs, k as int, i as int, y)),
            decreases cycle@.len() - i,
        {
            let v = cycle[i];
            assert(cs[k as int][i as int] == v as int);
            if v < 0 || v as usize >= size {
                return Err(GapParseError::InvalidCycles);
            }
            if seen[v as usize] {
                proof {
                    assert(occurs_before(cs, k as int, i as int, v as int));
                    let pv = as_points(cs);
                    if valid_cycles(cs, size as nat) {
                        assert(pv[k as int][i as int] == v as usize);
                        if exists|a: int, b: int| 0 <= a < k && 0 <= b < cs[a].len() && #[trigger] cs[a][b] == v as int {
                            let (a, b) = choose|a: int, b: int| 0 <= a < k && 0 <= b < cs[a].len() && #[trigger] cs[a][b] == v as int;
                            assert(pv[a][b] == v as usize);
                            assert(pv[a][b] != pv[k as int][i as int]);
                        } else {
                            let b = choose|b: int| 0 <= b < i && #[trigger] cs[k as int][b] == v as int;
                            assert(pv[k as int][b] == v as usize);
                            assert(pv[k as int].no_duplicates());
                            assert(pv[k as int][b] != pv[k as int][i as int]);
                        }
                    }
                }
                return Err(GapParseError::InvalidCycles);
            }
            let ghost before = seen@;
            seen.set(v as usize, true);
            proof {
                assert forall|y: int| 0 <= y < size implies (#[trigger] seen@[y] <==> occurs_before(cs, k as int, i + 1, y)) by {
                    if y == v as int {
                        assert(cs[k as int][i as int] == y);
                    } else {
                        assert(seen@[y] == before[y]);
                        if occurs_before(cs, k as int, i + 1, y) && !occurs_before(cs, k as int, i as int, y) {
                            let b = choose|b: int| 0 <= b < i + 1 && #[trigger] cs[k as int][b] == y;
                            assert(b != i);
                        }
                    }
                }
            }
            pts.push(v as usize);
            assert(pts@ =~= cs[k as int].take(i + 1).map_values(|v: int| v as usize));
            i += 1;
        }
        assert(cs[k as int].take(i as int) =~= cs[k as int]);
        points.push(pts);
        proof {
            assert forall|y: int| 0 <= y < size implies (#[trigger] seen@[y] <==> occurs_before(cs, k + 1, 0, y)) by {
                if occurs_before(cs, k as int, i as int, y) {
                    if exists|b: int| 0 <= b < i && #[trigger] cs[k as int][b] == y {
                        let b = choose|b: int| 0 <= b < i && #[trigger] cs[k as int][b] == y;
                        assert(0 <= k < k + 1 && 0 <= b < cs[k as int].len() && cs[k as int][b] == y);
                    }
                }
                if occurs_before(cs, k + 1, 0, y) {
                    let (a, b) = choose|a: int, b: int| 0 <= a < k + 1 && 0 <= b < cs[a].len() && #[trigger] cs[a][b] == y;
                    if a == k {
                        assert(0 <= b < i && cs[k as int][b] == y);
                    }
                }
            }
        }
        k += 1;
    }
    proof {
        let pv = as_points(cs);
        assert(seqs_of(&points) =~= pv) by {
            assert forall|a: int| 0 <= a < points@.len() implies #[trigger] seqs_of(&points)[a] == pv[a] by {
                assert(points@[a]@ == cs[a].map_values(|v: int| v as usize));
            }
        }
        assert(disjoint_cycles(pv, size as nat)) by {
            assert forall|a: int| 0 <= a < pv.len() implies (#[trigger] pv[a]).len() >= 1 && pv[a].no_duplicates() by {
                assert forall|b1: int, b2: int| 0 <= b1 < pv[a].len() && 0 <= b2 < pv[a].len() && b1 != b2 implies pv[a][b1] != pv[a][b2] by {
                    assert(cs[a][b1] != cs[a][b2]);
                }
            }
            assert forall|a: int, b: int| 0 <= a < pv.len() && 0 <= b < pv[a].len() implies #[trigger] pv[a][b] < size by {
                assert(0 <= cs[a][b] < size);
            }
            assert forall|a1: int, a2: int, b1: int, b2: int|
                0 <= a1 < pv.len() && 0 <= a2 < pv.len() && a1 != a2 && 0 <= b1 < pv[a1].len() && 0 <= b2 < pv[a2].len()
                    implies #[trigger] pv[a1][b1] != #[trigger] pv[a2][b2] by {
                assert(cs[a1][b1] != cs[a2][b2]);
                assert(0 <= cs[a1][b1] < size && 0 <= cs[a2][b2] < size);
            }
        }
    }
    let perm = Permutation::from_cycles(points, size);
    Ok(perm)
}

/// Every permutation of the list is valid.
pub open spec fn all_valid(gs: Seq<Seq<Seq<int>>>, size: nat) -> bool {
    forall|j: int| 0 <= j < gs.len() ==> valid_cycles(#[trigger] gs[j], size)
}

/// `ps` holds the permutations of the cycle lists `gs`, in order.
pub open spec fn permutations_of(gs: Seq<Seq<Seq<int>>>, size: nat, ps: Seq<Permutation>) -> bool {
    ps.len() == gs.len() && forall|j: int| 0 <= j < gs.len() ==> permutation_of(gs[j], size, #[trigger] ps[j])
}

fn to_permutations(gens: &Vec<Vec<Vec<VertexIndex>>>, size: usize) -> (r: Result<Vec<Permutation>, GapParseError>)
    ensures
        r is Ok <==> all_valid(gens_view(gens@), size as nat),
        r is Ok ==> permutations_of(gens_view(gens@), size as nat, r->Ok_0@),
        r is Err ==> r == Err::<Vec<Permutation>, GapParseError>(GapParseError::InvalidCycles),
{
    let ghost gs = gens_view(gens@);
    let mut out: Vec<Permutation> = Vec::new();
    let mut j: usize = 0;
    while j < gens.len()
        invariant
            gs == gens_view(gens@),
            j <= gs.len(),
            out@.len() == j,
            forall|t: int| 0 <= t < j ==> valid_cycles(#[trigger] gs[t], size as nat),
            forall|t: int| 0 <= t < j ==> permutation_of(gs[t], size as nat, #[trigger] out@[t]),
        decreases gs.len() - j,
    {
        assert(gs[j as int] == cycles_view(gens@[j as int]@));
        match to_permutation(&gens[j], size) {
            Ok(p) => {
                out.push(p);
            },
            Err(e) => {
                return Err(e);
            },
        }
        j += 1;
    }
    Ok(out)
}

/// Reads one cycle such as `(1, 11, 13)`, after optional blanks; points
/// come back 0-based. Returns the number of bytes read and the points.
pub fn parse_cycle(input: &[u8]) -> (r: Result<(usize, Vec<VertexIndex>), GapParseError>)
    ensures
        match cycle_at(input@, 0) {
            None => r == Err::<(usize, Vec<VertexIndex>), GapParseError>(GapParseError::Malformed),
            Some((vs, e)) => r is Ok && r->Ok_0.0 == e && ints(r->Ok_0.1@) == vs,
        },
{
    match read_cycle(input, 0) {
        Some((points, e)) => Ok((e, points)),
        None => Err(GapParseError::Malformed),
    }
}

/// Reads a permutation of `0..size` written as a product of cycles.
/// Returns the number of bytes read and the permutation.
pub fn parse_permutation(input: &[u8], size: usize) -> (r: Result<(usize, Permutation), GapParseError>)
    ensures
        match perm_at(input@, 0) {
            None => r == Err::<(usize, Permutation), GapParseError>(GapParseError::Malformed),
            Some((cs, e)) => if valid_cycles(cs, size as nat) {
                r is Ok && r->Ok_0.0 == e && permutation_of(cs, size as nat, r->Ok_0.1)
            } else {
                r == Err::<(usize, Permutation), GapParseError>(GapParseError::InvalidCycles)
            },
        },
{
    match read_perm(input, 0) {
        Some((cycles, e)) => match to_permutation(&cycles, size) {
            Ok(p) => Ok((e, p)),
            Err(err) => Err(err),
        },
        None => Err(GapParseError::Malformed),
    }
}

/// Reads a bracketed, comma-separated list of permutations. Returns the
/// number of bytes read and the permutations.
pub fn parse_generators(input: &[u8], size: usize) -> (r: Result<(usize, Vec<Permutation>), GapParseError>)
    ensures
        match gens_at(input@, 0) {
            None => r == Err::<(usize, Vec<Permutation>), GapParseError>(GapParseError::Malformed),
            Some((gs, e)) => if all_valid(gs, size as nat) {
                r is Ok && r->Ok_0.0 == e && permutations_of(gs, size as nat, r->Ok_0.1@)
            } else {
                r == Err::<(usize, Vec<Permutation>), GapParseError>(GapParseError::InvalidCycles)
            },
        },
{
    match read_gens(input, 0) {
        Some((gens, e)) => match to_permutations(&gens, size) {
            Ok(ps) => Ok((e, ps)),
            Err(err) => Err(err),
        },
        None => Err(GapParseError::Malformed),
    }
}

/// The lists of generators, one per line, from the start of `s`.
pub open spec fn reps_at(s: Seq<u8>) -> Option<Seq<Seq<Seq<Seq<int>>>>> {
    match gens_at(s, 0) {
        None => None,
        Some((g, e)) => Some(seq![g] + reps_more(s, e)),
    }
}

/// Every list of every line is valid.
pub open spec fn lines_valid(lines: Seq<Seq<Seq<Seq<int>>>>, size: nat) -> bool {
    forall|i: int| 0 <= i < lines.len() ==> all_valid(#[trigger] lines[i], size)
}

/// Reads one list of generators per line, as long as lines of lists
/// follow the first; what follows them is left unread.
pub fn parse_representatives(input: &[u8], size: usize) -> (r: Result<Vec<Vec<Permutation>>, GapParseError>)
    ensures
        match reps_at(input@) {
            None => r == Err::<Vec<Vec<Permutation>>, GapParseError>(GapParseError::Malformed),
            Some(lines) => if lines_valid(lines, size as nat) {
                &&& r is Ok
                &&& r->Ok_0@.len() == lines.len()
                &&& forall|i: int| 0 <= i < lines.len() ==> permutations_of(lines[i], size as nat, #[trigger] r->Ok_0@[i]@)
            } else {
                r == Err::<Vec<Vec<Permutation>>, GapParseError>(GapParseError::InvalidCycles)
            },
        },
{
    match read_gens(input, 0) {
        None => Err(GapParseError::Malformed),
        Some((first, e)) => {
            let mut rest = read_reps_more(input, e);
            let ghost rv = reps_view(rest@);
            let ghost fv = gens_view(first@);
            rest.insert(0, first);
            let ghost lines = reps_view(rest@);
            assert(lines =~= seq![fv] + rv);
            let ghost parsed = gens_at(input@, 0)->Some_0;
            assert(fv == parsed.0);
            assert(e == parsed.1);
            assert(lines == seq![parsed.0] + reps_more(input@, parsed.1));
            assert(reps_at(input@) == Some(lines));
            let mut out: Vec<Vec<Permutation>> = Vec::new();
            let mut i: usize = 0;
            while i < rest.len()
                invariant
                    lines == reps_view(rest@),
                    reps_at(input@) == Some(lines),
                    i <= lines.len(),
                    out@.len() == i,
                    forall|t: int| 0 <= t < i ==> all_valid(#[trigger] lines[t], size as nat),
                    forall|t: int| 0 <= t < i ==> permutations_of(lines[t], size as nat, #[trigger] out@[t]@),
                decreases lines.len() - i,
            {
                assert(lines[i as int] == gens_view(rest@[i as int]@));
                match to_permutations(&rest[i], size) {
                    Ok(ps) => {
                        out.push(ps);
                    },
                    Err(err) => {
                        assert(!all_valid(lines[i as int], size as nat));
                        assert(!lines_valid(lines, size as nat));
                        return Err(err);
                    },
                }
                i += 1;
            }
            assert(input@.len() >= 0);
            Ok(out)
        },
    }
}

} // verus!
