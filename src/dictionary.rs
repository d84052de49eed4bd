//! The literal dictionary: a bijection between the (orbit, vertex) pairs
//! that an encoding refers to and small positive literals.
use crate::VertexIndex;
use std::collections::HashMap;
use vstd::prelude::*;

verus! {

/// A propositional literal: a variable, negated when below zero.
pub type Literal = i32;

/// The solver's largest variable, `2^28 - 1`.
pub const MAX_LITERAL: Literal = 268435455;

/// The key of a pair: the orbit in the high 32 bits, the vertex in the low ones.
pub open spec fn pair_key(orbit: int, vertex: int) -> int {
    orbit * 4294967296 + vertex
}

/// The literal list after looking up `p`: unchanged if `p` is there,
/// else `p` appended as the next literal.
pub open spec fn lookup_step(ps: Seq<(VertexIndex, VertexIndex)>, p: (VertexIndex, VertexIndex)) -> Seq<(VertexIndex, VertexIndex)> {
    if ps.contains(p) {
        ps
    } else {
        ps.push(p)
    }
}

/// The literal list after looking up every pair of `keys` in turn.
pub open spec fn lookup_all(ps: Seq<(VertexIndex, VertexIndex)>, keys: Seq<(VertexIndex, VertexIndex)>) -> Seq<(VertexIndex, VertexIndex)>
    decreases keys.len(),
{
    if keys.len() == 0 {
        ps
    } else {
        lookup_step(lookup_all(ps, keys.drop_last()), keys.last())
    }
}

/// The literal of `p`: its position in the literal list.
pub open spec fn lit(ps: Seq<(VertexIndex, VertexIndex)>, p: (VertexIndex, VertexIndex)) -> int {
    choose|i: int| 0 <= i < ps.len() && ps[i] == p
}

/// A well-formed literal list: a placeholder at position 0, then distinct
/// pairs of non-negative orbit and vertex.
pub open spec fn valid_pairs(ps: Seq<(VertexIndex, VertexIndex)>) -> bool {
    &&& ps.len() >= 1
    &&& ps[0] == (-1i32, -1i32)
    &&& ps.no_duplicates()
    &&& forall|i: int| 1 <= i < ps.len() ==> (#[trigger] ps[i]).0 >= 0 && ps[i].1 >= 0
}

/// Maps (orbit, vertex) pairs to literals, allocating on first use.
#[derive(Debug)]
pub struct SATEncodingDictionary {
    literal_counter: Literal,
    literal_map: HashMap<i64, Literal>,
    pairs: Vec<(VertexIndex, VertexIndex)>,
}

impl SATEncodingDictionary {
    /// The pairs by literal; position 0 holds a placeholder.
    pub closed spec fn view(&self) -> Seq<(VertexIndex, VertexIndex)> {
        self.pairs@
    }

    /// The dictionary's invariant.
    pub closed spec fn wf(&self) -> bool {
        &&& valid_pairs(self.pairs@)
        &&& self.pairs@.len() <= MAX_LITERAL
        &&& self.literal_counter == self.pairs@.len()
        &&& forall|i: int|
            1 <= i < self.pairs@.len() ==> #[trigger] self.literal_map@.contains_key(
                pair_key(self.pairs@[i].0 as int, self.pairs@[i].1 as int) as i64,
            ) && self.literal_map@[pair_key(self.pairs@[i].0 as int, self.pairs@[i].1 as int) as i64]
                == i
        &&& forall|k: i64|
            #[trigger] self.literal_map@.contains_key(k) ==> 1 <= self.literal_map@[k] < self.pairs@.len()
                && pair_key(
                self.pairs@[self.literal_map@[k] as int].0 as int,
                self.pairs@[self.literal_map@[k] as int].1 as int,
            ) == k
    }

    /// What the invariant says of the pair list.
    pub proof fn lemma_valid(&self)
        requires
            self.wf(),
        ensures
            valid_pairs(self@),
            self@.len() <= MAX_LITERAL,
    {
    }

    /// An empty dictionary; the first literal handed out is 1.
    pub fn default() -> (r: Self)
        ensures
            r.wf(),
            r@ == seq![(-1i32, -1i32)],
    {
        let mut pairs: Vec<(VertexIndex, VertexIndex)> = Vec::new();
        pairs.push((-1, -1));
        SATEncodingDictionary { literal_counter: 1, literal_map: HashMap::new(), pairs }
    }

    /// The pairing of an orbit and a vertex into one key.
    pub fn pairing(orbit: VertexIndex, vertex: VertexIndex) -> (r: i64)
        requires
            vertex >= 0,
        ensures
            r == pair_key(orbit as int, vertex as int),
    {
        assert(-2147483648 * 4294967296 <= orbit * 4294967296 <= 2147483647 * 4294967296) by (nonlinear_arith)
            requires
                -2147483648 <= orbit <= 2147483647,
        ;
        (orbit as i64) * 4294967296 + (vertex as i64)
    }

    /// Splits a key of a non-negative orbit and vertex back into the two.
    pub fn unpair(pairing: i64) -> (r: (VertexIndex, VertexIndex))
        requires
            0 <= pairing,
            pairing / 4294967296 <= 2147483647,
            pairing % 4294967296 <= 2147483647,
        ensures
            r.0 == pairing / 4294967296,
            r.1 == pairing % 4294967296,
            pair_key(r.0 as int, r.1 as int) == pairing,
    {
        let orbit = pairing / 4294967296;
        let vertex = pairing % 4294967296;
        assert(pairing == orbit * 4294967296 + vertex);
        (orbit as VertexIndex, vertex as VertexIndex)
    }

    /// Number of literals handed out.
    pub fn variable_number(&self) -> (r: usize)
        requires
            self.wf(),
        ensures
            r == self@.len() - 1,
    {
        (self.literal_counter - 1) as usize
    }

    /// The literal of the pair of `orbit` and `vertex`, a new one on first use.
    pub fn lookup_pairing(&mut self, orbit: VertexIndex, vertex: VertexIndex) -> (r: Literal)
        requires
            old(self).wf(),
            orbit >= 0,
            vertex >= 0,
            old(self)@.contains((orbit, vertex)) || old(self)@.len() < MAX_LITERAL,
        ensures
            final(self).wf(),
            final(self)@ == lookup_step(old(self)@, (orbit, vertex)),
            1 <= r < final(self)@.len(),
            final(self)@[r as int] == (orbit, vertex),
            r == lit(final(self)@, (orbit, vertex)),
    {
        proof {
            broadcast use vstd::std_specs::hash::group_hash_axioms;
        }
        let key = Self::pairing(orbit, vertex);
        let found = self.literal_map.get(&key);
        match found {
            Some(literal) => {
                let literal = *literal;
                proof {
                    let i = literal as int;
                    let q = self.pairs@[i];
                    lemma_pair_key_injective(q.0 as int, q.1 as int, orbit as int, vertex as int);
                    assert(self@.contains((orbit, vertex)));
                    lemma_lit_unique(self@, (orbit, vertex), i);
                }
                literal
            },
            None => {
                proof {
                    if self@.contains((orbit, vertex)) {
                        let i = choose|i: int| 0 <= i < self@.len() && self@[i] == (orbit, vertex);
                        assert(i != 0);
                        assert(self.literal_map@.contains_key(
                            pair_key(self.pairs@[i].0 as int, self.pairs@[i].1 as int) as i64,
                        ));
                    }
                }
                let literal = self.literal_counter;
                let ghost old_map = self.literal_map@;
                let ghost old_pairs = self.pairs@;
                self.literal_counter = self.literal_counter + 1;
                self.literal_map.insert(key, literal);
                self.pairs.push((orbit, vertex));
                proof {
                    let ps = self.pairs@;
                    assert(ps == old_pairs.push((orbit, vertex)));
                    assert(ps.no_duplicates()) by {
                        assert forall|a: int, b: int| 0 <= a < ps.len() && 0 <= b < ps.len() && a != b implies ps[a] != ps[b] by {
                            if b == ps.len() - 1 && a < old_pairs.len() {
                                assert(old_pairs.contains(old_pairs[a]));
                            }
                            if a == ps.len() - 1 && b < old_pairs.len() {
                                assert(old_pairs.contains(old_pairs[b]));
                            }
                        }
                    }
                    assert forall|i: int| 1 <= i < ps.len() implies #[trigger] self.literal_map@.contains_key(
                        pair_key(ps[i].0 as int, ps[i].1 as int) as i64,
                    ) && self.literal_map@[pair_key(ps[i].0 as int, ps[i].1 as int) as i64] == i by {
                        if i < old_pairs.len() {
                            assert(old_map.contains_key(pair_key(ps[i].0 as int, ps[i].1 as int) as i64));
                            assert(pair_key(ps[i].0 as int, ps[i].1 as int) as i64 != key);
                        }
                    }
                    assert forall|k: i64| #[trigger] self.literal_map@.contains_key(k) implies 1 <= self.literal_map@[k] < ps.len()
                        && pair_key(ps[self.literal_map@[k] as int].0 as int, ps[self.literal_map@[k] as int].1 as int) == k by {
                        if k != key {
                            assert(old_map.contains_key(k));
                        }
                    }
                    lemma_lit_unique(ps, (orbit, vertex), literal as int);
                }
                literal
            },
        }
    }

    /// The literal of a pair that the dictionary already holds.
    pub fn get_literal(&self, orbit: VertexIndex, vertex: VertexIndex) -> (r: Literal)
        requires
            self.wf(),
            orbit >= 0,
            vertex >= 0,
            self@.contains((orbit, vertex)),
        ensures
            1 <= r < self@.len(),
            r == lit(self@, (orbit, vertex)),
    {
        proof {
            broadcast use vstd::std_specs::hash::group_hash_axioms;
            let i = choose|i: int| 0 <= i < self@.len() && self@[i] == (orbit, vertex);
            assert(i != 0);
            assert(self.literal_map@.contains_key(
                pair_key(self.pairs@[i].0 as int, self.pairs@[i].1 as int) as i64,
            ));
        }
        let key = Self::pairing(orbit, vertex);
        match self.literal_map.get(&key) {
            Some(literal) => {
                let literal = *literal;
                proof {
                    let i = literal as int;
                    let q = self.pairs@[i];
                    lemma_pair_key_injective(q.0 as int, q.1 as int, orbit as int, vertex as int);
                    lemma_lit_unique(self@, (orbit, vertex), i);
                }
                literal
            },
            None => 0,
        }
    }

    /// Gives up the dictionary for its inverse table: position `l` holds
    /// the pair of literal `l`, position 0 the placeholder `(-1, -1)`.
    pub fn destroy(self) -> (r: Vec<(VertexIndex, VertexIndex)>)
        ensures
            r@ == self@,
    {
        self.pairs
    }
}

/// Keys of pairs with a vertex below `2^32` are distinct.
pub proof fn lemma_pair_key_injective(o1: int, v1: int, o2: int, v2: int)
    requires
        0 <= v1 < 4294967296,
        0 <= v2 < 4294967296,
        pair_key(o1, v1) == pair_key(o2, v2),
    ensures
        o1 == o2,
        v1 == v2,
{
    assert(o1 == o2) by (nonlinear_arith)
        requires
            o1 * 4294967296 + v1 == o2 * 4294967296 + v2,
            0 <= v1 < 4294967296,
            0 <= v2 < 4294967296,
    ;
}

/// In a list without repeats, the literal of a pair is its one position.
pub proof fn lemma_lit_unique(ps: Seq<(VertexIndex, VertexIndex)>, p: (VertexIndex, VertexIndex), i: int)
    requires
        ps.no_duplicates(),
        0 <= i < ps.len(),
        ps[i] == p,
    ensures
        lit(ps, p) == i,
{
    let j = lit(ps, p);
    assert(0 <= j < ps.len() && ps[j] == p);
}

} // verus!
