//! Subsets of a small set, for searching the powerset of generators.
use vstd::arithmetic::power2::{lemma_pow2_unfold, pow2};
use vstd::prelude::*;

verus! {

/// Bit `i` of `n` is set.
pub open spec fn bit_set(n: usize, i: usize) -> bool {
    ((n as u64) >> (i as u64)) & 1 == 1
}

/// The elements of `s` whose position is a set bit of `counter`, in order.
pub open spec fn subset_spec<T>(s: Seq<T>, counter: usize) -> Seq<T>
    decreases s.len(),
{
    if s.len() == 0 {
        seq![]
    } else {
        let rest = subset_spec(s.drop_last(), counter);
        if (s.len() - 1) < 64 && bit_set(counter, (s.len() - 1) as usize) {
            rest.push(s.last())
        } else {
            rest
        }
    }
}

/// Whether bit `index` of `n` is set.
pub fn is_active(n: usize, index: &usize) -> (r: bool)
    requires
        *index < 64,
    ensures
        r == bit_set(n, *index),
{
    let i = *index as u64;
    let m = n as u64;
    let r = (m & (1u64 << i)) > 0;
    assert(((m & (1u64 << i)) > 0) == ((m >> i) & 1 == 1)) by (bit_vector)
        requires
            i < 64,
    ;
    r
}

/// Every non-empty subset of `set`: the subset for counter `c` (from 1 to
/// `2^n - 1`) holds the elements whose position is a set bit of `c`.
pub fn iterate_powerset<T: Copy>(set: &Vec<T>) -> (r: Vec<Vec<T>>)
    requires
        set@.len() < 64,
        pow2(set@.len() as nat) <= usize::MAX,
    ensures
        r@.len() == pow2(set@.len() as nat) - 1,
        forall|c: int| 1 <= c < pow2(set@.len() as nat) ==> #[trigger] r@[c - 1]@ == subset_spec(set@, c as usize),
{
    let number_of_elements = set.len();
    let mut total: usize = 1;
    let mut i: usize = 0;
    proof {
        vstd::arithmetic::power2::lemma2_to64();
    }
    while i < number_of_elements
        invariant
            number_of_elements == set@.len() < 64,
            pow2(set@.len() as nat) <= usize::MAX,
            i <= number_of_elements,
            total == pow2(i as nat),
        decreases number_of_elements - i,
    {
        proof {
            lemma_pow2_unfold((i + 1) as nat);
            if i + 1 < number_of_elements {
                vstd::arithmetic::power2::lemma_pow2_strictly_increases((i + 1) as nat, number_of_elements as nat);
            }
        }
        total = total * 2;
        i += 1;
    }
    proof {
        vstd::arithmetic::power2::lemma_pow2_pos(set@.len() as nat);
    }
    let mut subsets: Vec<Vec<T>> = Vec::new();
    let mut counter: usize = 1;
    while counter < total
        invariant
            total == pow2(set@.len() as nat),
            1 <= counter <= total,
            set@.len() < 64,
            subsets@.len() == counter - 1,
            forall|c: int| 1 <= c < counter ==> #[trigger] subsets@[c - 1]@ == subset_spec(set@, c as usize),
        decreases total - counter,
    {
        let mut subset: Vec<T> = Vec::new();
        let mut element_index: usize = 0;
        while element_index < set.len()
            invariant
                set@.len() < 64,
                element_index <= set@.len(),
                subset@ == subset_spec(set@.take(element_index as int), counter),
            decreases set@.len() - element_index,
        {
            proof {
                assert(set@.take(element_index + 1).drop_last() =~= set@.take(element_index as int));
            }
            if is_active(counter, &element_index) {
                subset.push(set[element_index]);
            }
            element_index += 1;
        }
        assert(set@.take(element_index as int) =~= set@);
        subsets.push(subset);
        proof {
            assert forall|c: int| 1 <= c < counter + 1 implies #[trigger] subsets@[c - 1]@ == subset_spec(set@, c as usize) by {
                if c < counter {
                    assert(subsets@[c - 1] == subsets@.drop_last()[c - 1]);
                }
            }
        }
        counter += 1;
    }
    subsets
}

} // verus!
