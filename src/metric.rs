//! Metrics that rank quotient graphs, and the engine and metric choices.
use crate::quotient::{orbit_size_range, QuotientGraph};
use std::cmp::Ordering;
use vstd::prelude::*;

verus! {

/// Which automorphism engine computes the generators.
#[derive(Debug, Clone, Copy, PartialEq, Eq, Structural)]
pub enum NautyTraces {
    /// Dense nauty.
    Nauty,
    /// Sparse nauty.
    SparseNauty,
    /// Traces, for sparse graphs only.
    Traces,
}

impl Default for NautyTraces {
    fn default() -> (r: Self)
        ensures
            r == NautyTraces::Nauty,
    {
        NautyTraces::Nauty
    }
}

/// The metric by which the best quotient is chosen.
#[derive(Debug, Clone, Copy, PartialEq, Eq, Structural)]
pub enum MetricUsed {
    LeastOrbits,
    BiggestOrbits,
    Sparsity,
    Standard,
}

impl Default for MetricUsed {
    fn default() -> (r: Self)
        ensures
            r == MetricUsed::Standard,
    {
        MetricUsed::Standard
    }
}

/// A metric name that is not known.
#[derive(Debug)]
pub struct MetricError(pub String);

/// The ordering of two integers.
pub open spec fn cmp_spec(a: int, b: int) -> Ordering {
    if a < b {
        Ordering::Less
    } else if a == b {
        Ordering::Equal
    } else {
        Ordering::Greater
    }
}

fn compare(a: usize, b: usize) -> (r: Ordering)
    ensures
        r == cmp_spec(a as int, b as int),
{
    if a < b {
        Ordering::Less
    } else if a == b {
        Ordering::Equal
    } else {
        Ordering::Greater
    }
}

proof fn lemma_product_fits(x: u128, y: u128)
    requires
        x <= usize::MAX,
        y <= usize::MAX,
    ensures
        x * y <= u128::MAX,
{
    assert(usize::MAX <= 0xffff_ffff_ffff_ffff);
    assert(x * y <= 0xffff_ffff_ffff_ffff * 0xffff_ffff_ffff_ffff) by (nonlinear_arith)
        requires
            x <= 0xffff_ffff_ffff_ffff,
            y <= 0xffff_ffff_ffff_ffff,
    ;
}

/// The quotient's orbit ids are vertices.
pub open spec fn ids_are_vertices(q: &QuotientGraph) -> bool {
    forall|x: int| 0 <= x < q.orbits@.len() ==> 0 <= #[trigger] q.orbits@[x] < q.orbits@.len()
}

/// The ordering of two quotients under one metric.
pub trait Metric {
    /// What the metric compares.
    spec fn key_order(left: &QuotientGraph, right: &QuotientGraph, r: Ordering) -> bool;

    fn compare_quotients(left: &QuotientGraph, right: &QuotientGraph) -> (r: Ordering)
        requires
            ids_are_vertices(left),
            ids_are_vertices(right),
        ensures
            Self::key_order(left, right, r),
    ;
}

/// The quotient with the fewest orbits comes first.
#[derive(Debug)]
pub struct LeastOrbits;

impl Metric for LeastOrbits {
    open spec fn key_order(left: &QuotientGraph, right: &QuotientGraph, r: Ordering) -> bool {
        r == cmp_spec(left.quotient_graph.size as int, right.quotient_graph.size as int)
    }

    fn compare_quotients(left: &QuotientGraph, right: &QuotientGraph) -> (r: Ordering) {
        compare(left.quotient_graph.size(), right.quotient_graph.size())
    }
}

/// The quotient with the biggest largest orbit comes first.
#[derive(Debug)]
pub struct BiggestOrbits;

impl Metric for BiggestOrbits {
    open spec fn key_order(left: &QuotientGraph, right: &QuotientGraph, r: Ordering) -> bool {
        exists|a: (usize, usize), b: (usize, usize)|
            orbit_size_range(left.orbits@, a) && orbit_size_range(right.orbits@, b) && r == #[trigger] cmp_spec(
                b.1 as int,
                a.1 as int,
            )
    }

    fn compare_quotients(left: &QuotientGraph, right: &QuotientGraph) -> (r: Ordering) {
        let left_sizes = left.get_orbit_sizes();
        let right_sizes = right.get_orbit_sizes();
        compare(right_sizes.1, left_sizes.1)
    }
}

/// The quotient with the fewest arcs per vertex comes first; the ratios
/// are compared exactly, by cross-multiplication.
#[derive(Debug)]
pub struct Sparsity;

impl Metric for Sparsity {
    open spec fn key_order(left: &QuotientGraph, right: &QuotientGraph, r: Ordering) -> bool {
        r == cmp_spec(
            left.quotient_graph.edge_number * right.quotient_graph.size,
            right.quotient_graph.edge_number * left.quotient_graph.size,
        )
    }

    fn compare_quotients(left: &QuotientGraph, right: &QuotientGraph) -> (r: Ordering) {
        let le = left.quotient_graph.number_edges() as u128;
        let ls = left.quotient_graph.size() as u128;
        let re = right.quotient_graph.number_edges() as u128;
        let rs = right.quotient_graph.size() as u128;
        proof {
            lemma_product_fits(le, rs);
            lemma_product_fits(re, ls);
        }
        let a = le * rs;
        let b = re * ls;
        if a < b {
            Ordering::Less
        } else if a == b {
            Ordering::Equal
        } else {
            Ordering::Greater
        }
    }
}

impl MetricUsed {
    /// Compares two quotients by the chosen metric; `Standard` ranks the
    /// left one first.
    pub fn compare_quotients(&self, left: &QuotientGraph, right: &QuotientGraph) -> (r: Ordering)
        requires
            ids_are_vertices(left),
            ids_are_vertices(right),
        ensures
            match self {
                MetricUsed::LeastOrbits => LeastOrbits::key_order(left, right, r),
                MetricUsed::BiggestOrbits => BiggestOrbits::key_order(left, right, r),
                MetricUsed::Sparsity => Sparsity::key_order(left, right, r),
                MetricUsed::Standard => r == Ordering::Less,
            },
    {
        match self {
            MetricUsed::LeastOrbits => LeastOrbits::compare_quotients(left, right),
            MetricUsed::BiggestOrbits => BiggestOrbits::compare_quotients(left, right),
            MetricUsed::Sparsity => Sparsity::compare_quotients(left, right),
            MetricUsed::Standard => Ordering::Less,
        }
    }
}

} // verus!
