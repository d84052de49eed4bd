//! Descriptiveness of orbit quotients of coloured graphs.
//!
//! Given a graph and a set of automorphism generators, the library builds
//! the orbit partition and the quotient graph, encodes the question whether
//! a transversal of the orbits reproduces every quotient edge in the
//! original graph as a CNF formula, and provides the repair steps used
//! when a quotient turns out not to be descriptive.
use vstd::prelude::*;

pub mod colouring;
pub mod combinatoric;
pub mod dictionary;
pub mod encoding;
pub mod gap;
pub mod graph;
pub mod input;
pub mod laws;
pub mod metric;
pub mod mus;
pub mod orbits;
pub mod permutation;
pub mod quotient;
pub mod repair;
pub mod search;
pub mod statistics;
pub mod transversal;

verus! {

/// Index of a vertex; an orbit is named by the least index among its members.
pub type VertexIndex = i32;

/// Colour of a vertex.
pub type Colour = i32;

} // verus!
