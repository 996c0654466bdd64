//! Tropical geometry over the max-plus semiring, with integer data.
use vstd::prelude::*;

pub mod harmonic;
pub mod permutation;
pub mod newton_polytope;
pub mod polytope;
pub mod curve;
pub mod polynomial;
pub mod planar;
pub mod lattice;
pub mod degree;

verus! {

} // verus!
