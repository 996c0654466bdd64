//! Integer helpers for tropical plane curves.
use crate::polytope::{divides, is_gcd, lemma_euclid_done, lemma_euclid_step};
use vstd::prelude::*;

verus! {

/// The greatest common divisor of two unsigned integers, by Euclid's
/// algorithm; it is the weight of an edge whose direction is `(a, b)`.
pub fn gcd(a: u32, b: u32) -> (g: u32)
    ensures
        is_gcd(g as int, a as int, b as int),
{
    let ghost a0 = a as int;
    let ghost b0 = b as int;
    let mut a = a;
    let mut b = b;
    while b != 0
        invariant
            forall|d: int|
                d > 0 ==> ((divides(d, a as int) && divides(d, b as int)) <==> (#[trigger] divides(d, a0)
                    && divides(d, b0))),
            a == 0 && b == 0 ==> a0 == 0 && b0 == 0,
        decreases b,
    {
        proof {
            assert forall|d: int| d > 0 implies ((divides(d, b as int) && divides(d, (a % b) as int)) <==> (
            #[trigger] divides(d, a0) && divides(d, b0))) by {
                lemma_euclid_step(a as int, b as int, d);
                assert((divides(d, a as int) && divides(d, b as int)) <==> (divides(d, a0) && divides(d, b0)));
            }
        }
        let t = b;
        b = a % b;
        a = t;
    }
    proof {
        lemma_euclid_done(a as int, a0, b0);
    }
    a
}

} // verus!
