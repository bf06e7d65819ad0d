//! Integer helpers of the qudit gate set.
use crate::chain::gcd_spec;
use vstd::prelude::*;

verus! {

/// Greatest common divisor (Euclid), used to size heterogeneous
/// controlled phases `|a,b⟩ → exp(2πi·ab/lcm(da, db))|a,b⟩`.
pub fn gcd(a: usize, b: usize) -> (g: usize)
    ensures
        g == gcd_spec(a as nat, b as nat),
    decreases b,
{
    if b == 0 {
        a
    } else {
        gcd(b, a % b)
    }
}

} // verus!
