//! Arithmetic helpers on 128-bit amounts.

use vstd::arithmetic::div_mod::lemma_div_basics;
use vstd::arithmetic::div_mod::lemma_div_is_ordered_by_denominator;
use vstd::prelude::*;

verus! {

/// Floor division of non-negative 128-bit amounts.
pub(crate) fn div_floor(num: i128, den: i128) -> (r: i128)
    requires
        0 <= num,
        0 < den,
    ensures
        r == num as int / den as int,
{
    let n: u128 = num as u128;
    let d: u128 = den as u128;
    let q: u128 = n / d;
    proof {
        lemma_div_is_ordered_by_denominator(n as int, 1, d as int);
        lemma_div_basics(n as int);
    }
    q as i128
}

} // verus!
