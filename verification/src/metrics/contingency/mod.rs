//! Helpers for metrics computed from contingency tables.

use vstd::prelude::*;

use crate::metrics::algorithms::common::pairs_among;

verus! {

/// `n` choose 2.
pub fn choose_2(n: u32) -> (r: u64)
    ensures
        r == pairs_among(n as int),
{
    if n < 2 {
        0
    } else {
        let a = n as u64;
        assert(a * (a - 1) <= 0xffff_fffe_0000_0001) by (nonlinear_arith)
            requires
                2 <= a <= 0xffff_ffff,
        ;
        (a * (a - 1)) / 2
    }
}

} // verus!
