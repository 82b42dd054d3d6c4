//! Summing a whole slice at once.
use crate::small_accumulator::MAX_TERMS;
use crate::tally::{result_bits, tally_of};
use crate::xsum_auto::XSUM_THRESHOLD;
use crate::xsum_large::XsumLarge;
use crate::xsum_small::XsumSmall;
use vstd::prelude::*;

verus! {

/// The exact sum of `vec`, rounded once to binary64 (ties to even): through
/// the small accumulator below `XSUM_THRESHOLD` values, the large one above.
pub fn xsum(vec: &[u64]) -> (r: u64)
    requires
        vec@.len() <= MAX_TERMS,
    ensures
        r == result_bits(tally_of(vec@)),
{
    if vec.len() < XSUM_THRESHOLD {
        let mut xsumsmall = XsumSmall::new();
        xsumsmall.add_list(vec);
        xsumsmall.sum()
    } else {
        let mut xsumlarge = XsumLarge::new();
        xsumlarge.add_list(vec);
        xsumlarge.sum()
    }
}

} // verus!
