//! What a run of inputs amounts to, and the binary64 value it sums to.
use crate::layout::{
    is_infinite, is_nan, is_negative, mant_field, value_of, NEG_ZERO_BITS, QUIET_NAN_BITS,
};
use crate::rounding::round_bits;
use vstd::prelude::*;

verus! {

/// The summary of the inputs seen so far: their exact finite total (in units
/// of 2^-1075), the infinity and NaN state, whether any input had its sign
/// bit clear, and how many inputs there were.
pub struct Tally {
    pub total: int,
    pub inf: u64,
    pub nan: u64,
    pub pos: bool,
    pub count: nat,
}

/// The summary of no inputs.
pub open spec fn empty_tally() -> Tally {
    Tally { total: 0, inf: 0, nan: 0, pos: false, count: 0 }
}

/// Infinity state: zero until an infinity comes, then that infinity, and the
/// quiet NaN once both signs have come.
pub open spec fn inf_step(inf: u64, b: u64) -> u64 {
    if is_infinite(b) {
        if inf == 0 {
            b
        } else if inf != b {
            QUIET_NAN_BITS
        } else {
            inf
        }
    } else {
        inf
    }
}

/// NaN state: zero until a NaN comes, then the NaN with the largest payload
/// (the first of equals), its sign bit cleared.
pub open spec fn nan_step(nan: u64, b: u64) -> u64 {
    if is_nan(b) && mant_field(nan) <= mant_field(b) {
        (b % 0x8000_0000_0000_0000) as u64
    } else {
        nan
    }
}

/// The summary after one more input `b`.
pub open spec fn absorb(t: Tally, b: u64) -> Tally {
    Tally {
        total: t.total + value_of(b),
        inf: inf_step(t.inf, b),
        nan: nan_step(t.nan, b),
        pos: t.pos || !is_negative(b),
        count: t.count + 1,
    }
}

/// The summary after the inputs `xs`, in order.
pub open spec fn absorb_all(t: Tally, xs: Seq<u64>) -> Tally {
    xs.fold_left(t, |acc: Tally, b: u64| absorb(acc, b))
}

/// The summary of the inputs `xs`.
pub open spec fn tally_of(xs: Seq<u64>) -> Tally {
    absorb_all(empty_tally(), xs)
}

/// The bit pattern that summing to `t` yields: a NaN input wins, then an
/// infinity (or the NaN of opposite infinities), then -0.0 for no input, and
/// otherwise the exact total rounded to nearest, ties to even.
pub open spec fn result_bits(t: Tally) -> u64 {
    if t.nan != 0 {
        t.nan
    } else if t.inf != 0 {
        t.inf
    } else if t.count == 0 {
        NEG_ZERO_BITS
    } else {
        round_bits(t.total, t.pos)
    }
}

/// One more input after `xs` is one more step of the summary.
pub proof fn lemma_absorb_all_push(t: Tally, xs: Seq<u64>, b: u64)
    ensures
        absorb_all(t, xs.push(b)) == absorb(absorb_all(t, xs), b),
{
    assert(xs.push(b).drop_last() =~= xs);
}

} // verus!
