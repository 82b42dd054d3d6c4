//! One type over the three summers, for callers that pick one up front.
use crate::small_accumulator::MAX_TERMS;
use crate::tally::{absorb, absorb_all, empty_tally, result_bits, Tally};
use crate::xsum_auto::XsumAuto;
use crate::xsum_large::XsumLarge;
use crate::xsum_small::XsumSmall;
use vstd::prelude::*;

verus! {

/// A summer of any of the three kinds.
pub enum XsumVariant {
    Small(XsumSmall),
    Large(XsumLarge),
    Auto(XsumAuto),
}

impl View for XsumVariant {
    type V = Tally;

    open spec fn view(&self) -> Tally {
        match self {
            XsumVariant::Small(x) => x@,
            XsumVariant::Large(x) => x@,
            XsumVariant::Auto(x) => x@,
        }
    }
}

impl Default for XsumVariant {
    fn default() -> (r: Self)
        ensures
            r.wf(),
            r@ == empty_tally(),
    {
        XsumVariant::new()
    }
}

impl XsumVariant {
    /// The invariant of the summer held.
    pub open spec fn wf(&self) -> bool {
        match self {
            XsumVariant::Small(x) => x.wf(),
            XsumVariant::Large(x) => x.wf(),
            XsumVariant::Auto(x) => x.wf(),
        }
    }

    /// An empty summer on the small accumulator.
    pub fn new() -> (r: Self)
        ensures
            r.wf(),
            r@ == empty_tally(),
            r is Small,
    {
        XsumVariant::Small(XsumSmall::new())
    }

    /// How many values were added.
    pub fn get_size_count(&self) -> (r: u64)
        ensures
            r == self@.count,
    {
        match self {
            XsumVariant::Small(x) => x.get_size_count(),
            XsumVariant::Large(x) => x.get_size_count(),
            XsumVariant::Auto(x) => x.get_size_count(),
        }
    }

    /// Adds every value of `vec`, in order.
    pub fn add_list(&mut self, vec: &[u64])
        requires
            old(self).wf(),
            old(self)@.count + vec@.len() <= MAX_TERMS,
        ensures
            final(self).wf(),
            final(self)@ == absorb_all(old(self)@, vec@),
    {
        match self {
            XsumVariant::Small(x) => x.add_list(vec),
            XsumVariant::Large(x) => x.add_list(vec),
            XsumVariant::Auto(x) => x.add_list(vec),
        }
    }

    /// Adds one value.
    pub fn add(&mut self, value: u64)
        requires
            old(self).wf(),
            old(self)@.count < MAX_TERMS,
        ensures
            final(self).wf(),
            final(self)@ == absorb(old(self)@, value),
    {
        match self {
            XsumVariant::Small(x) => x.add(value),
            XsumVariant::Large(x) => x.add(value),
            XsumVariant::Auto(x) => x.add(value),
        }
    }

    /// The exact sum of the values added, rounded once to binary64 (ties to
    /// even); see `result_bits`. What the summer holds is unchanged.
    pub fn sum(&mut self) -> (r: u64)
        requires
            old(self).wf(),
        ensures
            final(self).wf(),
            final(self)@ == old(self)@,
            r == result_bits(old(self)@),
    {
        match self {
            XsumVariant::Small(x) => x.sum(),
            XsumVariant::Large(x) => x.sum(),
            XsumVariant::Auto(x) => x.sum(),
        }
    }

    /// Forgets every value added, keeping the kind of summer.
    pub fn clear(&mut self)
        ensures
            final(self).wf(),
            final(self)@ == empty_tally(),
    {
        match self {
            XsumVariant::Small(x) => x.clear(),
            XsumVariant::Large(x) => x.clear(),
            XsumVariant::Auto(x) => x.clear(),
        }
    }
}

} // verus!
