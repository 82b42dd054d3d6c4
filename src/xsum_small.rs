//! Exact summation with the small superaccumulator alone.
use crate::small_accumulator::{SmallAccumulator, MAX_TERMS, SMALL_CARRY_TERMS};
use crate::tally::{absorb, absorb_all, empty_tally, lemma_absorb_all_push, result_bits, Tally};
use vstd::prelude::*;

verus! {

/// An exact summer of binary64 bit patterns, best for a few hundred values.
pub struct XsumSmall {
    sacc: SmallAccumulator,
}

impl View for XsumSmall {
    type V = Tally;

    closed spec fn view(&self) -> Tally {
        self.sacc.tally()
    }
}

impl Default for XsumSmall {
    fn default() -> (r: Self)
        ensures
            r.wf(),
            r@ == empty_tally(),
    {
        XsumSmall::new()
    }
}

impl XsumSmall {
    /// The accumulator's internal invariant.
    pub closed spec fn wf(&self) -> bool {
        self.sacc.wf()
    }

    /// The small accumulator inside.
    pub closed spec fn acc(&self) -> SmallAccumulator {
        self.sacc
    }

    /// An empty summer.
    pub fn new() -> (r: Self)
        ensures
            r.wf(),
            r@ == empty_tally(),
            r.acc().is_fresh(),
    {
        XsumSmall { sacc: SmallAccumulator::new() }
    }

    /// A summer holding a copy of `small_accumulator`.
    pub(crate) fn new_with(small_accumulator: &SmallAccumulator) -> (r: Self)
        requires
            small_accumulator.wf(),
        ensures
            r.wf(),
            r@ == small_accumulator.tally(),
    {
        XsumSmall {
            sacc: SmallAccumulator::new_based_on(
                small_accumulator.chunk.as_slice(),
                small_accumulator.adds_until_propagate,
                small_accumulator.inf,
                small_accumulator.nan,
                small_accumulator.size_count,
                small_accumulator.has_pos_number,
            ),
        }
    }

    /// Gives up the accumulator, for a larger summer to continue with.
    pub(crate) fn transfer_accumulator(self) -> (r: SmallAccumulator)
        requires
            self.wf(),
        ensures
            r.wf(),
            r.tally() == self@,
            r == self.acc(),
    {
        self.sacc
    }

    /// How many values were added.
    pub fn get_size_count(&self) -> (r: u64)
        ensures
            r == self@.count,
    {
        self.sacc.size_count
    }

    /// Adds every value of `vec`, in order.
    pub fn add_list(&mut self, vec: &[u64])
        requires
            old(self).wf(),
            old(self)@.count + vec@.len() <= MAX_TERMS,
        ensures
            final(self).wf(),
            final(self)@ == absorb_all(old(self)@, vec@),
    {
        let mut offset: usize = 0;
        let mut n: usize = vec.len();
        while 0 < n
            invariant
                self.wf(),
                offset + n == vec.len(),
                self@ == absorb_all(old(self)@, vec@.take(offset as int)),
                self@.count == old(self)@.count + offset,
                old(self)@.count + vec@.len() <= MAX_TERMS,
            decreases n,
        {
            self.sacc.ensure_budget();
            let m: usize = if (self.sacc.adds_until_propagate as usize) < n {
                self.sacc.adds_until_propagate as usize
            } else {
                n
            };
            let mut i: usize = 0;
            while i < m
                invariant
                    self.wf(),
                    i <= m <= n,
                    offset + n == vec.len(),
                    self.sacc.adds_until_propagate >= m - i,
                    self@ == absorb_all(old(self)@, vec@.take(offset + i)),
                    self@.count == old(self)@.count + offset + i,
                    old(self)@.count + vec@.len() <= MAX_TERMS,
                decreases m - i,
            {
                let value = vec[offset + i];
                proof {
                    lemma_absorb_all_push(old(self)@, vec@.take(offset + i), value);
                    assert(vec@.take(offset + i).push(value) =~= vec@.take(offset + i + 1));
                }
                self.sacc.add_with_budget(value);
                i = i + 1;
            }
            offset = offset + m;
            n = n - m;
        }
        assert(vec@.take(offset as int) =~= vec@);
    }

    /// Adds one value.
    pub fn add(&mut self, value: u64)
        requires
            old(self).wf(),
            old(self)@.count < MAX_TERMS,
        ensures
            final(self).wf(),
            final(self)@ == absorb(old(self)@, value),
            final(self).acc().adds_until_propagate <= SMALL_CARRY_TERMS - 1,
    {
        self.sacc.add(value);
    }

    /// The exact sum of the values added, rounded once to binary64 (ties to
    /// even); see `result_bits`. The summer keeps what it holds.
    pub fn sum(&mut self) -> (r: u64)
        requires
            old(self).wf(),
        ensures
            final(self).wf(),
            final(self)@ == old(self)@,
            r == result_bits(old(self)@),
    {
        self.sacc.sum()
    }

    /// Forgets every value added.
    pub fn clear(&mut self)
        ensures
            final(self).wf(),
            final(self)@ == empty_tally(),
            final(self).acc().is_fresh(),
    {
        *self = XsumSmall::new();
    }
}

} // verus!
