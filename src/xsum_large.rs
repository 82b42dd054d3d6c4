//! Exact summation through the large superaccumulator.
use crate::large_accumulator::{fast_path, LargeAccumulator, LCHUNKS};
use crate::small_accumulator::MAX_TERMS;
use crate::tally::{absorb, absorb_all, empty_tally, lemma_absorb_all_push, result_bits, Tally};
use crate::xsum_small::XsumSmall;
use vstd::prelude::*;

verus! {

/// An exact summer of binary64 bit patterns, best for a thousand values or
/// more: most adds cost one decrement and one wrapping add.
pub struct XsumLarge {
    lacc: LargeAccumulator,
}

impl View for XsumLarge {
    type V = Tally;

    closed spec fn view(&self) -> Tally {
        self.lacc.tally()
    }
}

impl Default for XsumLarge {
    fn default() -> (r: Self)
        ensures
            r.wf(),
            r@ == empty_tally(),
    {
        XsumLarge::new()
    }
}

impl XsumLarge {
    /// The accumulator's internal invariant.
    pub closed spec fn wf(&self) -> bool {
        self.lacc.wf()
    }

    /// The large accumulator inside.
    pub closed spec fn acc(&self) -> LargeAccumulator {
        self.lacc
    }

    /// An empty summer.
    pub fn new() -> (r: Self)
        ensures
            r.wf(),
            r@ == empty_tally(),
            r.acc().fresh_tables(),
            r.acc().sacc.is_fresh(),
    {
        XsumLarge { lacc: LargeAccumulator::new() }
    }

    /// A large summer that goes on from what `xsmall` holds.
    pub fn from_xsum_small(xsmall: XsumSmall) -> (r: Self)
        requires
            xsmall.wf(),
        ensures
            r.wf(),
            r@ == xsmall@,
            r.acc().sacc == xsmall.acc(),
            r.acc().fresh_tables(),
    {
        let mut lacc = LargeAccumulator::new();
        let ghost fresh = lacc;
        lacc.sacc = xsmall.transfer_accumulator();
        proof {
            LargeAccumulator::lemma_one_slot_changed(&fresh, &lacc, 0);
            assert forall|ix: int| 0 <= ix < 4096 && #[trigger] lacc.count@[ix] != -1 implies lacc.marked(ix) by {
                assert(fresh.count@[ix] != -1);
            }
        }
        XsumLarge { lacc }
    }

    /// How many values were added.
    pub fn get_size_count(&self) -> (r: u64)
        ensures
            r == self@.count,
    {
        self.lacc.sacc.size_count
    }

    /// Adds every value of `vec`, in order.
    pub fn add_list(&mut self, vec: &[u64])
        requires
            old(self).wf(),
            old(self)@.count + vec@.len() <= MAX_TERMS,
        ensures
            final(self).wf(),
            final(self)@ == absorb_all(old(self)@, vec@),
    {
        let mut i: usize = 0;
        while i < vec.len()
            invariant
                self.wf(),
                i <= vec.len(),
                self@ == absorb_all(old(self)@, vec@.take(i as int)),
                self@.count == old(self)@.count + i,
                old(self)@.count + vec@.len() <= MAX_TERMS,
            decreases vec.len() - i,
        {
            let value = vec[i];
            proof {
                lemma_absorb_all_push(old(self)@, vec@.take(i as int), value);
                assert(vec@.take(i as int).push(value) =~= vec@.take(i + 1));
            }
            self.add(value);
            i = i + 1;
        }
        assert(vec@.take(i as int) =~= vec@);
    }

    /// Adds one value.
    pub fn add(&mut self, value: u64)
        requires
            old(self).wf(),
            old(self)@.count < MAX_TERMS,
        ensures
            final(self).wf(),
            final(self)@ == absorb(old(self)@, value),
            forall|j: int|
                0 <= j < LCHUNKS && j != (value >> 52) ==> final(self).acc().chunk@[j] == old(
                    self,
                ).acc().chunk@[j] && final(self).acc().count@[j] == old(self).acc().count@[j],
            old(self).acc().count@[(value >> 52) as int] >= 1 ==> fast_path(
                old(self).acc(),
                final(self).acc(),
                value,
            ),
    {
        self.lacc.add(value);
    }

    /// The exact sum of the values added, rounded once to binary64 (ties to
    /// even); see `result_bits`. What the summer holds is unchanged.
    pub fn sum(&mut self) -> (r: u64)
        requires
            old(self).wf(),
        ensures
            final(self).wf(),
            final(self)@ == old(self)@,
            r == result_bits(old(self)@),
    {
        self.lacc.transfer_to_small();
        let mut small = XsumSmall::new_with(&self.lacc.sacc);
        small.sum()
    }

    /// Forgets every value added.
    pub fn clear(&mut self)
        ensures
            final(self).wf(),
            final(self)@ == empty_tally(),
            final(self).acc().fresh_tables(),
            final(self).acc().sacc.is_fresh(),
    {
        *self = XsumLarge::new();
    }
}

} // verus!
