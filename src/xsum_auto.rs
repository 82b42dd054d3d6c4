//! A summer that starts small and moves to the large accumulator once it has
//! seen more than a threshold of values.
use crate::small_accumulator::MAX_TERMS;
use crate::tally::{absorb, absorb_all, empty_tally, result_bits, Tally};
use crate::xsum_large::XsumLarge;
use crate::xsum_small::XsumSmall;
use vstd::prelude::*;

verus! {

/// Inputs beyond which the large accumulator pays off.
pub const XSUM_THRESHOLD: usize = 1000;

enum XsumKind {
    XSmall(XsumSmall),
    XLarge(XsumLarge),
}

/// An exact summer for an input size not known in advance.
pub struct XsumAuto {
    m_xsum: XsumKind,
}

impl View for XsumAuto {
    type V = Tally;

    closed spec fn view(&self) -> Tally {
        match &self.m_xsum {
            XsumKind::XSmall(x) => x@,
            XsumKind::XLarge(x) => x@,
        }
    }
}

impl Default for XsumAuto {
    fn default() -> (r: Self)
        ensures
            r.wf(),
            r@ == empty_tally(),
    {
        XsumAuto::new()
    }
}

impl XsumAuto {
    /// The invariant of the summer in use.
    pub closed spec fn wf(&self) -> bool {
        match &self.m_xsum {
            XsumKind::XSmall(x) => x.wf(),
            XsumKind::XLarge(x) => x.wf(),
        }
    }

    /// Whether the large accumulator is in use.
    pub closed spec fn is_large(&self) -> bool {
        self.m_xsum is XLarge
    }

    /// The small summer in use, while it is.
    pub closed spec fn small(&self) -> XsumSmall
        recommends
            !self.is_large(),
    {
        self.m_xsum->XSmall_0
    }

    /// The large summer in use, once it is.
    pub closed spec fn large(&self) -> XsumLarge
        recommends
            self.is_large(),
    {
        self.m_xsum->XLarge_0
    }

    /// `b` is what `a` moves to: a large summer holding `a`'s small
    /// accumulator unchanged beside fresh tables.
    pub open spec fn migrated(a: XsumSmall, b: XsumLarge) -> bool {
        &&& b.acc().sacc == a.acc()
        &&& b.acc().fresh_tables()
    }

    /// Moves to the large accumulator once more than `XSUM_THRESHOLD` values
    /// went into the small one.
    fn transform_to_large(&mut self)
        requires
            old(self).wf(),
        ensures
            final(self).wf(),
            final(self)@ == old(self)@,
            final(self).is_large() == (old(self).is_large() || old(self)@.count > XSUM_THRESHOLD),
            old(self).is_large() || old(self)@.count <= XSUM_THRESHOLD ==> *final(self) == *old(
                self,
            ),
            !old(self).is_large() && old(self)@.count > XSUM_THRESHOLD ==> XsumAuto::migrated(
                old(self).small(),
                final(self).large(),
            ),
    {
        let should_transform = match &self.m_xsum {
            XsumKind::XSmall(xsmall) => xsmall.get_size_count() > XSUM_THRESHOLD as u64,
            _ => false,
        };
        if !should_transform {
            return;
        }
        let mut old_xsum = XsumKind::XSmall(XsumSmall::new());
        std::mem::swap(&mut self.m_xsum, &mut old_xsum);
        self.m_xsum = match old_xsum {
            XsumKind::XSmall(xsmall) => XsumKind::XLarge(XsumLarge::from_xsum_small(xsmall)),
            other => other,
        };
    }

    /// An empty summer, on the small accumulator.
    pub fn new() -> (r: Self)
        ensures
            r.wf(),
            r@ == empty_tally(),
            !r.is_large(),
    {
        XsumAuto { m_xsum: XsumKind::XSmall(XsumSmall::new()) }
    }

    /// How many values were added.
    pub fn get_size_count(&self) -> (r: u64)
        ensures
            r == self@.count,
    {
        match &self.m_xsum {
            XsumKind::XSmall(x) => x.get_size_count(),
            XsumKind::XLarge(x) => x.get_size_count(),
        }
    }

    /// Adds every value of `vec`, in order.
    pub fn add_list(&mut self, vec: &[u64])
        requires
            old(self).wf(),
            old(self)@.count + vec@.len() <= MAX_TERMS,
        ensures
            final(self).wf(),
            final(self)@ == absorb_all(old(self)@, vec@),
            final(self).is_large() == (old(self).is_large() || final(self)@.count > XSUM_THRESHOLD),
            !old(self).is_large() && final(self).is_large()
                ==> final(self).large().acc().fresh_tables(),
    {
        match &mut self.m_xsum {
            XsumKind::XSmall(xsmall) => {
                xsmall.add_list(vec);
            },
            XsumKind::XLarge(xlarge) => {
                xlarge.add_list(vec);
            },
        }
        self.transform_to_large();
    }

    /// Adds one value.
    pub fn add(&mut self, value: u64)
        requires
            old(self).wf(),
            old(self)@.count < MAX_TERMS,
        ensures
            final(self).wf(),
            final(self)@ == absorb(old(self)@, value),
            final(self).is_large() == (old(self).is_large() || final(self)@.count > XSUM_THRESHOLD),
            !old(self).is_large() && final(self).is_large()
                ==> final(self).large().acc().fresh_tables(),
    {
        match &mut self.m_xsum {
            XsumKind::XSmall(xsmall) => {
                xsmall.add(value);
            },
            XsumKind::XLarge(xlarge) => {
                xlarge.add(value);
            },
        }
        self.transform_to_large();
    }

    /// The exact sum of the values added, rounded once to binary64 (ties to
    /// even); see `result_bits`. What the summer holds is unchanged.
    pub fn sum(&mut self) -> (r: u64)
        requires
            old(self).wf(),
        ensures
            final(self).wf(),
            final(self)@ == old(self)@,
            final(self).is_large() == old(self).is_large(),
            r == result_bits(old(self)@),
    {
        match &mut self.m_xsum {
            XsumKind::XSmall(xsmall) => xsmall.sum(),
            XsumKind::XLarge(xlarge) => xlarge.sum(),
        }
    }

    /// Forgets every value added, going back to the small accumulator.
    pub fn clear(&mut self)
        ensures
            final(self).wf(),
            final(self)@ == empty_tally(),
            !final(self).is_large(),
    {
        *self = XsumAuto::new();
    }
}

} // verus!
