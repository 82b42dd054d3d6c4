//! Exact, correctly rounded summation of binary64 values.
//!
//! Every value is handled as its IEEE-754 bit pattern (`u64`). A summer
//! keeps the exact sum of what it was given and rounds it once, to nearest
//! with ties to even, when asked for the result; the order of the inputs
//! never matters.
pub mod layout;
pub mod rounding;
pub mod tally;
pub mod laws;
pub mod small_accumulator;
pub mod large_accumulator;
pub mod xsum_small;
pub mod xsum_large;
pub mod xsum_auto;
pub mod xsum_variant;
pub mod slice_sum;

pub use slice_sum::xsum;
pub use small_accumulator::MAX_TERMS;
pub use xsum_auto::{XsumAuto, XSUM_THRESHOLD};
pub use xsum_large::XsumLarge;
pub use xsum_small::XsumSmall;
pub use xsum_variant::XsumVariant;
