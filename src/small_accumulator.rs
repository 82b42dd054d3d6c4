//! The small superaccumulator: 67 signed 64-bit chunks, chunk `k` weighing
//! 2^(32k) units of 2^-1075, so that together they tile the whole binary64
//! exponent range with room for carries.
use crate::layout::{
    exp_field, is_infinite, is_negative, is_special, mant_field, lemma_fields, lemma_magnitude_bound, max_magnitude,
    scale_exp, significand, value_of, EXP_MASK, MANTISSA_MASK, MANTISSA_SCALE, NEG_ZERO_BITS,
    OVERFLOW_NAN_BITS, QUIET_NAN_BITS, SIGN_MASK,
};
use crate::rounding::round_parts;
use crate::tally::{inf_step, nan_step, Tally};
use vstd::arithmetic::power2::{lemma2_to64, lemma2_to64_rest, lemma_pow2_adds, lemma_pow2_pos, pow2};
use vstd::prelude::*;

verus! {

/// Number of chunks.
pub const SCHUNKS: usize = 67;

/// Adds that can go into the chunks between two carry propagations.
pub const SMALL_CARRY_TERMS: i64 = 2047;

/// Mask of the low 32 bits that a normalized chunk keeps.
pub const LOW_MANTISSA_MASK: i64 = 0xFFFF_FFFF;

/// Most inputs one accumulator takes. Below it no sum can reach beyond the
/// top chunk, so every sum stays exact.
pub const MAX_TERMS: u64 = 0x100_0000_0000;

/// The weight of chunk `k`: 2^(32k).
pub open spec fn chunk_weight(k: nat) -> nat {
    pow2(32 * k)
}

/// The value of the first `n` chunks.
pub open spec fn chunks_value(c: Seq<i64>, n: nat) -> int
    decreases n,
{
    if n == 0 {
        0
    } else {
        chunks_value(c, (n - 1) as nat) + c[n - 1] * chunk_weight((n - 1) as nat)
    }
}

/// Only chunks `h` and `h + 1` differ between `c0` and `c1`, each by less
/// than 2^53.
pub open spec fn two_chunks_moved(c0: Seq<i64>, c1: Seq<i64>, h: int) -> bool {
    &&& c1.len() == c0.len()
    &&& forall|k: int| 0 <= k < c0.len() && k != h && k != h + 1 ==> #[trigger] c1[k] == c0[k]
    &&& -2 * MANTISSA_SCALE < c1[h] - c0[h] < 2 * MANTISSA_SCALE
    &&& -2 * MANTISSA_SCALE < c1[h + 1] - c0[h + 1] < 2 * MANTISSA_SCALE
}

/// Each chunk is within 2^32 + extra * 2^52 in absolute value.
pub open spec fn chunks_within(c: Seq<i64>, extra: int) -> bool {
    forall|k: int|
        0 <= k < c.len() ==> -(0x1_0000_0000 + extra * MANTISSA_SCALE) <= #[trigger] c[k] <= (
        0x1_0000_0000 + extra * MANTISSA_SCALE)
}

/// The chunks after carry propagation, `u` the uppermost non-zero one (or 0):
/// those below `u` hold 32 bits each, those above are zero, and the top one is
/// neither 0 nor -1 unless it is chunk 0.
pub open spec fn normalized(c: Seq<i64>, u: int) -> bool {
    &&& 0 <= u < c.len()
    &&& forall|k: int| 0 <= k < u ==> 0 <= #[trigger] c[k] < 0x1_0000_0000
    &&& forall|k: int| u < k < c.len() ==> #[trigger] c[k] == 0
    &&& -0x1_0000_0000 <= c[u] < 0x1_0000_0000
    &&& u > 0 ==> c[u] != 0 && c[u] != -1
}

pub proof fn lemma_chunk_weight_next(k: nat)
    ensures
        chunk_weight(k + 1) == chunk_weight(k) * 0x1_0000_0000,
        chunk_weight(k) > 0,
{
    lemma_pow2_adds(32 * k, 32);
    lemma2_to64();
    lemma_pow2_pos(32 * k);
    assert(32 * (k + 1) == 32 * k + 32);
}

/// Changing one chunk changes the value by the difference at its weight.
pub proof fn lemma_value_update(c: Seq<i64>, j: int, x: i64, n: nat)
    requires
        0 <= j < c.len(),
        n <= c.len(),
    ensures
        chunks_value(c.update(j, x), n) == chunks_value(c, n) + (if j < n {
            (x - c[j]) * chunk_weight(j as nat)
        } else {
            0
        }),
    decreases n,
{
    if n > 0 {
        lemma_value_update(c, j, x, (n - 1) as nat);
        if j == n - 1 {
            assert(x * chunk_weight(j as nat) - c[j] * chunk_weight(j as nat) == (x - c[j])
                * chunk_weight(j as nat)) by (nonlinear_arith);
        }
    }
}

/// Chunks of 32 bits each make a value of `32 n` bits.
pub proof fn lemma_value_range(c: Seq<i64>, n: nat)
    requires
        n <= c.len(),
        forall|k: int| 0 <= k < n ==> 0 <= #[trigger] c[k] < 0x1_0000_0000,
    ensures
        0 <= chunks_value(c, n) < chunk_weight(n),
        chunks_value(c, n) == 0 <==> forall|k: int| 0 <= k < n ==> #[trigger] c[k] == 0,
    decreases n,
{
    if n == 0 {
        assert(chunk_weight(0) == 1) by {
            lemma2_to64();
        }
    } else {
        let n1 = (n - 1) as nat;
        lemma_value_range(c, n1);
        lemma_chunk_weight_next(n1);
        let w = chunk_weight(n1) as int;
        let v = chunks_value(c, n1);
        let x = c[n - 1] as int;
        assert(0 <= x * w <= (0x1_0000_0000 - 1) * w) by (nonlinear_arith)
            requires
                0 <= x < 0x1_0000_0000,
                w > 0,
        ;
        assert(x != 0 ==> x * w >= w) by (nonlinear_arith)
            requires
                0 <= x,
                w > 0,
        ;
        assert(chunks_value(c, n) == v + x * w);
        if chunks_value(c, n) == 0 {
            assert(x == 0 && v == 0);
            assert forall|k: int| 0 <= k < n implies #[trigger] c[k] == 0 by {
                if k < n - 1 {
                    assert(c[k] == 0);
                }
            }
        }
        if forall|k: int| 0 <= k < n ==> #[trigger] c[k] == 0 {
            assert(x == 0);
            assert(forall|k: int| 0 <= k < n1 ==> #[trigger] c[k] == 0);
            assert(v == 0);
            assert(x * w == 0) by (nonlinear_arith)
                requires
                    x == 0,
            ;
        }
    }
}

/// Zero chunks from `n` up add nothing.
pub proof fn lemma_value_zero_top(c: Seq<i64>, n: nat, m: nat)
    requires
        n <= m <= c.len(),
        forall|k: int| n <= k < m ==> #[trigger] c[k] == 0,
    ensures
        chunks_value(c, m) == chunks_value(c, n),
    decreases m,
{
    if m > n {
        lemma_value_zero_top(c, n, (m - 1) as nat);
    }
}

pub struct SmallAccumulator {
    pub chunk: Vec<i64>,
    pub adds_until_propagate: i64,
    pub inf: u64,
    pub nan: u64,
    pub size_count: u64,
    pub has_pos_number: bool,
}

impl SmallAccumulator {
    /// The exact value of the chunks, in units of 2^-1075.
    pub open spec fn total(&self) -> int {
        chunks_value(self.chunk@, SCHUNKS as nat)
    }

    /// What the accumulator holds.
    pub open spec fn tally(&self) -> Tally {
        Tally {
            total: self.total(),
            inf: self.inf,
            nan: self.nan,
            pos: self.has_pos_number,
            count: self.size_count as nat,
        }
    }

    /// The chunks and the budget of adds are consistent.
    pub open spec fn wf_except_total(&self) -> bool {
        &&& self.chunk.len() == SCHUNKS
        &&& 0 <= self.adds_until_propagate <= SMALL_CARRY_TERMS
        &&& chunks_within(self.chunk@, SMALL_CARRY_TERMS - self.adds_until_propagate)
        &&& self.size_count <= MAX_TERMS
    }

    /// The budget of adds left keeps every chunk far from overflow, and the
    /// total is bounded by the number of inputs.
    pub open spec fn wf(&self) -> bool {
        &&& self.wf_except_total()
        &&& -(self.size_count * max_magnitude()) <= self.total() <= self.size_count
            * max_magnitude()
    }

    /// The state of a new accumulator: 67 zero chunks, the whole budget of
    /// adds, no infinity or NaN, nothing counted.
    pub open spec fn is_fresh(&self) -> bool {
        &&& self.chunk@ == Seq::new(SCHUNKS as nat, |k: int| 0i64)
        &&& self.adds_until_propagate == SMALL_CARRY_TERMS
        &&& self.inf == 0
        &&& self.nan == 0
        &&& self.size_count == 0
        &&& !self.has_pos_number
    }

    pub fn new() -> (r: Self)
        ensures
            r.wf(),
            r.is_fresh(),
            r.tally() == crate::tally::empty_tally(),
    {
        let r = SmallAccumulator {
            chunk: vec![0i64; SCHUNKS],
            adds_until_propagate: SMALL_CARRY_TERMS,
            inf: 0,
            nan: 0,
            size_count: 0,
            has_pos_number: false,
        };
        proof {
            lemma_value_zero_top(r.chunk@, 0, SCHUNKS as nat);
        }
        assert(r.chunk@ =~= Seq::new(SCHUNKS as nat, |k: int| 0i64));
        r
    }

    /// An accumulator with the given parts.
    pub fn new_based_on(
        chunk: &[i64],
        adds_until_propagate: i64,
        inf: u64,
        nan: u64,
        size_count: u64,
        has_pos_number: bool,
    ) -> (r: Self)
        ensures
            r.chunk@ == chunk@,
            r.adds_until_propagate == adds_until_propagate,
            r.inf == inf,
            r.nan == nan,
            r.size_count == size_count,
            r.has_pos_number == has_pos_number,
    {
        let mut copy: Vec<i64> = Vec::with_capacity(chunk.len());
        let mut i: usize = 0;
        while i < chunk.len()
            invariant
                i <= chunk.len(),
                copy@ == chunk@.take(i as int),
            decreases chunk.len() - i,
        {
            copy.push(chunk[i]);
            i = i + 1;
            assert(copy@ =~= chunk@.take(i as int));
        }
        assert(copy@ =~= chunk@);
        SmallAccumulator {
            chunk: copy,
            adds_until_propagate,
            inf,
            nan,
            size_count,
            has_pos_number,
        }
    }

    /// Records an infinity or a NaN.
    pub fn add_inf_nan(&mut self, ivalue: u64)
        requires
            is_special(ivalue),
        ensures
            final(self).inf == inf_step(old(self).inf, ivalue),
            final(self).nan == nan_step(old(self).nan, ivalue),
            final(self).chunk == old(self).chunk,
            final(self).adds_until_propagate == old(self).adds_until_propagate,
            final(self).size_count == old(self).size_count,
            final(self).has_pos_number == old(self).has_pos_number,
    {
        proof {
            lemma_fields(ivalue);
            lemma_fields(self.nan);
        }
        let mantissa = ivalue & MANTISSA_MASK;
        if mantissa == 0 {
            if self.inf == 0 {
                self.inf = ivalue;
            } else if self.inf != ivalue {
                self.inf = QUIET_NAN_BITS;
            }
        } else {
            if (self.nan & MANTISSA_MASK) <= mantissa {
                assert(ivalue & !SIGN_MASK == ivalue % 0x8000_0000_0000_0000) by (bit_vector);
                self.nan = ivalue & !SIGN_MASK;
            }
        }
    }

    /// Folds a finite value into two adjacent chunks (or records an infinity
    /// or NaN), without touching the carry budget.
    pub fn add1_no_carry(&mut self, ivalue: u64)
        requires
            old(self).chunk.len() == SCHUNKS,
            chunks_within(old(self).chunk@, SMALL_CARRY_TERMS - old(self).adds_until_propagate),
            1 <= old(self).adds_until_propagate <= SMALL_CARRY_TERMS,
        ensures
            final(self).chunk.len() == SCHUNKS,
            chunks_within(
                final(self).chunk@,
                SMALL_CARRY_TERMS - old(self).adds_until_propagate + 1,
            ),
            final(self).total() == old(self).total() + value_of(ivalue),
            final(self).inf == inf_step(old(self).inf, ivalue),
            final(self).nan == nan_step(old(self).nan, ivalue),
            final(self).adds_until_propagate == old(self).adds_until_propagate,
            final(self).size_count == old(self).size_count,
            final(self).has_pos_number == old(self).has_pos_number,
            is_special(ivalue) || (exp_field(ivalue) == 0 && mant_field(ivalue) == 0)
                ==> final(self).chunk@ == old(self).chunk@,
            exp_field(ivalue) == 0 && mant_field(ivalue) == 0 ==> final(self).inf == old(self).inf
                && final(self).nan == old(self).nan,
            !is_special(ivalue) && !(exp_field(ivalue) == 0 && mant_field(ivalue) == 0)
                ==> two_chunks_moved(old(self).chunk@, final(self).chunk@, (exp_field(ivalue) / 32) as int),
    {
        proof {
            lemma_fields(ivalue);
        }
        let exp: u64 = (ivalue >> 52) & EXP_MASK;
        let mut mantissa: u64 = ivalue & MANTISSA_MASK;
        assert(exp >> 5 == exp / 32 && exp & 31 == exp % 32) by (bit_vector);
        let high_exp: usize = (exp >> 5) as usize;
        let mut low_exp: u64 = exp & 31;
        if exp == 0 {
            if mantissa == 0 {
                assert(significand(ivalue) == 0);
                assert(crate::layout::magnitude(ivalue) == 0);
                assert(value_of(ivalue) == 0);
                return;
            }
            low_exp = 1;
        } else if exp == EXP_MASK {
            self.add_inf_nan(ivalue);
            return;
        } else {
            mantissa = mantissa + MANTISSA_SCALE;
        }
        assert(!is_special(ivalue) && !is_infinite(ivalue));
        assert(mantissa == significand(ivalue));
        assert(scale_exp(ivalue) == 32 * high_exp + low_exp);
        proof {
            vstd::bits::lemma_u64_pow2_no_overflow(low_exp as nat);
            vstd::bits::lemma_u64_shl_is_mul(1, low_exp);
            lemma2_to64();
        }
        let scale: u64 = 1u64 << low_exp;
        assert(scale == pow2(low_exp as nat));
        assert(scale <= 0x8000_0000);
        assert(mantissa < 0x20_0000_0000_0000);
        assert(mantissa * scale < 0x20_0000_0000_0000 * 0x8000_0000) by (nonlinear_arith)
            requires
                mantissa < 0x20_0000_0000_0000,
                scale <= 0x8000_0000,
        ;
        // The mantissa shifted by the low exponent bits spans two chunks: its
        // low 32 bits go into chunk `high_exp`, the rest into the next one.
        let shifted: u128 = mantissa as u128 * scale as u128;
        let low_part: i64 = (shifted % 0x1_0000_0000) as i64;
        let high_part: i64 = (shifted / 0x1_0000_0000) as i64;
        assert(high_part < MANTISSA_SCALE);
        let ghost c0 = self.chunk@;
        let ghost w = chunk_weight(high_exp as nat) as int;
        proof {
            lemma_chunk_weight_next(high_exp as nat);
            lemma_pow2_adds(32 * high_exp as nat, low_exp as nat);
            let sh = shifted as int;
            let lo = sh % 0x1_0000_0000;
            let hi = sh / 0x1_0000_0000;
            assert(sh == hi * 0x1_0000_0000 + lo);
            assert(lo * w + hi * (w * 0x1_0000_0000) == sh * w) by (nonlinear_arith)
                requires
                    sh == hi * 0x1_0000_0000 + lo,
            ;
            assert(sh * w == mantissa * (w * pow2(low_exp as nat))) by (nonlinear_arith)
                requires
                    sh == mantissa * scale,
                    scale == pow2(low_exp as nat),
            ;
            assert(lo * w + hi * (w * 0x1_0000_0000) == crate::layout::magnitude(ivalue));
        }
        let ghost extra = SMALL_CARRY_TERMS - self.adds_until_propagate;
        assert(-(0x1_0000_0000 + extra * MANTISSA_SCALE) <= c0[high_exp as int]);
        assert(c0[high_exp + 1] <= 0x1_0000_0000 + extra * MANTISSA_SCALE);
        if ivalue >> 63 == 1 {
            let a = self.chunk[high_exp] - low_part;
            self.chunk.set(high_exp, a);
            let b = self.chunk[high_exp + 1] - high_part;
            self.chunk.set(high_exp + 1, b);
        } else {
            let a = self.chunk[high_exp] + low_part;
            self.chunk.set(high_exp, a);
            let b = self.chunk[high_exp + 1] + high_part;
            self.chunk.set(high_exp + 1, b);
        }
        proof {
            let c1 = c0.update(high_exp as int, self.chunk@[high_exp as int]);
            lemma_value_update(c0, high_exp as int, self.chunk@[high_exp as int], SCHUNKS as nat);
            lemma_value_update(
                c1,
                high_exp + 1,
                self.chunk@[high_exp + 1],
                SCHUNKS as nat,
            );
            assert(self.chunk@ =~= c1.update(high_exp + 1, self.chunk@[high_exp + 1]));
            assert(c1[high_exp + 1] == c0[high_exp + 1]);
            assert(chunk_weight((high_exp + 1) as nat) == w * 0x1_0000_0000);
            let d0 = self.chunk@[high_exp as int] - c0[high_exp as int];
            let d1 = self.chunk@[high_exp + 1] - c0[high_exp + 1];
            assert(self.total() == old(self).total() + d0 * w + d1 * (w * 0x1_0000_0000));
            if is_negative(ivalue) {
                assert(d0 == -low_part && d1 == -high_part);
                assert(d0 * w + d1 * (w * 0x1_0000_0000) == -(low_part * w + high_part * (w
                    * 0x1_0000_0000))) by (nonlinear_arith)
                    requires
                        d0 == -low_part,
                        d1 == -high_part,
                ;
            } else {
                assert(d0 == low_part && d1 == high_part);
            }
            assert forall|k: int| 0 <= k < SCHUNKS implies -(0x1_0000_0000 + (extra + 1)
                * MANTISSA_SCALE) <= #[trigger] self.chunk@[k] <= 0x1_0000_0000 + (extra + 1)
                * MANTISSA_SCALE by {
                assert(-(0x1_0000_0000 + extra * MANTISSA_SCALE) <= c0[k]);
                assert(c0[k] <= 0x1_0000_0000 + extra * MANTISSA_SCALE);
            }
        }
    }

    /// Moves the bits above the low 32 of each chunk into the next chunk up,
    /// keeping the value, then folds a top chunk of -1 into the one below.
    /// Returns the index of the uppermost non-zero chunk (0 if there is none)
    /// and resets the budget of adds. A carry out of the top chunk (a sum
    /// beyond the accumulator, impossible below `MAX_TERMS` inputs) is
    /// dropped and recorded as the NaN with an all-ones payload.
    pub fn carry_propagate(&mut self) -> (u: usize)
        requires
            old(self).chunk.len() == SCHUNKS,
            chunks_within(old(self).chunk@, SMALL_CARRY_TERMS as int),
        ensures
            final(self).chunk.len() == SCHUNKS,
            normalized(final(self).chunk@, u as int),
            -pow2(2139) <= old(self).total() <= pow2(2139) ==> final(self).total() == old(
                self,
            ).total() && final(self).nan == old(self).nan,
            final(self).total() == old(self).total() || final(self).nan == OVERFLOW_NAN_BITS,
            final(self).nan == old(self).nan || final(self).nan == OVERFLOW_NAN_BITS,
            final(self).adds_until_propagate == SMALL_CARRY_TERMS - 1,
            final(self).size_count == old(self).size_count,
            final(self).has_pos_number == old(self).has_pos_number,
            final(self).inf == old(self).inf,
    {
        let ghost bound: int = 0x1_0000_0000 + SMALL_CARRY_TERMS * MANTISSA_SCALE + 0x8000_0000;
        let mut i: usize = 0;
        while i < SCHUNKS - 1
            invariant
                self.chunk.len() == SCHUNKS,
                0 <= i <= SCHUNKS - 1,
                bound == 0x1_0000_0000 + SMALL_CARRY_TERMS * MANTISSA_SCALE + 0x8000_0000,
                self.total() == old(self).total(),
                forall|k: int| 0 <= k < i ==> 0 <= #[trigger] self.chunk@[k] < 0x1_0000_0000,
                forall|k: int|
                    i < k < SCHUNKS ==> #[trigger] self.chunk@[k] == old(self).chunk@[k],
                -bound <= self.chunk@[i as int] <= bound,
                chunks_within(old(self).chunk@, SMALL_CARRY_TERMS as int),
                old(self).chunk.len() == SCHUNKS,
                self.adds_until_propagate == old(self).adds_until_propagate,
                self.size_count == old(self).size_count,
                self.has_pos_number == old(self).has_pos_number,
                self.inf == old(self).inf,
                self.nan == old(self).nan,
            decreases SCHUNKS - 1 - i,
        {
            let c = self.chunk[i];
            let chigh: i64 = c >> 32;
            assert(-0x7FFF_FF00_0000_0000 <= c <= 0x7FFF_FF00_0000_0000);
            assert(-0x8000_0000 <= c >> 32 < 0x8000_0000 && (c & 0xFFFF_FFFF) + (c >> 32)
                * 0x1_0000_0000 == c && 0 <= (c & 0xFFFF_FFFF) < 0x1_0000_0000 && (c >> 32 == 0
                ==> 0 <= c < 0x1_0000_0000)) by (bit_vector)
                requires
                    -0x7FFF_FF00_0000_0000 <= c <= 0x7FFF_FF00_0000_0000,
            ;
            let ghost c0 = self.chunk@;
            assert(-(0x1_0000_0000 + SMALL_CARRY_TERMS * MANTISSA_SCALE) <= old(self).chunk@[i
                + 1] <= 0x1_0000_0000 + SMALL_CARRY_TERMS * MANTISSA_SCALE);
            if chigh != 0 {
                let clow = c & LOW_MANTISSA_MASK;
                self.chunk.set(i, clow);
                let nxt = self.chunk[i + 1] + chigh;
                self.chunk.set(i + 1, nxt);
                proof {
                    let c1 = c0.update(i as int, clow);
                    lemma_value_update(c0, i as int, clow, SCHUNKS as nat);
                    lemma_value_update(c1, i + 1, nxt, SCHUNKS as nat);
                    assert(self.chunk@ =~= c1.update(i + 1, nxt));
                    lemma_chunk_weight_next(i as nat);
                    let w = chunk_weight(i as nat) as int;
                    assert((clow - c) * w + (nxt - c1[i + 1]) * (w * 0x1_0000_0000) == 0)
                        by (nonlinear_arith)
                        requires
                            clow + chigh * 0x1_0000_0000 == c,
                            nxt - c1[i + 1] == chigh,
                    ;
                }
            }
            i = i + 1;
        }
        // The top chunk has nowhere to carry to.
        let top = self.chunk[SCHUNKS - 1];
        let top_high: i64 = top >> 32;
        assert(-0x7FFF_FF00_0000_0000 <= top <= 0x7FFF_FF00_0000_0000);
        assert((top & 0xFFFF_FFFF) + (top >> 32) * 0x1_0000_0000 == top && 0 <= (top
            & 0xFFFF_FFFF) < 0x1_0000_0000 && ((top >> 32 == 0 || top >> 32 == -1) ==> -0x1_0000_0000
            <= top < 0x1_0000_0000) && (-0x800_0000 <= top <= 0x800_0000 ==> (top >> 32 == 0
            || top >> 32 == -1))) by (bit_vector)
            requires
                -0x7FFF_FF00_0000_0000 <= top <= 0x7FFF_FF00_0000_0000,
        ;
        // Below the bound the top chunk is small, since the total is.
        proof {
            let c = self.chunk@;
            lemma_value_range(c, 66);
            lemma_pow2_adds(2112, 27);
            lemma2_to64();
            let w = chunk_weight(66) as int;
            assert(32 * 66nat == 2112);
            assert(w > 0) by {
                lemma_pow2_pos(2112);
            }
            let v = chunks_value(c, 66);
            assert(self.total() == v + c[66] * w);
            if -pow2(2139) <= old(self).total() <= pow2(2139) {
                assert(-0x800_0000 <= c[66] <= 0x800_0000) by (nonlinear_arith)
                    requires
                        self.total() == v + c[66] * w,
                        0 <= v < w,
                        -(0x800_0000 * w) <= self.total() <= 0x800_0000 * w,
                        w > 0,
                ;
            }
        }
        if top_high != 0 && top_high != -1 {
            self.chunk.set(SCHUNKS - 1, top & LOW_MANTISSA_MASK);
            proof {
                lemma_fields(OVERFLOW_NAN_BITS);
                lemma_fields(self.nan);
            }
            self.add_inf_nan(OVERFLOW_NAN_BITS);
            assert(self.nan == OVERFLOW_NAN_BITS);
        }
        let ghost total1 = self.total();
        let ghost nan1 = self.nan;
        let mut u: usize = SCHUNKS - 1;
        while u > 0 && self.chunk[u] == 0
            invariant
                self.chunk.len() == SCHUNKS,
                0 <= u < SCHUNKS,
                forall|k: int| u < k < SCHUNKS ==> #[trigger] self.chunk@[k] == 0,
            decreases u,
        {
            u = u - 1;
        }
        while u > 0 && self.chunk[u] == -1
            invariant
                self.chunk.len() == SCHUNKS,
                0 <= u < SCHUNKS,
                self.total() == total1,
                total1 == old(self).total() || nan1 == OVERFLOW_NAN_BITS,
                nan1 == old(self).nan || nan1 == OVERFLOW_NAN_BITS,
                -pow2(2139) <= old(self).total() <= pow2(2139) ==> total1 == old(self).total()
                    && nan1 == old(self).nan,
                forall|k: int| 0 <= k < u ==> 0 <= #[trigger] self.chunk@[k] < 0x1_0000_0000,
                forall|k: int| u < k < SCHUNKS ==> #[trigger] self.chunk@[k] == 0,
                -0x1_0000_0000 <= self.chunk@[u as int] < 0x1_0000_0000,
                u > 0 ==> self.chunk@[u as int] != 0,
                self.adds_until_propagate == old(self).adds_until_propagate,
                self.size_count == old(self).size_count,
                self.has_pos_number == old(self).has_pos_number,
                self.inf == old(self).inf,
                self.nan == nan1,
            decreases u,
        {
            let ghost c0 = self.chunk@;
            let below = self.chunk[u - 1] - 0x1_0000_0000;
            self.chunk.set(u - 1, below);
            self.chunk.set(u, 0);
            proof {
                let c1 = c0.update(u - 1, below);
                lemma_value_update(c0, u - 1, below, SCHUNKS as nat);
                lemma_value_update(c1, u as int, 0, SCHUNKS as nat);
                assert(self.chunk@ =~= c1.update(u as int, 0));
                lemma_chunk_weight_next((u - 1) as nat);
                let w = chunk_weight((u - 1) as nat) as int;
                assert(c1[u as int] == -1);
                assert((below - c0[u - 1]) * w + (0 - c1[u as int]) * (w * 0x1_0000_0000) == 0)
                    by (nonlinear_arith)
                    requires
                        below - c0[u - 1] == -0x1_0000_0000,
                        c1[u as int] == -1,
                ;
            }
            u = u - 1;
        }
        self.adds_until_propagate = SMALL_CARRY_TERMS - 1;
        u
    }

    /// The total of a well-formed accumulator is far inside the chunk range.
    pub proof fn lemma_total_bound(&self)
        requires
            self.wf(),
        ensures
            -pow2(2139) <= self.total() <= pow2(2139),
    {
        lemma_pow2_adds(40, 2099);
        lemma2_to64_rest();
        let p = max_magnitude() as int;
        lemma_pow2_pos(2099);
        let n = self.size_count as int;
        assert(n * p <= 0x100_0000_0000 * p) by (nonlinear_arith)
            requires
                0 <= n <= 0x100_0000_0000,
                p > 0,
        ;
    }

    /// The value of the accumulator rounded to binary64: a NaN or infinity if
    /// one was recorded, -0.0 if nothing was added, else the exact total
    /// rounded to nearest, ties to even.
    pub fn sum(&mut self) -> (r: u64)
        requires
            old(self).wf(),
        ensures
            final(self).wf(),
            final(self).tally() == old(self).tally(),
            r == crate::tally::result_bits(old(self).tally()),
    {
        if self.nan != 0 {
            return self.nan;
        }
        if self.inf != 0 {
            return self.inf;
        }
        if self.size_count == 0 {
            return NEG_ZERO_BITS;
        }
        proof {
            self.lemma_total_bound();
        }
        let u = self.carry_propagate();
        // The top three chunks (or chunks 0 to 2) hold all the precision the
        // result can use; the chunks below them only tell whether anything
        // non-zero lies below.
        let base: usize = if u >= 2 {
            u - 2
        } else {
            0
        };
        let w: i128 = (self.chunk[base + 2] as i128) * 0x1_0000_0000_0000_0000 + (
        self.chunk[base + 1] as i128) * 0x1_0000_0000 + self.chunk[base] as i128;
        let mut low_nonzero = false;
        let mut j: usize = 0;
        while j < base
            invariant
                0 <= j <= base,
                base + 2 < SCHUNKS,
                self.chunk.len() == SCHUNKS,
                low_nonzero == exists|k: int| 0 <= k < j && #[trigger] self.chunk@[k] != 0,
            decreases base - j,
        {
            if self.chunk[j] != 0 {
                low_nonzero = true;
            }
            j = j + 1;
        }
        let ghost c = self.chunk@;
        let ghost low = chunks_value(c, base as nat);
        proof {
            lemma_value_range(c, base as nat);
            lemma_value_zero_top(c, (base + 3) as nat, SCHUNKS as nat);
            lemma_chunk_weight_next(base as nat);
            lemma_chunk_weight_next((base + 1) as nat);
            let wb = chunk_weight(base as nat) as int;
            assert(chunks_value(c, (base + 1) as nat) == low + c[base as int] * wb);
            assert(chunks_value(c, (base + 2) as nat) == chunks_value(c, (base + 1) as nat) + c[base
                + 1] * chunk_weight((base + 1) as nat));
            assert(chunks_value(c, (base + 3) as nat) == chunks_value(c, (base + 2) as nat) + c[base
                + 2] * chunk_weight((base + 2) as nat));
            assert(chunks_value(c, (base + 3) as nat) == low + c[base as int] * wb + c[base + 1]
                * (wb * 0x1_0000_0000) + c[base + 2] * (wb * 0x1_0000_0000 * 0x1_0000_0000));
            assert(self.total() == w * wb + low) by (nonlinear_arith)
                requires
                    self.total() == low + c[base as int] * wb + c[base + 1] * (wb * 0x1_0000_0000)
                        + c[base + 2] * (wb * 0x1_0000_0000 * 0x1_0000_0000),
                    w == c[base + 2] * 0x1_0000_0000_0000_0000 + c[base + 1] * 0x1_0000_0000
                        + c[base as int],
            ;
            assert((32 * base) as nat == 32 * (base as nat));
            if low_nonzero {
                let k = choose|k: int| 0 <= k < base && #[trigger] c[k] != 0;
                assert(c[k] != 0);
            }
            assert(low_nonzero == (low != 0));
            if base > 0 {
                assert(c[u as int] != 0 && c[u as int] != -1);
                assert(w >= 0x1_0000_0000_0000_0000 || w < -0x1_0000_0000_0000_0000);
            }
        }
        round_parts(w, 32 * base as u64, low_nonzero, self.has_pos_number, Ghost(low))
    }

    /// Makes room in the budget of adds, propagating carries if it ran out.
    pub fn ensure_budget(&mut self)
        requires
            old(self).wf(),
        ensures
            final(self).wf(),
            final(self).tally() == old(self).tally(),
            old(self).adds_until_propagate != 0 ==> *final(self) == *old(self),
            old(self).adds_until_propagate == 0 ==> final(self).adds_until_propagate
                == SMALL_CARRY_TERMS - 1,
            final(self).adds_until_propagate >= 1,
    {
        if self.adds_until_propagate == 0 {
            proof {
                self.lemma_total_bound();
            }
            self.carry_propagate();
            assert(chunks_within(self.chunk@, 1)) by {
                assert forall|k: int| 0 <= k < SCHUNKS implies -(0x1_0000_0000 + 1
                    * MANTISSA_SCALE) <= #[trigger] self.chunk@[k] <= 0x1_0000_0000 + 1
                    * MANTISSA_SCALE by {
                    let u = choose|u: int| normalized(self.chunk@, u);
                }
            }
        }
    }

    /// Adds one value, given room in the budget.
    pub fn add_with_budget(&mut self, ivalue: u64)
        requires
            old(self).wf(),
            old(self).adds_until_propagate >= 1,
            old(self).size_count < MAX_TERMS,
        ensures
            final(self).wf(),
            final(self).tally() == crate::tally::absorb(old(self).tally(), ivalue),
            final(self).adds_until_propagate == old(self).adds_until_propagate - 1,
    {
        self.increment_when_value_added(ivalue);
        self.add1_no_carry(ivalue);
        self.adds_until_propagate = self.adds_until_propagate - 1;
        proof {
            let p = max_magnitude() as int;
            let n = old(self).size_count as int;
            if !is_special(ivalue) {
                lemma_magnitude_bound(ivalue);
            }
            assert(-p <= value_of(ivalue) <= p);
            assert((n + 1) * p == n * p + p) by (nonlinear_arith);
        }
    }

    /// Adds one value.
    pub fn add(&mut self, ivalue: u64)
        requires
            old(self).wf(),
            old(self).size_count < MAX_TERMS,
        ensures
            final(self).wf(),
            final(self).tally() == crate::tally::absorb(old(self).tally(), ivalue),
            final(self).adds_until_propagate <= SMALL_CARRY_TERMS - 1,
    {
        self.ensure_budget();
        self.add_with_budget(ivalue);
    }

    /// Counts one more input, noting whether its sign bit is clear.
    pub fn increment_when_value_added(&mut self, ivalue: u64)
        requires
            old(self).size_count < MAX_TERMS,
        ensures
            final(self).size_count == old(self).size_count + 1,
            final(self).has_pos_number == (old(self).has_pos_number || !is_negative(ivalue)),
            final(self).chunk == old(self).chunk,
            final(self).adds_until_propagate == old(self).adds_until_propagate,
            final(self).inf == old(self).inf,
            final(self).nan == old(self).nan,
    {
        self.size_count = self.size_count + 1;
        self.has_pos_number = self.has_pos_number || ivalue < SIGN_MASK;
    }
}

} // verus!
