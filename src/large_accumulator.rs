//! The large superaccumulator: one 64-bit chunk per sign+exponent index, each
//! summing the raw bit patterns of the values with that index, and condensed
//! into a small superaccumulator before its mantissa sum can overflow.
use crate::layout::{
    is_special, lemma_fields, lemma_magnitude_bound, magnitude, mant_field, max_magnitude,
    value_of, MANTISSA_SCALE,
};
use crate::small_accumulator::{
    chunk_weight, lemma_chunk_weight_next, lemma_value_update, SmallAccumulator, MAX_TERMS,
    SCHUNKS, SMALL_CARRY_TERMS,
};
use crate::tally::{inf_step, nan_step, Tally};
use vstd::arithmetic::div_mod::{lemma_add_mod_noop_right, lemma_small_mod};
use vstd::arithmetic::power2::{lemma2_to64, lemma_pow2_adds, lemma_pow2_pos, pow2};
use vstd::prelude::*;

verus! {

/// Number of chunks: one per value of the top 12 bits of a bit pattern.
pub const LCHUNKS: usize = 4096;

/// Values a chunk takes before it must be condensed: 2^(64 - 52).
pub const LCOUNT_FULL: i32 = 4096;

/// 2^64, the modulus of chunk arithmetic.
pub open spec fn chunk_modulus() -> int {
    0x1_0000_0000_0000_0000
}

/// The sum of the stored mantissas in a chunk with index `ix` and `count`
/// adds left: the sign and exponent parts of the added patterns, `ix` each,
/// leave the top once the missing `count` copies are added in.
pub open spec fn slot_sum(chunk: u64, count: int, ix: int) -> int {
    (chunk + count * ix * MANTISSA_SCALE) % chunk_modulus()
}

/// The exact value, in units of 2^-1075, of `n` values with sign and
/// exponent index `ix` whose stored mantissas sum to `s`.
pub open spec fn signed_slot(s: int, n: int, ix: int) -> int {
    let e = ix % 2048;
    let mag = if e == 0 {
        s * 2
    } else {
        (s + n * MANTISSA_SCALE) * pow2(e as nat)
    };
    if ix >= 2048 {
        -mag
    } else {
        mag
    }
}

/// The exact value, in units of 2^-1075, of what a chunk holds.
pub open spec fn slot_value(chunk: u64, count: i32, ix: int) -> int {
    if count < 0 {
        0
    } else {
        signed_slot(slot_sum(chunk, count as int, ix), LCOUNT_FULL - count, ix)
    }
}

/// A chunk is unused (-1), or holds `4096 - count` finite values whose
/// mantissas sum to its `slot_sum`.
pub open spec fn slot_ok(chunk: u64, count: i32, ix: int) -> bool {
    count == -1 || (ix % 2048 != 2047 && 0 <= count <= LCOUNT_FULL && slot_sum(
        chunk,
        count as int,
        ix,
    ) <= (LCOUNT_FULL - count) * (MANTISSA_SCALE - 1))
}

/// A chunk that holds nothing.
pub open spec fn slot_empty(chunk: u64, count: i32) -> bool {
    count == -1 || (count == LCOUNT_FULL && chunk == 0)
}

pub open spec fn abs(x: int) -> int {
    if x < 0 {
        -x
    } else {
        x
    }
}

/// `f(0) + ... + f(n - 1)`.
pub open spec fn sum_upto(f: spec_fn(int) -> int, n: nat) -> int
    decreases n,
{
    if n == 0 {
        0
    } else {
        sum_upto(f, (n - 1) as nat) + f(n - 1)
    }
}

pub proof fn lemma_sum_upto_update(f: spec_fn(int) -> int, g: spec_fn(int) -> int, j: int, n: nat)
    requires
        forall|i: int| 0 <= i < n && i != j ==> #[trigger] f(i) == g(i),
    ensures
        sum_upto(g, n) == sum_upto(f, n) + (if 0 <= j < n {
            g(j) - f(j)
        } else {
            0
        }),
    decreases n,
{
    if n > 0 {
        lemma_sum_upto_update(f, g, j, (n - 1) as nat);
    }
}

pub proof fn lemma_sum_upto_zero(f: spec_fn(int) -> int, n: nat)
    requires
        forall|i: int| 0 <= i < n ==> #[trigger] f(i) == 0,
    ensures
        sum_upto(f, n) == 0,
    decreases n,
{
    if n > 0 {
        lemma_sum_upto_zero(f, (n - 1) as nat);
    }
}

pub proof fn lemma_sum_upto_abs(f: spec_fn(int) -> int, g: spec_fn(int) -> int, n: nat)
    requires
        forall|i: int| 0 <= i < n ==> #[trigger] g(i) == abs(f(i)),
    ensures
        abs(sum_upto(f, n)) <= sum_upto(g, n),
        0 <= sum_upto(g, n),
    decreases n,
{
    if n > 0 {
        lemma_sum_upto_abs(f, g, (n - 1) as nat);
    }
}

/// An empty chunk holds nothing.
pub proof fn lemma_slot_empty(chunk: u64, count: i32, ix: int)
    requires
        slot_empty(chunk, count),
        0 <= ix < LCHUNKS,
        count == -1 || ix % 2048 != 2047,
    ensures
        slot_value(chunk, count, ix) == 0,
        slot_ok(chunk, count, ix),
{
    if count == LCOUNT_FULL {
        assert(4096 * ix * MANTISSA_SCALE == ix * chunk_modulus());
        vstd::arithmetic::div_mod::lemma_mod_multiples_basic(ix, chunk_modulus());
        assert(slot_sum(chunk, count as int, ix) == 0);
        assert(0int * 2 == 0);
        let p = pow2((ix % 2048) as nat) as int;
        assert((0 + 0 * MANTISSA_SCALE) * p == 0) by (nonlinear_arith);
    }
}

/// Adding a bit pattern whose top 12 bits are `ix` to its chunk adds its
/// value to what the chunk holds.
pub proof fn lemma_slot_add(chunk: u64, count: i32, ix: int, b: u64)
    requires
        slot_ok(chunk, count, ix),
        count >= 1,
        ix == b >> 52,
    ensures
        !is_special(b),
        slot_ok(((chunk + b) % chunk_modulus()) as u64, (count - 1) as i32, ix),
        slot_value(((chunk + b) % chunk_modulus()) as u64, (count - 1) as i32, ix) == slot_value(
            chunk,
            count,
            ix,
        ) + value_of(b),
        abs(slot_value(((chunk + b) % chunk_modulus()) as u64, (count - 1) as i32, ix)) == abs(
            slot_value(chunk, count, ix),
        ) + abs(value_of(b)),
{
    lemma_fields(b);
    let m = mant_field(b) as int;
    let md = chunk_modulus();
    let x = chunk + count * ix * MANTISSA_SCALE;
    let s = x % md;
    let c2 = (chunk + b) % md;
    let k = (count - 1) * ix * MANTISSA_SCALE;
    assert(b == ix * MANTISSA_SCALE + m);
    assert(count * ix * MANTISSA_SCALE == (count - 1) * ix * MANTISSA_SCALE + ix * MANTISSA_SCALE)
        by (nonlinear_arith);
    lemma_add_mod_noop_right(k, chunk + b, md);
    assert(chunk + b + k == x + m);
    lemma_add_mod_noop_right(m, x, md);
    assert((c2 + k) % md == (s + m) % md);
    assert(s <= (LCOUNT_FULL - count) * (MANTISSA_SCALE - 1));
    assert(s + m <= (LCOUNT_FULL - count + 1) * (MANTISSA_SCALE - 1));
    lemma_small_mod((s + m) as nat, md as nat);
    assert(slot_sum(c2 as u64, count - 1, ix) == s + m);
    let e = ix % 2048;
    assert(e == crate::layout::exp_field(b));
    let n = LCOUNT_FULL - count;
    if e == 0 {
        assert(magnitude(b) == m * pow2(1));
        assert(pow2(1) == 2) by {
            lemma2_to64();
        }
    } else {
        let p = pow2(e as nat) as int;
        assert(magnitude(b) == (m + MANTISSA_SCALE) * p);
        assert((s + m + (n + 1) * MANTISSA_SCALE) * p == (s + n * MANTISSA_SCALE) * p + (m
            + MANTISSA_SCALE) * p) by (nonlinear_arith);
        lemma_pow2_pos(e as nat);
        assert((s + n * MANTISSA_SCALE) * p >= 0) by (nonlinear_arith)
            requires
                s >= 0,
                n >= 0,
                p > 0,
        ;
    }
}

/// The fast path of an add of `uintv`: its chunk takes it by a wrapping add
/// and one decrement of its count; the small accumulator and the used bits
/// are untouched but for the count of inputs and the sign flag.
pub open spec fn fast_path(a: LargeAccumulator, b: LargeAccumulator, uintv: u64) -> bool {
    let ix = (uintv >> 52) as int;
    &&& b.count@[ix] == a.count@[ix] - 1
    &&& b.chunk@[ix] == (a.chunk@[ix] + uintv) % chunk_modulus()
    &&& b.sacc.chunk@ == a.sacc.chunk@
    &&& b.sacc.adds_until_propagate == a.sacc.adds_until_propagate
    &&& b.sacc.inf == a.sacc.inf
    &&& b.sacc.nan == a.sacc.nan
    &&& b.chunks_used@ == a.chunks_used@
    &&& b.used_used == a.used_used
}

/// Setting bit `b` keeps every bit that was set.
pub proof fn lemma_set_bit(x: u64, b: u64, c: u64)
    requires
        b < 64,
        c < 64,
    ensures
        ((x | (1u64 << b)) >> b) & 1 == 1,
        (x >> c) & 1 == 1 ==> ((x | (1u64 << b)) >> c) & 1 == 1,
{
    assert(((x | (1u64 << b)) >> b) & 1 == 1) by (bit_vector)
        requires
            b < 64,
    ;
    assert((x >> c) & 1 == 1 ==> ((x | (1u64 << b)) >> c) & 1 == 1) by (bit_vector)
        requires
            b < 64,
            c < 64,
    ;
}

impl SmallAccumulator {
    /// Adds into three adjacent chunks the value of `n` values with sign and
    /// exponent index `ix` whose stored mantissas sum to `chunk`, using one
    /// unit of the budget of adds.
    #[verifier::rlimit(40)]
    pub fn add_slot(&mut self, chunk: u64, n: i32, ix: usize)
        requires
            old(self).wf(),
            old(self).adds_until_propagate >= 1,
            ix < LCHUNKS,
            0 <= n <= LCOUNT_FULL,
        ensures
            final(self).wf_except_total(),
            final(self).total() == old(self).total() + signed_slot(chunk as int, n as int, ix as int),
            final(self).adds_until_propagate == old(self).adds_until_propagate - 1,
            forall|k: int|
                0 <= k < SCHUNKS && !((ix % 2048) / 32 <= k <= (ix % 2048) / 32 + 2)
                    ==> #[trigger] final(self).chunk@[k] == old(self).chunk@[k],
            final(self).size_count == old(self).size_count,
            final(self).has_pos_number == old(self).has_pos_number,
            final(self).inf == old(self).inf,
            final(self).nan == old(self).nan,
    {
        let ghost v = signed_slot(chunk as int, n as int, ix as int);
        let ghost sacc_total0 = self.total();
        // The exponent (1 for zeros and subnormals) picks the chunk and the
        // shift within it, as for a single value.
        let exp: usize = ix % 2048;
        let low_exp: u64 = if exp == 0 {
            1
        } else {
            (exp % 32) as u64
        };
        let high_exp: usize = exp / 32;
        proof {
            vstd::bits::lemma_u64_pow2_no_overflow(low_exp as nat);
            vstd::bits::lemma_u64_shl_is_mul(1, low_exp);
            lemma2_to64();
        }
        let scale: u64 = 1u64 << low_exp;
        assert(scale <= 0x8000_0000);
        // The shifted sum, split into three 32-bit parts for three chunks.
        assert(chunk * scale <= 0xFFFF_FFFF_FFFF_FFFF * 0x8000_0000) by (nonlinear_arith)
            requires
                scale <= 0x8000_0000,
        ;
        let shifted: u128 = chunk as u128 * scale as u128;
        let low_chunk: i64 = (shifted % 0x1_0000_0000) as i64;
        // Each normal value also carries an implicit 1 above its stored
        // mantissa: n of them, at 2^52 times the scale.
        let implicit: u128 = if exp != 0 {
            assert(n * scale <= 0x1000 * 0x8000_0000) by (nonlinear_arith)
                requires
                    0 <= n <= 0x1000,
                    scale <= 0x8000_0000,
            ;
            n as u128 * scale as u128 * 0x10_0000
        } else {
            0
        };
        let mid_full: u128 = shifted / 0x1_0000_0000 + implicit;
        assert(mid_full < 0x1_0000_0000_0000_0000);
        let mid_chunk: i64 = (mid_full % 0x1_0000_0000) as i64;
        let high_chunk: i64 = (mid_full / 0x1_0000_0000) as i64;
        let ghost w = chunk_weight(high_exp as nat) as int;
        proof {
            let sh = shifted as int;
            assert(sh == (sh / 0x1_0000_0000) * 0x1_0000_0000 + sh % 0x1_0000_0000);
            assert(mid_full == (mid_full / 0x1_0000_0000) * 0x1_0000_0000 + mid_full
                % 0x1_0000_0000);
            lemma_chunk_weight_next(high_exp as nat);
            lemma_chunk_weight_next((high_exp + 1) as nat);
            let e = if exp == 0 {
                1nat
            } else {
                exp as nat
            };
            assert(32 * high_exp + low_exp == e);
            lemma_pow2_adds(32 * high_exp as nat, low_exp as nat);
            let parts = low_chunk * w + mid_chunk * (w * 0x1_0000_0000) + high_chunk * (w
                * 0x1_0000_0000 * 0x1_0000_0000);
            assert(parts == (low_chunk + mid_full * 0x1_0000_0000) * w) by (nonlinear_arith)
                requires
                    parts == low_chunk * w + mid_chunk * (w * 0x1_0000_0000) + high_chunk * (w
                        * 0x1_0000_0000 * 0x1_0000_0000),
                    mid_full == high_chunk * 0x1_0000_0000 + mid_chunk,
            ;
            assert(low_chunk + mid_full * 0x1_0000_0000 == sh + implicit * 0x1_0000_0000);
            let s_sum = chunk as int;
            if exp == 0 {
                assert(pow2(1) == 2);
                assert(w == 1) by {
                    assert(chunk_weight(0) == pow2(0));
                }
                assert(parts == s_sum * 2) by (nonlinear_arith)
                    requires
                        parts == (sh + implicit * 0x1_0000_0000) * w,
                        sh == s_sum * scale,
                        implicit == 0,
                        scale == 2,
                        w == 1,
                ;
            } else {
                assert(parts == (s_sum + n * MANTISSA_SCALE) * pow2(e)) by (nonlinear_arith)
                    requires
                        parts == (sh + implicit * 0x1_0000_0000) * w,
                        sh == s_sum * scale,
                        implicit == n * scale * 0x10_0000,
                        pow2(e) == w * scale,
                ;
            }
            assert(ix >= 2048 ==> v == -parts);
            assert(ix < 2048 ==> v == parts);
        }
        let ghost sc0 = self.chunk@;
        let ghost extra = SMALL_CARRY_TERMS - self.adds_until_propagate;
        assert(forall|k: int|
            0 <= k < SCHUNKS ==> -(0x1_0000_0000 + extra * MANTISSA_SCALE) <= #[trigger] sc0[k]
                <= 0x1_0000_0000 + extra * MANTISSA_SCALE);
        if ix >= 2048 {
            let a = self.chunk[high_exp] - low_chunk;
            self.chunk.set(high_exp, a);
            let b = self.chunk[high_exp + 1] - mid_chunk;
            self.chunk.set(high_exp + 1, b);
            let c = self.chunk[high_exp + 2] - high_chunk;
            self.chunk.set(high_exp + 2, c);
        } else {
            let a = self.chunk[high_exp] + low_chunk;
            self.chunk.set(high_exp, a);
            let b = self.chunk[high_exp + 1] + mid_chunk;
            self.chunk.set(high_exp + 1, b);
            let c = self.chunk[high_exp + 2] + high_chunk;
            self.chunk.set(high_exp + 2, c);
        }
        proof {
            let sc = self.chunk@;
            let h = high_exp as int;
            let c1 = sc0.update(h, sc[h]);
            let c2 = c1.update(h + 1, sc[h + 1]);
            lemma_value_update(sc0, h, sc[h], SCHUNKS as nat);
            lemma_value_update(c1, h + 1, sc[h + 1], SCHUNKS as nat);
            lemma_value_update(c2, h + 2, sc[h + 2], SCHUNKS as nat);
            assert(sc =~= c2.update(h + 2, sc[h + 2]));
            let d0 = sc[h] - sc0[h];
            let d1 = sc[h + 1] - sc0[h + 1];
            let d2 = sc[h + 2] - sc0[h + 2];
            assert(c1[h + 1] == sc0[h + 1] && c2[h + 2] == sc0[h + 2]);
            assert(self.total() == sacc_total0 + d0 * w + d1 * (w * 0x1_0000_0000) + d2 * (w
                * 0x1_0000_0000 * 0x1_0000_0000));
            if ix >= 2048 {
                assert(d0 * w + d1 * (w * 0x1_0000_0000) + d2 * (w * 0x1_0000_0000
                    * 0x1_0000_0000) == -(low_chunk * w + mid_chunk * (w * 0x1_0000_0000)
                    + high_chunk * (w * 0x1_0000_0000 * 0x1_0000_0000))) by (nonlinear_arith)
                    requires
                        d0 == -low_chunk,
                        d1 == -mid_chunk,
                        d2 == -high_chunk,
                ;
            }
            assert(self.total() == sacc_total0 + v);
            assert forall|k: int| 0 <= k < SCHUNKS implies -(0x1_0000_0000 + (extra + 1)
                * MANTISSA_SCALE) <= #[trigger] sc[k] <= 0x1_0000_0000 + (extra + 1)
                * MANTISSA_SCALE by {
                assert(-(0x1_0000_0000 + extra * MANTISSA_SCALE) <= sc0[k]);
                assert(sc0[k] <= 0x1_0000_0000 + extra * MANTISSA_SCALE);
            }
        }
        self.adds_until_propagate = self.adds_until_propagate - 1;
    }
}

pub struct LargeAccumulator {
    pub chunk: Vec<u64>,
    pub count: Vec<i32>,
    pub chunks_used: Vec<u64>,
    pub used_used: u64,
    pub sacc: SmallAccumulator,
}

impl LargeAccumulator {
    /// What chunk `ix` holds.
    pub open spec fn value_at(&self, ix: int) -> int {
        slot_value(self.chunk@[ix], self.count@[ix], ix)
    }

    /// What all the chunks hold.
    pub open spec fn slots_total(&self) -> int {
        sum_upto(|ix: int| self.value_at(ix), LCHUNKS as nat)
    }

    /// The sum of the magnitudes of what the chunks hold.
    pub open spec fn slots_mass(&self) -> int {
        sum_upto(|ix: int| abs(self.value_at(ix)), LCHUNKS as nat)
    }

    /// Chunk `ix` is marked as used, in its word and in the word of words.
    pub open spec fn marked(&self, ix: int) -> bool {
        &&& (self.chunks_used@[ix / 64] >> ((ix % 64) as u64)) & 1 == 1
        &&& (self.used_used >> ((ix / 64) as u64)) & 1 == 1
    }

    pub open spec fn tally(&self) -> Tally {
        Tally {
            total: self.sacc.total() + self.slots_total(),
            inf: self.sacc.inf,
            nan: self.sacc.nan,
            pos: self.sacc.has_pos_number,
            count: self.sacc.size_count as nat,
        }
    }

    pub open spec fn wf(&self) -> bool {
        self.wf_with(0)
    }

    /// Well-formed, with room in the bound on the magnitudes for `extra` more
    /// inputs than were counted.
    pub open spec fn wf_with(&self, extra: int) -> bool {
        &&& self.chunk.len() == LCHUNKS
        &&& self.count.len() == LCHUNKS
        &&& self.chunks_used.len() == LCHUNKS / 64
        &&& self.sacc.wf()
        &&& forall|ix: int|
            0 <= ix < LCHUNKS ==> slot_ok(#[trigger] self.chunk@[ix], self.count@[ix], ix)
        &&& forall|ix: int|
            0 <= ix < LCHUNKS && #[trigger] self.count@[ix] != -1 ==> self.marked(ix)
        &&& self.slots_mass() >= 0
        &&& abs(self.sacc.total()) + self.slots_mass() <= (self.sacc.size_count + extra)
            * max_magnitude()
    }

    /// Fresh tables: every chunk zero and unused, no used bits.
    pub open spec fn fresh_tables(&self) -> bool {
        &&& self.chunk@ == Seq::new(LCHUNKS as nat, |i: int| 0u64)
        &&& self.count@ == Seq::new(LCHUNKS as nat, |i: int| -1i32)
        &&& self.chunks_used@ == Seq::new((LCHUNKS / 64) as nat, |i: int| 0u64)
        &&& self.used_used == 0
    }

    pub fn new() -> (r: Self)
        ensures
            r.wf(),
            r.fresh_tables(),
            r.sacc.is_fresh(),
            r.tally() == crate::tally::empty_tally(),
            r.slots_total() == 0,
            r.slots_mass() == 0,
    {
        let r = LargeAccumulator {
            chunk: vec![0u64; LCHUNKS],
            count: vec![-1i32; LCHUNKS],
            chunks_used: vec![0u64; LCHUNKS / 64],
            used_used: 0,
            sacc: SmallAccumulator::new(),
        };
        proof {
            r.lemma_all_empty();
        }
        assert(r.chunk@ =~= Seq::new(LCHUNKS as nat, |i: int| 0u64));
        assert(r.count@ =~= Seq::new(LCHUNKS as nat, |i: int| -1i32));
        assert(r.chunks_used@ =~= Seq::new((LCHUNKS / 64) as nat, |i: int| 0u64));
        r
    }

    /// Condenses chunk `ix` into the small accumulator (if it holds anything)
    /// and makes it an empty, used chunk.
    #[verifier::rlimit(40)]
    pub fn add_lchunk_to_small(&mut self, ix: usize)
        requires
            old(self).wf(),
            ix < LCHUNKS,
            ix % 2048 != 2047,
        ensures
            final(self).wf(),
            final(self).tally() == old(self).tally(),
            final(self).count@[ix as int] == LCOUNT_FULL,
            final(self).chunk@[ix as int] == 0,
            final(self).marked(ix as int),
            forall|j: int|
                0 <= j < LCHUNKS && j != ix ==> final(self).chunk@[j] == old(self).chunk@[j]
                    && final(self).count@[j] == old(self).count@[j],
            old(self).count@[ix as int] == -1 ==> final(self).sacc == old(self).sacc,
            old(self).count@[ix as int] >= 0 ==> final(self).sacc.adds_until_propagate == (if old(
                self,
            ).sacc.adds_until_propagate == 0 {
                SMALL_CARRY_TERMS - 2
            } else {
                old(self).sacc.adds_until_propagate - 1
            }),
            old(self).count@[ix as int] >= 0 && old(self).sacc.adds_until_propagate != 0 ==> forall|
                k: int,
            |
                0 <= k < SCHUNKS && !((ix % 2048) / 32 <= k <= (ix % 2048) / 32 + 2)
                    ==> #[trigger] final(self).sacc.chunk@[k] == old(self).sacc.chunk@[k],
    {
        let count: i32 = self.count[ix];
        let ghost v = self.value_at(ix as int);
        let ghost scale_n = LCOUNT_FULL - count;
        let ghost sacc_total0 = self.sacc.total();
        let ghost mass0 = self.slots_mass();
        assert(slot_ok(self.chunk@[ix as int], self.count@[ix as int], ix as int));
        if count >= 0 {
            self.sacc.ensure_budget();
            let mut chunk: u64 = self.chunk[ix];
            assert(count * ix <= 0x1000 * 0x1000) by (nonlinear_arith)
                requires
                    0 <= count <= 0x1000,
                    ix < 0x1000,
            ;
            if count > 0 {
                chunk = chunk.wrapping_add((count as u64 * ix as u64).wrapping_mul(MANTISSA_SCALE));
            }
            proof {
                let c0 = old(self).chunk@[ix as int] as int;
                let k = count * ix * MANTISSA_SCALE;
                if count > 0 {
                    lemma_add_mod_noop_right(c0, k, chunk_modulus());
                    let cu = count as u64;
                    let ixu = ix as u64;
                    assert((cu * ixu) * MANTISSA_SCALE == k) by (nonlinear_arith)
                        requires
                            cu == count,
                            ixu == ix,
                            k == count * ix * MANTISSA_SCALE,
                    ;
                } else {
                    assert(k == 0) by (nonlinear_arith)
                        requires
                            count == 0,
                            k == count * ix * MANTISSA_SCALE,
                    ;
                    lemma_small_mod(c0 as nat, chunk_modulus() as nat);
                }
                assert(chunk == slot_sum(old(self).chunk@[ix as int], count as int, ix as int));
            }
            self.sacc.add_slot(chunk, LCOUNT_FULL - count, ix);
        }
        let ghost prev = *self;
        self.chunk.set(ix, 0);
        self.count.set(ix, LCOUNT_FULL);
        let word = ix / 64;
        let bit = (ix % 64) as u64;
        proof {
            lemma_set_bit(self.chunks_used@[word as int], bit, bit);
            lemma_set_bit(self.used_used, word as u64, word as u64);
        }
        let used = self.chunks_used[word] | (1u64 << bit);
        self.chunks_used.set(word, used);
        self.used_used = self.used_used | (1u64 << (word as u64));
        proof {
            lemma_slot_empty(0, LCOUNT_FULL, ix as int);
            let f0 = |i: int| old(self).value_at(i);
            let fa0 = |i: int| abs(old(self).value_at(i));
            let f = |i: int| prev.value_at(i);
            let g = |i: int| self.value_at(i);
            let fa = |i: int| abs(prev.value_at(i));
            let ga = |i: int| abs(self.value_at(i));
            assert forall|i: int| 0 <= i < LCHUNKS && i != ix implies #[trigger] f(i) == g(i) by {}
            assert forall|i: int| 0 <= i < LCHUNKS && i != ix implies #[trigger] fa(i) == ga(i) by {}
            assert(prev.chunk@ == old(self).chunk@ && prev.count@ == old(self).count@);
            assert forall|i: int| 0 <= i < LCHUNKS && i != -1 implies #[trigger] f0(i) == f(i) by {}
            assert forall|i: int| 0 <= i < LCHUNKS && i != -1 implies #[trigger] fa0(i) == fa(i) by {}
            lemma_sum_upto_update(f0, f, -1, LCHUNKS as nat);
            lemma_sum_upto_update(fa0, fa, -1, LCHUNKS as nat);
            lemma_sum_upto_update(f, g, ix as int, LCHUNKS as nat);
            lemma_sum_upto_update(fa, ga, ix as int, LCHUNKS as nat);
            assert(prev.value_at(ix as int) == v);
            assert(self.slots_total() == prev.slots_total() - v);
            assert(self.slots_mass() == mass0 - abs(v));
            assert forall|i: int| 0 <= i < LCHUNKS implies slot_ok(
                #[trigger] self.chunk@[i],
                self.count@[i],
                i,
            ) by {
                if i != ix {
                    assert(slot_ok(prev.chunk@[i], prev.count@[i], i));
                }
            }
            assert forall|i: int| 0 <= i < LCHUNKS && #[trigger] self.count@[i] != -1 implies self.marked(i) by {
                if i != ix {
                    assert(prev.count@[i] != -1);
                    assert(prev.marked(i));
                    lemma_set_bit(prev.chunks_used@[word as int], bit, (i % 64) as u64);
                    lemma_set_bit(prev.used_used, word as u64, (i / 64) as u64);
                }
            }
            lemma_sum_upto_abs(g, ga, LCHUNKS as nat);
        }
    }

    /// Only chunk `ix` differs between `a` and `b`.
    pub proof fn lemma_one_slot_changed(a: &LargeAccumulator, b: &LargeAccumulator, ix: int)
        requires
            a.chunk.len() == LCHUNKS,
            a.count.len() == LCHUNKS,
            b.chunk.len() == LCHUNKS,
            b.count.len() == LCHUNKS,
            0 <= ix < LCHUNKS,
            forall|j: int|
                0 <= j < LCHUNKS && j != ix ==> a.chunk@[j] == b.chunk@[j] && a.count@[j]
                    == b.count@[j],
        ensures
            b.slots_total() == a.slots_total() + b.value_at(ix) - a.value_at(ix),
            b.slots_mass() == a.slots_mass() + abs(b.value_at(ix)) - abs(a.value_at(ix)),
            b.slots_mass() >= 0,
    {
        let f = |i: int| a.value_at(i);
        let g = |i: int| b.value_at(i);
        let fa = |i: int| abs(a.value_at(i));
        let ga = |i: int| abs(b.value_at(i));
        assert forall|i: int| 0 <= i < LCHUNKS && i != ix implies #[trigger] f(i) == g(i) by {}
        assert forall|i: int| 0 <= i < LCHUNKS && i != ix implies #[trigger] fa(i) == ga(i) by {}
        lemma_sum_upto_update(f, g, ix, LCHUNKS as nat);
        lemma_sum_upto_update(fa, ga, ix, LCHUNKS as nat);
        lemma_sum_upto_abs(g, ga, LCHUNKS as nat);
    }

    /// The slow path of an add: an infinity or NaN goes to the small
    /// accumulator's flags; otherwise chunk `ix` is condensed (or first set
    /// up) and the value starts it afresh. The value is not counted here.
    pub fn large_add_value_inf_nan(&mut self, ix: usize, uintv: u64)
        requires
            old(self).wf(),
            ix == uintv >> 52,
            ix < LCHUNKS,
            old(self).count@[ix as int] <= 0,
        ensures
            final(self).wf_with(1),
            ix % 2048 == 2047 ==> final(self).chunk@ == old(self).chunk@ && final(self).count@
                == old(self).count@ && final(self).chunks_used@ == old(self).chunks_used@ && final(
                self).used_used == old(self).used_used && final(self).sacc.chunk@ == old(
                self).sacc.chunk@,
            ix % 2048 != 2047 ==> final(self).count@[ix as int] == LCOUNT_FULL - 1 && final(
                self).chunk@[ix as int] == uintv && final(self).marked(ix as int),
            forall|j: int|
                0 <= j < LCHUNKS && j != ix ==> final(self).chunk@[j] == old(self).chunk@[j]
                    && final(self).count@[j] == old(self).count@[j],
            final(self).tally() == (Tally {
                total: old(self).tally().total + value_of(uintv),
                inf: inf_step(old(self).tally().inf, uintv),
                nan: nan_step(old(self).tally().nan, uintv),
                ..old(self).tally()
            }),
    {
        proof {
            lemma_fields(uintv);
        }
        assert((ix & 0x7FF) == ix % 2048) by (bit_vector)
            requires
                ix < 4096,
        ;
        if (ix & 0x7FF) == 0x7FF {
            assert(is_special(uintv));
            self.sacc.add_inf_nan(uintv);
            proof {
                assert(self.chunk@ == old(self).chunk@ && self.count@ == old(self).count@);
                LargeAccumulator::lemma_one_slot_changed(old(self), self, ix as int);
                let p = max_magnitude() as int;
                let n = self.sacc.size_count as int;
                assert((n + 1) * p == n * p + p) by (nonlinear_arith);
                assert(p >= 0);
                assert(self.sacc.total() == old(self).sacc.total());
            }
        } else {
            self.add_lchunk_to_small(ix);
            let ghost mid = *self;
            self.count.set(ix, LCOUNT_FULL - 1);
            self.chunk.set(ix, uintv);
            proof {
                lemma_slot_add(0, LCOUNT_FULL, ix as int, uintv);
                lemma_small_mod(uintv as nat, chunk_modulus() as nat);
                LargeAccumulator::lemma_one_slot_changed(&mid, self, ix as int);
                lemma_magnitude_bound(uintv);
                assert(abs(value_of(uintv)) <= max_magnitude());
                assert((self.sacc.size_count + 1) * max_magnitude() == self.sacc.size_count
                    * max_magnitude() + max_magnitude()) by (nonlinear_arith);
                assert forall|i: int| 0 <= i < LCHUNKS implies slot_ok(
                    #[trigger] self.chunk@[i],
                    self.count@[i],
                    i,
                ) by {
                    if i != ix {
                        assert(slot_ok(mid.chunk@[i], mid.count@[i], i));
                    }
                }
                assert forall|i: int| 0 <= i < LCHUNKS && #[trigger] self.count@[i] != -1 implies self.marked(i) by {
                    if i != ix {
                        assert(mid.count@[i] != -1);
                    } else {
                        assert(mid.count@[i] != -1);
                    }
                }
            }
        }
    }

    /// Adds one value: on the fast path one decrement and one wrapping add.
    pub fn add(&mut self, uintv: u64)
        requires
            old(self).wf(),
            old(self).sacc.size_count < MAX_TERMS,
        ensures
            final(self).wf(),
            final(self).tally() == crate::tally::absorb(old(self).tally(), uintv),
            forall|j: int|
                0 <= j < LCHUNKS && j != (uintv >> 52) ==> final(self).chunk@[j] == old(
                    self,
                ).chunk@[j] && final(self).count@[j] == old(self).count@[j],
            old(self).count@[(uintv >> 52) as int] >= 1 ==> fast_path(*old(self), *final(self), uintv),
    {
        proof {
            lemma_fields(uintv);
        }
        assert(uintv >> 52 < 4096) by (bit_vector);
        let ix: usize = (uintv >> 52) as usize;
        assert(slot_ok(self.chunk@[ix as int], self.count@[ix as int], ix as int));
        let count: i32 = self.count[ix] - 1;
        if count < 0 {
            self.large_add_value_inf_nan(ix, uintv);
        } else {
            let ghost prev = *self;
            let c = self.chunk[ix].wrapping_add(uintv);
            self.count.set(ix, count);
            self.chunk.set(ix, c);
            proof {
                assert(slot_ok(prev.chunk@[ix as int], prev.count@[ix as int], ix as int));
                lemma_slot_add(prev.chunk@[ix as int], prev.count@[ix as int], ix as int, uintv);
                assert(c == (prev.chunk@[ix as int] + uintv) % chunk_modulus());
                LargeAccumulator::lemma_one_slot_changed(&prev, self, ix as int);
                lemma_magnitude_bound(uintv);
                assert(abs(value_of(uintv)) <= max_magnitude());
                assert((self.sacc.size_count + 1) * max_magnitude() == self.sacc.size_count
                    * max_magnitude() + max_magnitude()) by (nonlinear_arith);
                assert forall|i: int| 0 <= i < LCHUNKS implies slot_ok(
                    #[trigger] self.chunk@[i],
                    self.count@[i],
                    i,
                ) by {
                    if i != ix {
                        assert(slot_ok(prev.chunk@[i], prev.count@[i], i));
                    }
                }
                assert forall|i: int| 0 <= i < LCHUNKS && #[trigger] self.count@[i] != -1 implies self.marked(i) by {
                    assert(prev.count@[i] != -1);
                }
                assert(self.sacc == prev.sacc);
            }
        }
        let ghost before = *self;
        assert(before.wf_with(1));
        assert(before.tally() == (Tally {
            total: old(self).tally().total + value_of(uintv),
            inf: inf_step(old(self).tally().inf, uintv),
            nan: nan_step(old(self).tally().nan, uintv),
            ..old(self).tally()
        }));
        self.sacc.increment_when_value_added(uintv);
        proof {
            LargeAccumulator::lemma_one_slot_changed(&before, self, 0);
            assert(self.sacc.total() == before.sacc.total());
        }
    }

    /// Condenses every chunk that holds anything into the small accumulator,
    /// visiting only the words of chunks marked as used.
    pub fn transfer_to_small(&mut self)
        requires
            old(self).wf(),
        ensures
            final(self).wf(),
            final(self).tally() == old(self).tally(),
            final(self).slots_total() == 0,
            forall|ix: int|
                0 <= ix < LCHUNKS ==> slot_empty(#[trigger] final(self).chunk@[ix], final(self).count@[ix]),
            forall|ix: int|
                0 <= ix < LCHUNKS && slot_empty(#[trigger] old(self).chunk@[ix], old(self).count@[ix])
                    ==> final(self).chunk@[ix] == old(self).chunk@[ix] && final(self).count@[ix]
                    == old(self).count@[ix],
    {
        let mut p: usize = 0;
        while p < LCHUNKS / 64
            invariant
                self.wf(),
                self.tally() == old(self).tally(),
                p <= LCHUNKS / 64,
                forall|ix: int|
                    0 <= ix < 64 * p ==> slot_empty(#[trigger] self.chunk@[ix], self.count@[ix]),
                forall|ix: int|
                    0 <= ix < LCHUNKS && slot_empty(#[trigger] old(self).chunk@[ix], old(self).count@[ix])
                        ==> self.chunk@[ix] == old(self).chunk@[ix] && self.count@[ix] == old(self).count@[ix],
            decreases LCHUNKS / 64 - p,
        {
            if (self.used_used >> (p as u64)) & 1 == 1 {
                let mut b: usize = 0;
                while b < 64
                    invariant
                        self.wf(),
                        self.tally() == old(self).tally(),
                        p < LCHUNKS / 64,
                        b <= 64,
                        forall|ix: int|
                            0 <= ix < 64 * p + b ==> slot_empty(
                                #[trigger] self.chunk@[ix],
                                self.count@[ix],
                            ),
                        forall|ix: int|
                            0 <= ix < LCHUNKS && slot_empty(#[trigger] old(self).chunk@[ix], old(self).count@[ix])
                                ==> self.chunk@[ix] == old(self).chunk@[ix] && self.count@[ix] == old(self).count@[ix],
                    decreases 64 - b,
                {
                    let ix: usize = p * 64 + b;
                    assert(ix / 64 == p && ix % 64 == b);
                    if (self.chunks_used[p] >> (b as u64)) & 1 == 1 && self.count[ix] >= 0 {
                        assert(slot_ok(self.chunk@[ix as int], self.count@[ix as int], ix as int));
                        self.add_lchunk_to_small(ix);
                    } else {
                        proof {
                            assert(slot_ok(self.chunk@[ix as int], self.count@[ix as int], ix as int));
                            if self.count@[ix as int] != -1 {
                                assert(self.marked(ix as int));
                            }
                        }
                    }
                    b = b + 1;
                }
            } else {
                assert forall|ix: int| 64 * p <= ix < 64 * p + 64 implies slot_empty(
                    #[trigger] self.chunk@[ix],
                    self.count@[ix],
                ) by {
                    assert(ix / 64 == p);
                    assert(slot_ok(self.chunk@[ix], self.count@[ix], ix));
                    if self.count@[ix] != -1 {
                        assert(self.marked(ix));
                    }
                }
            }
            p = p + 1;
        }
        proof {
            assert forall|ix: int| 0 <= ix < LCHUNKS && ix % 2048 == 2047 implies #[trigger] self.count@[ix] == -1 by {
                assert(slot_ok(self.chunk@[ix], self.count@[ix], ix));
            }
            self.lemma_all_empty();
        }
    }

    /// With every chunk empty, the chunks hold nothing.
    pub proof fn lemma_all_empty(&self)
        requires
            self.chunk.len() == LCHUNKS,
            self.count.len() == LCHUNKS,
            forall|ix: int|
                0 <= ix < LCHUNKS ==> slot_empty(#[trigger] self.chunk@[ix], self.count@[ix]),
            forall|ix: int|
                0 <= ix < LCHUNKS && ix % 2048 == 2047 ==> #[trigger] self.count@[ix] == -1,
        ensures
            self.slots_total() == 0,
            self.slots_mass() == 0,
            forall|ix: int|
                0 <= ix < LCHUNKS ==> slot_ok(#[trigger] self.chunk@[ix], self.count@[ix], ix),
    {
        assert forall|ix: int| 0 <= ix < LCHUNKS implies #[trigger] self.value_at(ix) == 0
            && slot_ok(self.chunk@[ix], self.count@[ix], ix) by {
            assert(slot_empty(self.chunk@[ix], self.count@[ix]));
            lemma_slot_empty(self.chunk@[ix], self.count@[ix], ix);
        }
        let f = |ix: int| self.value_at(ix);
        let g = |ix: int| abs(self.value_at(ix));
        assert forall|ix: int| 0 <= ix < LCHUNKS implies #[trigger] f(ix) == 0 by {
            assert(self.value_at(ix) == 0);
        }
        assert forall|ix: int| 0 <= ix < LCHUNKS implies #[trigger] g(ix) == 0 by {
            assert(self.value_at(ix) == 0);
        }
        lemma_sum_upto_zero(f, LCHUNKS as nat);
        lemma_sum_upto_zero(g, LCHUNKS as nat);
    }
}

} // verus!
