//! Rounding an exact sum to the nearest binary64 value, ties to even.
//!
//! A sum is an integer `t` in units of 2^-1075. Its magnitude `a` is written
//! as `q * 2^e` plus a remainder, where `e >= 1` is the smallest exponent with
//! `a / 2^e < 2^53`; `q` rounded to nearest (ties to even) is the significand
//! of the result, and `(e - 1) * 2^52 + q` is the result's bit pattern without
//! its sign. A carry of `q` to 2^53 lands in the exponent field by itself, and
//! a pattern at or above that of infinity becomes infinity.
use crate::layout::{MANTISSA_SCALE, NEG_ZERO_BITS, POS_INF_BITS, POS_ZERO_BITS, SIGN_MASK};
use vstd::arithmetic::div_mod::*;
use vstd::arithmetic::power2::*;
use vstd::prelude::*;

verus! {

/// 2^53, the first significand too wide for binary64.
pub const SIG_LIMIT: u128 = 0x20_0000_0000_0000;

/// How many halvings bring `a` below 2^53.
pub open spec fn halvings(a: nat) -> nat
    decreases a,
{
    if a < SIG_LIMIT {
        0
    } else {
        1 + halvings(a / 2)
    }
}

/// The exponent of the last place kept: the smallest `e >= 1` with
/// `a / 2^e < 2^53`.
pub open spec fn last_place(a: nat) -> nat {
    if halvings(a) == 0 {
        1
    } else {
        halvings(a)
    }
}

/// `a / 2^last_place(a)`, rounded to nearest, ties to even.
pub open spec fn rounded_significand(a: nat) -> nat {
    let k = (last_place(a) - 1) as nat;
    let g = a / pow2(k);
    let q = g / 2;
    let sticky = a % pow2(k) != 0;
    if g % 2 == 1 && (sticky || q % 2 == 1) {
        q + 1
    } else {
        q
    }
}

/// The bit pattern (without sign) of the binary64 value nearest to
/// `a * 2^-1075`; infinity where that rounds beyond the largest finite value.
pub open spec fn magnitude_bits(a: nat) -> nat {
    let raw = (last_place(a) - 1) * (MANTISSA_SCALE as nat) + rounded_significand(a);
    if raw >= POS_INF_BITS {
        POS_INF_BITS as nat
    } else {
        raw as nat
    }
}

/// The bit pattern of the binary64 value nearest to `t * 2^-1075`, ties to
/// even. An exact zero is +0.0 when `pos` holds, else -0.0.
pub open spec fn round_bits(t: int, pos: bool) -> u64 {
    if t == 0 {
        if pos {
            POS_ZERO_BITS
        } else {
            NEG_ZERO_BITS
        }
    } else if t > 0 {
        magnitude_bits(t as nat) as u64
    } else {
        (SIGN_MASK + magnitude_bits((-t) as nat)) as u64
    }
}

/// Dividing `m * 2^s + r` (with `r < 2^s`) by `2^(s + k)`.
proof fn lemma_split_div_mod(m: nat, s: nat, r: nat, k: nat)
    requires
        r < pow2(s),
    ensures
        (m * pow2(s) + r) / pow2(s + k) == m / pow2(k),
        (m * pow2(s) + r) % pow2(s + k) == (m % pow2(k)) * pow2(s) + r,
{
    let ps = pow2(s) as int;
    let pk = pow2(k) as int;
    lemma_pow2_pos(s);
    lemma_pow2_pos(k);
    lemma_pow2_adds(s, k);
    let q = m as int / pk;
    let rm = m as int % pk;
    lemma_fundamental_div_mod(m as int, pk);
    assert(0 <= rm < pk);
    let x = m * ps + r;
    assert(x == q * (ps * pk) + (rm * ps + r)) by (nonlinear_arith)
        requires
            m == pk * q + rm,
            x == m * ps + r,
    ;
    assert(0 <= rm * ps + r < ps * pk) by (nonlinear_arith)
        requires
            0 <= rm < pk,
            0 <= r < ps,
    ;
    assert(ps * pk == pk * ps) by (nonlinear_arith);
    lemma_fundamental_div_mod_converse(x, ps * pk, q, rm * ps + r);
}

/// Halving `m * 2^s + r` (with `r < 2^s`, `m >= 2^52`) takes `s` more steps
/// than halving `m`.
proof fn lemma_halvings_shift(m: nat, s: nat, r: nat)
    requires
        r < pow2(s),
        m >= 0x10_0000_0000_0000,
    ensures
        halvings(m * pow2(s) + r) == s + halvings(m),
    decreases s,
{
    if s == 0 {
        assert(pow2(0) == 1) by {
            lemma2_to64();
        }
        assert(r == 0);
        assert(m * 1 == m);
    } else {
        let s1 = (s - 1) as nat;
        lemma_pow2_unfold(s);
        lemma_pow2_pos(s1);
        let half_pow = pow2(s1) as int;
        let x = m * pow2(s) + r;
        assert(m * pow2(s) == 2 * (m * half_pow)) by (nonlinear_arith)
            requires
                pow2(s) == 2 * half_pow,
        ;
        assert(m * half_pow >= m) by (nonlinear_arith)
            requires
                half_pow >= 1,
        ;
        assert(x >= SIG_LIMIT);
        assert(x / 2 == m * half_pow + r / 2);
        assert(r / 2 < half_pow);
        lemma_halvings_shift(m, s1, r / 2);
    }
}

/// Rounds `w * 2^s + low` to binary64 bits, where `low` lies in `[0, 2^s)`
/// and only whether it is zero is known; `pos` gives the sign of an exact zero.
pub(crate) fn round_parts(w: i128, s: u64, low_nonzero: bool, pos: bool, Ghost(low): Ghost<int>) -> (r: u64)
    requires
        0 <= low < pow2(s as nat),
        (low != 0) == low_nonzero,
        s <= 2048,
        -0x1_0000_0000_0000_0000_0000_0000 <= w < 0x1_0000_0000_0000_0000_0000_0000,
        s > 0 ==> (w >= 0x1_0000_0000_0000_0000 || w < -0x1_0000_0000_0000_0000),
    ensures
        r == round_bits(w * pow2(s as nat) + low, pos),
{
    proof { lemma2_to64(); }
    proof { lemma2_to64_rest(); }
    let ghost ps = pow2(s as nat) as int;
    let ghost t = w * ps + low;
    proof { lemma_pow2_pos(s as nat); }
    if s == 0 {
        assert(low == 0);
        assert(t == w) by (nonlinear_arith)
            requires
                ps == 1,
                t == w * ps + low,
                low == 0,
        ;
    } else {
        assert(w >= 0x1_0000_0000_0000_0000 ==> t >= w * ps) by (nonlinear_arith)
            requires
                t == w * ps + low,
                low >= 0,
        ;
    }
    if w == 0 {
        return if pos {
            POS_ZERO_BITS
        } else {
            NEG_ZERO_BITS
        };
    }
    let m: u128 = if w > 0 {
        w as u128
    } else if low_nonzero {
        (-(w + 1)) as u128
    } else {
        (-w) as u128
    };
    let ghost rl: int = if w > 0 {
        low
    } else if low_nonzero {
        ps - low
    } else {
        0
    };
    // |t| == m * 2^s + rl, with rl in [0, 2^s) and non-zero exactly when low is.
    if w > 0 {
        assert(t > 0 && t == m * ps + rl) by (nonlinear_arith)
            requires
                t == w * ps + low,
                low >= 0,
                ps >= 1,
                w > 0,
                m == w,
                rl == low,
        ;
    } else {
        assert(t < 0 && -t == m * ps + rl) by (nonlinear_arith)
            requires
                t == w * ps + low,
                0 <= low < ps,
                w < 0,
                m == (if low != 0 { -(w + 1) } else { -w }),
                rl == (if low != 0 { ps - low } else { 0 }),
        ;
    }
    let ghost a: nat = if t > 0 {
        t as nat
    } else {
        (-t) as nat
    };
    assert(a == m * ps + rl);
    assert(m >= 1);
    // Halve until below 2^53.
    let mut q: u128 = m;
    let mut h: u64 = 0;
    while q >= SIG_LIMIT
        invariant
            q == m as nat / pow2(h as nat),
            halvings(m as nat) == h + halvings(q as nat),
            q * pow2(h as nat) <= m,
            m <= 0x1_0000_0000_0000_0000_0000_0000,
            h <= 44,
        decreases q,
    {
        proof { lemma_pow2_pos(h as nat); }
        proof { lemma_div_denominator(m as int, pow2(h as nat) as int, 2); }
        proof { lemma_pow2_unfold((h + 1) as nat); }
        assert(pow2(h as nat) * 2 == pow2((h + 1) as nat));
        assert((q / 2) * pow2((h + 1) as nat) <= q * pow2(h as nat)) by (nonlinear_arith)
            requires
                pow2((h + 1) as nat) == 2 * pow2(h as nat),
        ;
        if h == 44 {
            proof { lemma2_to64_rest(); }
            assert(q * pow2(44) >= SIG_LIMIT * pow2(44)) by (nonlinear_arith)
                requires
                    q >= SIG_LIMIT,
            ;
            assert(false);
        }
        q = q / 2;
        h = h + 1;
    }
    assert(halvings(q as nat) == 0);
    assert(h == halvings(m as nat));
    let shift: u64 = if h == 0 {
        1
    } else {
        h
    };
    // The exponent of the last place of the result.
    let ghost e: nat = (s + shift) as nat;
    if s > 0 {
        assert(m >= 0x1_0000_0000_0000_0000);
        assert(halvings(m as nat) >= 1);
        proof { lemma_halvings_shift(m as nat, s as nat, rl as nat); }
        assert(last_place(a) == e);
    } else {
        assert(rl == 0);
        assert(a == m);
        assert(last_place(a) == e);
    }
    let k: u64 = shift - 1;
    proof { vstd::bits::lemma_u64_shl_is_mul(1, k); }
    proof { vstd::bits::lemma_u64_pow2_no_overflow(k as nat); }
    let d: u128 = (1u64 << k) as u128;
    assert(d == pow2(k as nat));
    let g: u128 = m / d;
    let rest: u128 = m % d;
    proof { lemma_split_div_mod(m as nat, s as nat, rl as nat, k as nat); }
    assert((s + k) as nat == (e - 1) as nat);
    assert(a / pow2((e - 1) as nat) == g);
    assert(a % pow2((e - 1) as nat) == rest * pow2(s as nat) + rl);
    assert((rest * ps + rl != 0) == (rest != 0 || low_nonzero)) by (nonlinear_arith)
        requires
            ps >= 1,
            rl >= 0,
            rest >= 0,
            (rl != 0) == low_nonzero,
    ;
    let half: u128 = g / 2;
    // The truncated significand fits in 53 bits.
    if h == 0 {
        assert(m < SIG_LIMIT);
        assert(g == m);
    } else {
        proof { lemma_pow2_unfold(h as nat); }
        proof { lemma_div_denominator(m as int, pow2(k as nat) as int, 2); }
        assert(half == m as nat / pow2(h as nat));
    }
    assert(half < SIG_LIMIT);
    let up = g % 2 == 1 && (rest != 0 || low_nonzero || half % 2 == 1);
    let sig: u64 = if up {
        (half + 1) as u64
    } else {
        half as u64
    };
    assert(sig == rounded_significand(a));
    let raw: u64 = (s + shift - 1) * MANTISSA_SCALE + sig;
    let mag: u64 = if raw >= POS_INF_BITS {
        POS_INF_BITS
    } else {
        raw
    };
    assert(mag == magnitude_bits(a));
    if w > 0 {
        mag
    } else {
        SIGN_MASK + mag
    }
}

} // verus!
