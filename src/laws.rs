//! Laws of exact summation, stated over the summary of the inputs.
use crate::layout::{
    exp_field, is_infinite, is_nan, is_negative, magnitude, mant_field, negated, scale_exp,
    significand, value_of, NEG_INF_BITS, NEG_ZERO_BITS, POS_INF_BITS, POS_ZERO_BITS,
    QUIET_NAN_BITS,
};
use crate::rounding::{magnitude_bits, round_bits};
use crate::tally::{
    absorb, empty_tally, inf_step, lemma_absorb_all_push, nan_step, result_bits, tally_of, Tally,
};
use vstd::arithmetic::power2::pow2;
use vstd::prelude::*;
use vstd::seq_lib::{commutative_foldl, lemma_fold_left_permutation};

verus! {

/// A NaN with its sign bit cleared keeps only its exponent and payload.
proof fn lemma_nan_clear_sign(b: u64)
    requires
        is_nan(b),
    ensures
        b % 0x8000_0000_0000_0000 == 0x7FF0_0000_0000_0000 + mant_field(b),
        mant_field((b % 0x8000_0000_0000_0000) as u64) == mant_field(b),
{
    assert((b / 0x10_0000_0000_0000) % 2048 == 2047 ==> b % 0x8000_0000_0000_0000
        == 0x7FF0_0000_0000_0000 + b % 0x10_0000_0000_0000) by (bit_vector);
}

proof fn lemma_zero_value(b: u64)
    requires
        exp_field(b) == 0,
        mant_field(b) == 0,
    ensures
        value_of(b) == 0,
{
    assert(magnitude(b) == 0) by (nonlinear_arith)
        requires
            magnitude(b) == significand(b) * pow2(scale_exp(b)),
            significand(b) == 0,
    ;
}

/// Two inputs give the same summary in either order.
pub proof fn lemma_absorb_commutes(v: Tally, x: u64, y: u64)
    ensures
        absorb(absorb(v, x), y) == absorb(absorb(v, y), x),
{
    if is_nan(x) {
        lemma_nan_clear_sign(x);
    }
    if is_nan(y) {
        lemma_nan_clear_sign(y);
    }
    assert(inf_step(inf_step(v.inf, x), y) == inf_step(inf_step(v.inf, y), x));
    assert(nan_step(nan_step(v.nan, x), y) == nan_step(nan_step(v.nan, y), x));
}

/// The sum does not depend on the order of the inputs: any permutation of
/// `xs` has the same summary, hence the same result, bit for bit.
pub proof fn lemma_sum_permutation(xs: Seq<u64>, ys: Seq<u64>)
    requires
        xs.to_multiset() == ys.to_multiset(),
    ensures
        tally_of(xs) == tally_of(ys),
        result_bits(tally_of(xs)) == result_bits(tally_of(ys)),
{
    let f = |acc: Tally, b: u64| absorb(acc, b);
    assert forall|x: u64, y: u64, v: Tally| #[trigger] f(f(v, x), y) == f(f(v, y), x) by {
        lemma_absorb_commutes(v, x, y);
    }
    assert(commutative_foldl(f));
    lemma_fold_left_permutation(xs, ys, f, empty_tally());
}

/// Nothing added sums to -0.0, as does a summer just cleared.
pub proof fn lemma_empty_sum()
    ensures
        result_bits(empty_tally()) == NEG_ZERO_BITS,
{
}

/// Adding -0.0 never changes the result.
pub proof fn lemma_add_negative_zero(xs: Seq<u64>)
    ensures
        result_bits(tally_of(xs.push(NEG_ZERO_BITS))) == result_bits(tally_of(xs)),
{
    lemma_absorb_all_push(empty_tally(), xs, NEG_ZERO_BITS);
    assert(exp_field(NEG_ZERO_BITS) == 0 && mant_field(NEG_ZERO_BITS) == 0);
    lemma_zero_value(NEG_ZERO_BITS);
}

/// Adding +0.0 keeps every result but -0.0 (nothing added, or an exact zero
/// from inputs all of negative sign); alone, it sums to +0.0.
pub proof fn lemma_add_positive_zero(xs: Seq<u64>)
    ensures
        result_bits(tally_of(xs)) != NEG_ZERO_BITS ==> result_bits(tally_of(xs.push(POS_ZERO_BITS)))
            == result_bits(tally_of(xs)),
        result_bits(tally_of(seq![POS_ZERO_BITS])) == POS_ZERO_BITS,
{
    lemma_absorb_all_push(empty_tally(), xs, POS_ZERO_BITS);
    lemma_absorb_all_push(empty_tally(), Seq::<u64>::empty(), POS_ZERO_BITS);
    assert(Seq::<u64>::empty().push(POS_ZERO_BITS) =~= seq![POS_ZERO_BITS]);
    assert(exp_field(POS_ZERO_BITS) == 0 && mant_field(POS_ZERO_BITS) == 0);
    lemma_zero_value(POS_ZERO_BITS);
    let t = tally_of(xs);
    if t.nan == 0 && t.inf == 0 && t.count != 0 && t.total != 0 {
        assert(round_bits(t.total, true) == round_bits(t.total, t.pos));
    }
}

/// Every input with its sign flipped.
pub open spec fn negate_all(xs: Seq<u64>) -> Seq<u64> {
    xs.map_values(|b: u64| negated(b))
}

/// Some input has its sign bit clear.
pub open spec fn some_positive(xs: Seq<u64>) -> bool {
    exists|i: int| 0 <= i < xs.len() && !is_negative(#[trigger] xs[i])
}

/// All inputs have the same sign bit.
pub open spec fn one_sign(xs: Seq<u64>) -> bool {
    forall|i: int, j: int|
        0 <= i < xs.len() && 0 <= j < xs.len() ==> is_negative(#[trigger] xs[i]) == is_negative(
            #[trigger] xs[j],
        )
}

/// The infinity state with the signs of infinities swapped.
pub open spec fn flip_inf(inf: u64) -> u64 {
    if inf == POS_INF_BITS {
        NEG_INF_BITS
    } else if inf == NEG_INF_BITS {
        POS_INF_BITS
    } else {
        inf
    }
}

/// Flipping the sign bit keeps the exponent and mantissa and negates the value.
proof fn lemma_negated_fields(b: u64)
    ensures
        exp_field(negated(b)) == exp_field(b),
        mant_field(negated(b)) == mant_field(b),
        is_negative(negated(b)) == !is_negative(b),
        value_of(negated(b)) == -value_of(b),
        is_infinite(b) ==> (b == POS_INF_BITS || b == NEG_INF_BITS) && negated(b) == flip_inf(b),
{
    assert(b < 0x8000_0000_0000_0000 ==> ((b + 0x8000_0000_0000_0000) / 0x10_0000_0000_0000)
        % 2048 == (b / 0x10_0000_0000_0000) % 2048 && (b + 0x8000_0000_0000_0000)
        % 0x10_0000_0000_0000 == b % 0x10_0000_0000_0000) by (bit_vector);
    assert(b >= 0x8000_0000_0000_0000 ==> ((b - 0x8000_0000_0000_0000) / 0x10_0000_0000_0000)
        % 2048 == (b / 0x10_0000_0000_0000) % 2048 && (b - 0x8000_0000_0000_0000)
        % 0x10_0000_0000_0000 == b % 0x10_0000_0000_0000) by (bit_vector);
    assert((b / 0x10_0000_0000_0000) % 2048 == 2047 && b % 0x10_0000_0000_0000 == 0 ==> (b
        == 0x7FF0_0000_0000_0000 || b == 0xFFF0_0000_0000_0000)) by (bit_vector);
}

/// What the summary of the negated inputs is, for inputs without NaN.
proof fn lemma_negated_tally(xs: Seq<u64>)
    requires
        forall|i: int| 0 <= i < xs.len() ==> !is_nan(#[trigger] xs[i]),
    ensures
        tally_of(negate_all(xs)) == (Tally {
            total: -tally_of(xs).total,
            inf: flip_inf(tally_of(xs).inf),
            nan: 0,
            pos: exists|i: int| 0 <= i < xs.len() && is_negative(#[trigger] xs[i]),
            count: tally_of(xs).count,
        }),
        tally_of(xs).nan == 0,
        tally_of(xs).pos == some_positive(xs),
        tally_of(xs).count == xs.len(),
        tally_of(xs).inf == 0 || tally_of(xs).inf == POS_INF_BITS || tally_of(xs).inf
            == NEG_INF_BITS || tally_of(xs).inf == QUIET_NAN_BITS,
    decreases xs.len(),
{
    let ns = negate_all(xs);
    if xs.len() > 0 {
        let front = xs.drop_last();
        let b = xs.last();
        assert(ns.drop_last() =~= negate_all(front));
        assert(ns.last() == negated(b));
        assert forall|i: int| 0 <= i < front.len() implies !is_nan(#[trigger] front[i]) by {
            assert(front[i] == xs[i]);
        }
        lemma_negated_tally(front);
        lemma_negated_fields(b);
        let t = tally_of(front);
        assert(tally_of(xs) == absorb(t, b));
        assert(tally_of(ns) == absorb(tally_of(negate_all(front)), negated(b)));
        if is_negative(b) {
            assert(is_negative(xs[xs.len() - 1]));
        } else {
            assert(!is_negative(xs[xs.len() - 1]));
        }
        assert((exists|i: int| 0 <= i < xs.len() && is_negative(#[trigger] xs[i])) == ((exists|
            i: int,
        |
            0 <= i < front.len() && is_negative(#[trigger] front[i])) || is_negative(b))) by {
            if exists|i: int| 0 <= i < xs.len() && is_negative(#[trigger] xs[i]) {
                let i = choose|i: int| 0 <= i < xs.len() && is_negative(#[trigger] xs[i]);
                if i < front.len() {
                    assert(is_negative(front[i]));
                }
            }
            if exists|i: int| 0 <= i < front.len() && is_negative(#[trigger] front[i]) {
                let i = choose|i: int| 0 <= i < front.len() && is_negative(#[trigger] front[i]);
                assert(is_negative(xs[i]));
            }
        }
        assert(some_positive(xs) == (some_positive(front) || !is_negative(b))) by {
            if some_positive(xs) {
                let i = choose|i: int| 0 <= i < xs.len() && !is_negative(#[trigger] xs[i]);
                if i < front.len() {
                    assert(!is_negative(front[i]));
                }
            }
            if some_positive(front) {
                let i = choose|i: int| 0 <= i < front.len() && !is_negative(#[trigger] front[i]);
                assert(!is_negative(xs[i]));
            }
        }
    }
}

/// Negating every input negates the result, bit for bit, where no input is a
/// NaN and the result is not a NaN (infinities of both signs) nor a zero
/// whose sign comes from inputs of both signs or from no input.
pub proof fn lemma_sum_negation(xs: Seq<u64>)
    requires
        forall|i: int| 0 <= i < xs.len() ==> !is_nan(#[trigger] xs[i]),
        !is_nan(result_bits(tally_of(xs))),
        result_bits(tally_of(xs)) == POS_ZERO_BITS || result_bits(tally_of(xs)) == NEG_ZERO_BITS
            ==> xs.len() > 0 && one_sign(xs),
    ensures
        result_bits(tally_of(negate_all(xs))) == negated(result_bits(tally_of(xs))),
{
    lemma_negated_tally(xs);
    let t = tally_of(xs);
    let r = result_bits(t);
    assert(is_nan(QUIET_NAN_BITS)) by {
        assert(exp_field(QUIET_NAN_BITS) == 2047 && mant_field(QUIET_NAN_BITS) != 0);
    }
    if t.inf == 0 && t.count > 0 {
        let m = magnitude_bits(if t.total >= 0 {
            t.total as nat
        } else {
            (-t.total) as nat
        });
        assert(m <= POS_INF_BITS);
        if t.total == 0 {
            if xs.len() > 0 && one_sign(xs) {
                if is_negative(xs[0]) {
                    assert(!some_positive(xs)) by {
                        if some_positive(xs) {
                            let i = choose|i: int| 0 <= i < xs.len() && !is_negative(#[trigger] xs[i]);
                            assert(is_negative(xs[i]) == is_negative(xs[0]));
                        }
                    }
                } else {
                    assert(some_positive(xs));
                    assert(!exists|i: int| 0 <= i < xs.len() && is_negative(#[trigger] xs[i])) by {
                        if exists|i: int| 0 <= i < xs.len() && is_negative(#[trigger] xs[i]) {
                            let i = choose|i: int| 0 <= i < xs.len() && is_negative(#[trigger] xs[i]);
                            assert(is_negative(xs[i]) == is_negative(xs[0]));
                        }
                    }
                }
            }
        }
    }
}

} // verus!
