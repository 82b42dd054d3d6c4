use xsum::{xsum, XsumAuto, XsumLarge, XsumSmall, XsumVariant, XSUM_THRESHOLD};
use xsum::small_accumulator::SmallAccumulator;

fn bits(v: &[f64]) -> Vec<u64> {
    v.iter().map(|x| x.to_bits()).collect()
}

fn is_valid(actual: u64, expected: f64) -> bool {
    if actual == expected.to_bits() {
        return true;
    }
    f64::from_bits(actual).is_nan() && expected.is_nan()
}

fn same_value(vec: &[f64], expected: f64) {
    let v = bits(vec);

    let mut xsumsmall = XsumSmall::new();
    xsumsmall.add_list(&v);
    assert!(is_valid(xsumsmall.sum(), expected));
    xsumsmall.clear();
    assert!(is_valid(xsumsmall.sum(), -0.0));
    for &val in &v {
        xsumsmall.add(val);
    }
    assert!(is_valid(xsumsmall.sum(), expected));

    let mut xsumlarge = XsumLarge::new();
    xsumlarge.add_list(&v);
    assert!(is_valid(xsumlarge.sum(), expected));
    xsumlarge.clear();
    assert!(is_valid(xsumlarge.sum(), -0.0));
    for &val in &v {
        xsumlarge.add(val);
    }
    assert!(is_valid(xsumlarge.sum(), expected));

    let mut xsumauto = XsumAuto::new();
    xsumauto.add_list(&v);
    assert!(is_valid(xsumauto.sum(), expected));
    xsumauto.clear();
    assert!(is_valid(xsumauto.sum(), -0.0));
    for &val in &v {
        xsumauto.add(val);
    }
    assert!(is_valid(xsumauto.sum(), expected));

    let mut xsumvariant = if v.len() <= 3 {
        XsumVariant::Small(XsumSmall::new())
    } else if v.len() <= 5 {
        XsumVariant::Large(XsumLarge::new())
    } else {
        XsumVariant::Auto(XsumAuto::new())
    };
    xsumvariant.add_list(&v);
    assert!(is_valid(xsumvariant.sum(), expected));
    xsumvariant.clear();
    assert!(is_valid(xsumvariant.sum(), -0.0));
    for &val in &v {
        xsumvariant.add(val);
    }
    assert!(is_valid(xsumvariant.sum(), expected));

    assert!(is_valid(xsum(&v), expected));
}

#[test]
fn small_integers() {
    same_value(&[1.0, 2.0, 3.0], 6.0);
}

#[test]
fn catastrophic_cancellation() {
    same_value(&[1e100, 1.0, -1e100, 1.0], 2.0);
}

#[test]
fn tiny_term_survives() {
    same_value(&[1.0, 1e-16, -1.0], 1e-16);
}

#[test]
fn opposite_infinities_give_nan() {
    same_value(&[f64::INFINITY, f64::NEG_INFINITY], f64::NAN);
}

#[test]
fn infinity_absorbs_finite_values() {
    same_value(&[f64::INFINITY, 1.0, 1.0], f64::INFINITY);
    same_value(&[1.0, f64::NEG_INFINITY, 1e300], f64::NEG_INFINITY);
}

#[test]
fn largest_nan_payload_wins() {
    let a = f64::from_bits(0xFFF0_0000_0000_0005);
    let b = f64::from_bits(0xFFF0_0000_0000_0009);
    let v = bits(&[a, b]);
    assert_eq!(xsum(&v), 0x7FF0_0000_0000_0009);
    let mut large = XsumLarge::new();
    large.add_list(&v);
    assert_eq!(large.sum(), 0x7FF0_0000_0000_0009);
    let w = bits(&[b, a, 1.0, f64::INFINITY]);
    assert_eq!(xsum(&w), 0x7FF0_0000_0000_0009);
}

#[test]
fn signed_zeros() {
    same_value(&[-0.0, -0.0], -0.0);
    same_value(&[0.0, -0.0], 0.0);
    same_value(&[1.0, -1.0], 0.0);
    same_value(&[-1.0, 1.0], 0.0);
}

#[test]
fn empty_input_is_negative_zero() {
    assert_eq!(xsum(&[]), (-0.0f64).to_bits());
    let mut small = XsumSmall::new();
    assert_eq!(small.sum(), (-0.0f64).to_bits());
    let mut large = XsumLarge::new();
    assert_eq!(large.sum(), (-0.0f64).to_bits());
}

#[test]
fn two_pow_53_plus_one() {
    let big = 9007199254740992.0;
    same_value(&[big, 1.0, -big], 1.0);
}

#[test]
fn negative_values_are_exact() {
    same_value(&[-1.0], -1.0);
    same_value(&[-1.5, -2.25], -3.75);
    same_value(&[1e100, -1.0, -1e100], -1.0);
    same_value(&[-0.1], -0.1);
}

#[test]
fn subnormals() {
    let tiny = f64::from_bits(1);
    same_value(&[tiny, tiny], f64::from_bits(2));
    same_value(&[f64::MIN_POSITIVE, -tiny], f64::from_bits(0x000F_FFFF_FFFF_FFFF));
    same_value(&[-f64::MIN_POSITIVE, tiny], -f64::from_bits(0x000F_FFFF_FFFF_FFFF));
    same_value(&[f64::from_bits(0x000F_FFFF_FFFF_FFFF), tiny], f64::MIN_POSITIVE);
}

#[test]
fn overflow_rounds_to_infinity() {
    same_value(&[f64::MAX, f64::MAX], f64::INFINITY);
    same_value(&[-f64::MAX, -f64::MAX], f64::NEG_INFINITY);
    same_value(&[f64::MAX, f64::MAX, -f64::MAX], f64::MAX);
}

#[test]
fn ties_go_to_even() {
    let half_ulp = 2f64.powi(-53);
    same_value(&[1.0, half_ulp], 1.0);
    same_value(&[1.0, half_ulp, 2f64.powi(-100)], 1.0 + 2f64.powi(-52));
    same_value(&[1.0 + 2f64.powi(-52), half_ulp], 1.0 + 2f64.powi(-51));
    same_value(&[-1.0, -half_ulp], -1.0);
    same_value(&[-1.0, -half_ulp, -2f64.powi(-100)], -1.0 - 2f64.powi(-52));
    same_value(&[-1.0 - 2f64.powi(-52), -half_ulp], -1.0 - 2f64.powi(-51));
    same_value(&[-1.0, -half_ulp, 2f64.powi(-100)], -1.0);
}

/// The exact sum of `n` copies of `x > 0`, rounded to nearest (ties to even)
/// by integer arithmetic and scaled by exact powers of two.
fn reference_repeat(x: f64, n: u128) -> f64 {
    let b = x.to_bits();
    let e = ((b >> 52) & 0x7FF) as i32;
    let m = ((b & 0xF_FFFF_FFFF_FFFF) | (1u64 << 52)) as u128;
    let a = m * n;
    let width = 128 - a.leading_zeros() as i32;
    let shift = width - 53;
    let q = a >> shift;
    let rem = a & ((1u128 << shift) - 1);
    let half = 1u128 << (shift - 1);
    let q = if rem > half || (rem == half && q & 1 == 1) { q + 1 } else { q };
    (q as f64) * 2f64.powi(shift + e - 1075)
}

#[test]
fn million_tenths() {
    let expected = reference_repeat(0.1, 1_000_000);
    let v = vec![0.1f64.to_bits(); 1_000_000];
    assert_eq!(xsum(&v), expected.to_bits());
    let mut small = XsumSmall::new();
    small.add_list(&v);
    assert_eq!(small.sum(), expected.to_bits());
    let mut auto = XsumAuto::new();
    auto.add_list(&v);
    assert_eq!(auto.sum(), expected.to_bits());
}

#[test]
fn full_chunks_of_wide_mantissas() {
    let x = f64::from_bits(0x3FFF_FFFF_FFFF_FFFF);
    for n in [4095u128, 4096, 4097, 10000] {
        let v = vec![x.to_bits(); n as usize];
        let expected = reference_repeat(x, n);
        assert_eq!(xsum(&v), expected.to_bits());
        let mut large = XsumLarge::new();
        large.add_list(&v);
        assert_eq!(large.sum(), expected.to_bits());
        let neg: Vec<u64> = v.iter().map(|b| b ^ 0x8000_0000_0000_0000).collect();
        let mut large = XsumLarge::new();
        large.add_list(&neg);
        assert_eq!(large.sum(), (-expected).to_bits());
    }
}

#[test]
fn large_matches_small_on_mixed_input() {
    let mut v = Vec::new();
    let mut s: u64 = 0x1234_5678_9ABC_DEF0;
    for _ in 0..5000 {
        s ^= s << 13;
        s ^= s >> 7;
        s ^= s << 17;
        let exp = 900 + (s >> 40) % 250;
        let b = (s & 0x8000_0000_0000_0000) | (exp << 52) | (s & 0xF_FFFF_FFFF_FFFF);
        v.push(b);
    }
    let mut small = XsumSmall::new();
    small.add_list(&v);
    let mut large = XsumLarge::new();
    large.add_list(&v);
    let a = small.sum();
    assert_eq!(a, large.sum());
    let mut rev = v.clone();
    rev.reverse();
    assert_eq!(xsum(&rev), a);
}

#[test]
fn permutation_gives_same_bits() {
    let v = bits(&[1e100, 0.1, -3.5, 1e-300, -1e100, 7.25, 2f64.powi(-60), -0.1]);
    let r = xsum(&v);
    let mut w = v.clone();
    w.rotate_left(3);
    w.swap(0, 5);
    assert_eq!(xsum(&w), r);
    w.reverse();
    assert_eq!(xsum(&w), r);
}

#[test]
fn negating_inputs_negates_sum() {
    let v = bits(&[1e100, 0.1, -3.5, 1e-300, 7.25]);
    let n: Vec<u64> = v.iter().map(|b| b ^ 0x8000_0000_0000_0000).collect();
    assert_eq!(xsum(&n), xsum(&v) ^ 0x8000_0000_0000_0000);
}

#[test]
fn adding_zeros_keeps_result() {
    let v = bits(&[0.1, 0.2]);
    let r = xsum(&v);
    let mut s = XsumSmall::new();
    s.add_list(&v);
    s.add(0.0f64.to_bits());
    s.add((-0.0f64).to_bits());
    assert_eq!(s.sum(), r);
    let mut e = XsumSmall::new();
    e.add(0.0f64.to_bits());
    assert_eq!(e.sum(), 0.0f64.to_bits());
    let mut e = XsumLarge::new();
    e.add(0.0f64.to_bits());
    assert_eq!(e.sum(), 0.0f64.to_bits());
}

#[test]
fn sum_twice_gives_same_bits() {
    let v = bits(&[1e100, 0.1, -3.5, 1e-300]);
    let mut s = XsumSmall::new();
    s.add_list(&v);
    let a = s.sum();
    assert_eq!(s.sum(), a);
    let mut l = XsumLarge::new();
    l.add_list(&v);
    let b = l.sum();
    assert_eq!(l.sum(), b);
    assert_eq!(a, b);
}

#[test]
fn clear_gives_negative_zero() {
    let mut l = XsumLarge::new();
    l.add_list(&bits(&[1.0; 5000]));
    assert_eq!(l.sum(), 5000.0f64.to_bits());
    l.clear();
    assert_eq!(l.sum(), (-0.0f64).to_bits());
    let mut a = XsumAuto::new();
    a.add_list(&bits(&[1.0; 10]));
    a.clear();
    assert_eq!(a.sum(), (-0.0f64).to_bits());
}

#[test]
fn threshold_paths_agree() {
    for n in [XSUM_THRESHOLD - 1, XSUM_THRESHOLD] {
        let v = vec![0.3f64.to_bits(); n];
        let mut s = XsumSmall::new();
        s.add_list(&v);
        let mut l = XsumLarge::new();
        l.add_list(&v);
        let r = xsum(&v);
        assert_eq!(r, s.sum());
        assert_eq!(r, l.sum());
        assert_eq!(r, reference_repeat(0.3, n as u128).to_bits());
    }
}

#[test]
fn auto_switches_and_keeps_sum() {
    let mut a = XsumAuto::new();
    a.add_list(&bits(&[1.0; 10]));
    assert_eq!(a.sum(), 10.0f64.to_bits());
    a.add_list(&bits(&[1.0; 1000]));
    assert_eq!(a.sum(), 1010.0f64.to_bits());
    for _ in 0..5 {
        a.add(0.5f64.to_bits());
    }
    assert_eq!(a.sum(), 1012.5f64.to_bits());
}

#[test]
fn large_from_small_continues() {
    let mut s = XsumSmall::new();
    s.add_list(&bits(&[1.5, 2.5]));
    assert_eq!(s.get_size_count(), 2);
    let mut l = XsumLarge::from_xsum_small(s);
    l.add(4.0f64.to_bits());
    assert_eq!(l.get_size_count(), 3);
    assert_eq!(l.sum(), 8.0f64.to_bits());
}

#[test]
fn variant_default_is_small() {
    let mut v = XsumVariant::new();
    assert!(matches!(v, XsumVariant::Small(_)));
    v.add_list(&bits(&[1.0; 2000]));
    assert_eq!(v.sum(), 2000.0f64.to_bits());
    v.clear();
    assert_eq!(v.sum(), (-0.0f64).to_bits());
}

#[test]
fn carry_out_of_top_chunk_gives_all_ones_nan() {
    let mut chunk = vec![0i64; 67];
    chunk[66] = 1i64 << 40;
    chunk[3] = 5;
    let mut acc = SmallAccumulator::new_based_on(&chunk, 0, 0, 0, 1, true);
    let u = acc.carry_propagate();
    assert_eq!(u, 3);
    assert_eq!(acc.nan, 0x7FFF_FFFF_FFFF_FFFF);
    assert_eq!(acc.chunk[66], 0);
    assert_eq!(acc.adds_until_propagate, 2046);
    assert_eq!(acc.sum(), 0x7FFF_FFFF_FFFF_FFFF);
}
