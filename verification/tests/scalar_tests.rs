use raycore::convert::{from_i64, power_of_two, to_u64};
use raycore::scalar::{Scalar, HALF_BITS, HIDDEN_BIT, INFINITY_BITS, ONE_BITS, SIGN_BIT};
use std::ops::Neg;

fn sc(v: f64) -> Scalar {
    Scalar::from_bits(v.to_bits())
}

fn fl(v: Scalar) -> f64 {
    f64::from_bits(v.to_bits())
}

fn samples() -> Vec<f64> {
    vec![
        0.0,
        -0.0,
        1.0,
        -1.0,
        0.5,
        0.7,
        1.5,
        2.25,
        -6.4,
        2.9,
        255.999,
        1e-310,
        -1e-310,
        5e-324,
        f64::MIN_POSITIVE,
        1e300,
        -1e300,
        f64::MAX,
        f64::MIN,
        f64::INFINITY,
        f64::NEG_INFINITY,
        f64::NAN,
        3.0e-160,
        1.0e160,
        0.1,
        1.0 / 3.0,
    ]
}

fn same_number(a: f64, b: f64) -> bool {
    (a.is_nan() && b.is_nan()) || a.to_bits() == b.to_bits()
}

#[test]
fn constants_are_the_doubles_they_name() {
    assert_eq!(Scalar::zero().to_bits(), 0.0f64.to_bits());
    assert_eq!(Scalar::one().to_bits(), 1.0f64.to_bits());
    assert_eq!(Scalar::half().to_bits(), 0.5f64.to_bits());
    assert_eq!(Scalar::infinity().to_bits(), f64::INFINITY.to_bits());
    assert_eq!(Scalar::min_positive().to_bits(), 1);
    assert_eq!(fl(Scalar::min_positive()), 5e-324);
    assert_eq!(ONE_BITS, 1.0f64.to_bits());
    assert_eq!(HALF_BITS, 0.5f64.to_bits());
    assert_eq!(INFINITY_BITS, f64::INFINITY.to_bits());
    assert_eq!(SIGN_BIT, (-0.0f64).to_bits());
    assert_eq!(HIDDEN_BIT, 1u64 << 52);
}

#[test]
fn bits_go_in_and_out_unchanged() {
    for bits in [0u64, 1, 0x3ff0_0000_0000_0000, 0xfff8_0000_0000_0001, u64::MAX] {
        assert_eq!(Scalar::from_bits(bits).to_bits(), bits);
        assert_eq!(Scalar::from_bits(bits).bits, bits);
    }
}

#[test]
fn classification_agrees_with_the_hardware() {
    for v in samples() {
        assert_eq!(sc(v).is_nan(), v.is_nan(), "is_nan {v}");
        assert_eq!(sc(v).is_finite(), v.is_finite(), "is_finite {v}");
        assert_eq!(sc(v).is_zero(), v == 0.0, "is_zero {v}");
        assert_eq!(sc(v).is_positive_finite(), v > 0.0 && v.is_finite(), "is_positive_finite {v}");
    }
}

#[test]
fn order_agrees_with_the_hardware() {
    for a in samples() {
        for b in samples() {
            assert_eq!(sc(a).lt(sc(b)), a < b, "{a} < {b}");
            assert_eq!(sc(a).le(sc(b)), a <= b, "{a} <= {b}");
            assert_eq!(sc(a) == sc(b), a == b, "{a} == {b}");
        }
    }
}

#[test]
fn zero_equals_zero_and_nan_equals_nothing() {
    assert!(sc(0.0) == sc(-0.0));
    assert!(sc(0.0).le(sc(-0.0)));
    assert!(!sc(0.0).lt(sc(-0.0)));
    assert!(sc(f64::NAN) != sc(f64::NAN));
    assert!(!sc(f64::NAN).le(sc(f64::NAN)));
    assert!(!sc(f64::NAN).lt(sc(1.0)));
    assert!(!sc(1.0).lt(sc(f64::NAN)));
}

#[test]
fn negation_flips_the_sign_bit() {
    for v in samples() {
        assert_eq!(sc(v).neg().to_bits(), (-v).to_bits());
        assert_eq!((-sc(v)).to_bits(), v.to_bits() ^ SIGN_BIT);
        assert_eq!(sc(v).neg().neg().to_bits(), v.to_bits());
    }
}

#[test]
fn sum_is_not_its_left_operand() {
    assert_eq!(sc(1.5) + sc(2.25), sc(3.75));
}

#[test]
fn product_is_not_its_left_operand() {
    assert_eq!(sc(1.5) * sc(2.0), sc(3.0));
}

#[test]
fn quotient_is_not_its_left_operand() {
    assert_eq!(sc(3.0) / sc(2.0), sc(1.5));
}

#[test]
fn root_is_not_its_operand() {
    assert_eq!(sc(4.0).sqrt(), sc(2.0));
    assert_eq!(sc(2.0).sqrt().to_bits(), 2.0f64.sqrt().to_bits());
}

#[test]
fn difference_is_the_sum_with_the_negation() {
    assert_eq!(sc(7.0) - sc(2.9), sc(7.0 - 2.9));
    for a in samples() {
        for b in samples() {
            assert_eq!((sc(a) - sc(b)).to_bits(), (sc(a) + sc(b).neg()).to_bits());
        }
    }
}

#[test]
fn arithmetic_agrees_with_the_hardware() {
    for a in samples() {
        for b in samples() {
            assert!(same_number(fl(sc(a) + sc(b)), a + b), "{a} + {b}");
            assert!(same_number(fl(sc(a) - sc(b)), a - b), "{a} - {b}");
            assert!(same_number(fl(sc(a) / sc(b)), a / b), "{a} / {b}");
            assert!(same_number(fl(sc(a) * sc(b)), a * b), "{a} * {b}");
        }
        assert!(same_number(fl(sc(a).sqrt()), a.sqrt()), "sqrt {a}");
    }
}

#[test]
fn products_below_the_normal_range_are_rounded() {
    for (a, b) in [(3.0e-160, 3.0e-160), (1e-200, 1e-120), (1e-160, 1e-160), (1e-310, 0.3)] {
        assert_eq!((sc(a) * sc(b)).to_bits(), (a * b).to_bits(), "{a} * {b}");
    }
    // Half of a subnormal number, and three quarters of the smallest one.
    assert_eq!((sc(1e-310) * sc(0.5)).to_bits(), (1e-310f64 * 0.5).to_bits());
    assert_eq!((sc(5e-324) * sc(0.75)).to_bits(), 1);
    assert_eq!((sc(5e-324) * sc(0.5)).to_bits(), 0);
    assert_eq!((sc(5e-324) * sc(-0.5)).to_bits(), (-0.0f64).to_bits());
    assert_eq!((sc(1e200) * sc(1e200)).to_bits(), f64::INFINITY.to_bits());
    assert_eq!((sc(-1e200) * sc(1e200)).to_bits(), f64::NEG_INFINITY.to_bits());
    assert_eq!((sc(f64::MAX) * sc(1.0000000000000002)).to_bits(), f64::INFINITY.to_bits());
    assert!((sc(f64::INFINITY) * sc(0.0)).is_nan());
}

#[test]
fn root_is_never_below_zero() {
    for v in samples() {
        let root = sc(v).sqrt();
        assert!(root.is_nan() || Scalar::zero().le(root), "sqrt {v}");
    }
    assert!(sc(-1.0).sqrt().is_nan());
    assert_eq!(sc(-0.0).sqrt().to_bits(), (-0.0f64).to_bits());
    assert_eq!(sc(0.0).sqrt().to_bits(), 0);
    assert_eq!(sc(f64::INFINITY).sqrt().to_bits(), f64::INFINITY.to_bits());
}

#[test]
fn adding_zero_changes_nothing() {
    for v in samples() {
        if v != 0.0 && !v.is_nan() {
            assert_eq!((sc(v) + sc(0.0)).to_bits(), v.to_bits());
            assert_eq!((sc(v) + sc(-0.0)).to_bits(), v.to_bits());
            assert_eq!((sc(v) - sc(0.0)).to_bits(), v.to_bits());
            assert_eq!((sc(v) - sc(-0.0)).to_bits(), v.to_bits());
        }
    }
}

#[test]
fn powers_of_two() {
    assert_eq!(power_of_two(0), 1);
    assert_eq!(power_of_two(1), 2);
    assert_eq!(power_of_two(52), HIDDEN_BIT);
    assert_eq!(power_of_two(63), SIGN_BIT);
}

fn integers() -> Vec<i64> {
    let mut all: Vec<i64> = vec![
        0,
        1,
        -1,
        2,
        3,
        4,
        -4,
        255,
        1 << 52,
        (1 << 52) + 1,
        (1 << 53) - 1,
        1 << 53,
        (1 << 53) + 1,
        (1 << 53) + 2,
        (1 << 53) + 3,
        (1 << 54) - 1,
        (1 << 54) + 2,
        (1 << 54) + 6,
        (1 << 62) + (1 << 9),
        (1 << 62) + (1 << 9) + 1,
        (1 << 62) + 3 * (1 << 9),
        i64::MAX,
        i64::MAX - 511,
        i64::MAX - 512,
        i64::MIN,
        i64::MIN + 1,
        -(1 << 53) - 1,
        -(1 << 53) - 3,
    ];
    let mut x: u64 = 0x9e37_79b9_7f4a_7c15;
    for _ in 0..2000 {
        x ^= x << 13;
        x ^= x >> 7;
        x ^= x << 17;
        all.push(x as i64);
        all.push((x >> (x % 64)) as i64);
    }
    all
}

#[test]
fn integers_become_the_nearest_double() {
    for n in integers() {
        assert_eq!(from_i64(n).to_bits(), (n as f64).to_bits(), "{n}");
    }
}

#[test]
fn halfway_integers_go_to_the_even_pattern() {
    // 2^53 + 1 lies half-way between 2^53 and 2^53 + 2.
    assert_eq!(fl(from_i64((1 << 53) + 1)), 9007199254740992.0);
    // 2^53 + 3 lies half-way between 2^53 + 2 and 2^53 + 4.
    assert_eq!(fl(from_i64((1 << 53) + 3)), 9007199254740996.0);
    assert_eq!(fl(from_i64(-(1 << 53) - 1)), -9007199254740992.0);
    assert_eq!(fl(from_i64(i64::MAX)), 9223372036854775808.0);
    assert_eq!(fl(from_i64(i64::MIN)), -9223372036854775808.0);
    assert_eq!(from_i64(0).to_bits(), 0);
}

#[test]
fn doubles_are_cut_off_to_integers() {
    let mut values = samples();
    values.extend([
        0.999_999_999,
        1.999_999_999,
        2.0,
        127.9995,
        255.999,
        4503599627370496.0,
        4503599627370497.0,
        9007199254740993.0,
        1e19,
        18446744073709549568.0,
        18446744073709551615.0,
        18446744073709551616.0,
        1e20,
        9223372036854775808.0,
        -0.5,
        -255.0,
    ]);
    for v in values {
        assert_eq!(to_u64(sc(v)), v as u64, "{v}");
    }
    assert_eq!(to_u64(sc(1.999)), 1);
    assert_eq!(to_u64(sc(f64::NAN)), 0);
    assert_eq!(to_u64(sc(-3.0)), 0);
    assert_eq!(to_u64(sc(f64::INFINITY)), u64::MAX);
    assert_eq!(to_u64(sc(18446744073709549568.0)), 18446744073709549568);
}

fn patterns(count: usize) -> Vec<u64> {
    let mut all: Vec<u64> = samples().into_iter().map(|v| v.to_bits()).collect();
    all.extend([
        0x7ff0_0000_0000_0001,
        0xfff8_0000_0000_0000,
        u64::MAX,
        0x000f_ffff_ffff_ffff,
        1,
        2,
    ]);
    let mut x: u64 = 0x2545_f491_4f6c_dd1d;
    for i in 0..count {
        x ^= x << 13;
        x ^= x >> 7;
        x ^= x << 17;
        // Every fourth pattern is pushed into the subnormal range, every
        // fifth next to the largest finite numbers.
        all.push(match i % 20 {
            0 | 4 | 8 | 12 | 16 => x & 0x800f_ffff_ffff_ffff,
            5 | 10 | 15 => (x & 0x800f_ffff_ffff_ffff) | 0x7fe0_0000_0000_0000,
            _ => x,
        });
    }
    all
}

#[test]
fn arithmetic_takes_every_pattern() {
    let all = patterns(100_000);
    let mut previous = 0u64;
    for &bits in &all {
        let a = Scalar::from_bits(bits);
        let b = Scalar::from_bits(previous);
        let hard_a = f64::from_bits(bits);
        let hard_b = f64::from_bits(previous);
        assert!(same_number(fl(a + b), hard_a + hard_b), "{bits:#x} + {previous:#x}");
        assert!(same_number(fl(a - b), hard_a - hard_b), "{bits:#x} - {previous:#x}");
        assert!(same_number(fl(a / b), hard_a / hard_b), "{bits:#x} / {previous:#x}");
        assert!(same_number(fl(a.sqrt()), hard_a.sqrt()), "sqrt {bits:#x}");
        assert!(same_number(fl(a * b), hard_a * hard_b), "{bits:#x} * {previous:#x}");
        previous = bits;
    }
}

#[test]
fn order_and_conversion_take_every_pattern() {
    let all = patterns(100_000);
    let mut previous = 0u64;
    for &bits in &all {
        let a = Scalar::from_bits(bits);
        let b = Scalar::from_bits(previous);
        let hard_a = f64::from_bits(bits);
        let hard_b = f64::from_bits(previous);
        assert_eq!(a.lt(b), hard_a < hard_b);
        assert_eq!(a.le(b), hard_a <= hard_b);
        assert_eq!(a == b, hard_a == hard_b);
        assert_eq!(to_u64(a), hard_a as u64);
        assert_eq!(a.is_nan(), hard_a.is_nan());
        assert_eq!(from_i64(bits as i64).to_bits(), (bits as i64 as f64).to_bits());
        previous = bits;
    }
}
