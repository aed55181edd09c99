use raycore::scalar::Scalar;
use raycore::vec3::Vec3;

fn k(v: f64) -> Scalar {
    Scalar::from_bits(v.to_bits())
}

fn d(v: Scalar) -> f64 {
    f64::from_bits(v.to_bits())
}

fn w(a: f64, b: f64, c: f64) -> Vec3 {
    Vec3::new(k(a), k(b), k(c))
}

fn vectors() -> Vec<Vec3> {
    vec![
        w(1.0, 2.0, 3.0),
        w(-2.0, 1.0, 4.0),
        w(0.5, -0.25, 8.0),
        w(7.0, -2.0, -6.4),
        w(2.9, -0.1, 0.9),
        w(1e-3, 1e3, -1.0),
        w(0.0, 0.0, 1.0),
    ]
}

#[test]
fn getters_give_the_components() {
    let a = w(1.0, 2.0, 3.0);
    assert_eq!(a.x(), k(1.0));
    assert_eq!(a.y(), k(2.0));
    assert_eq!(a.z(), k(3.0));
}

#[test]
fn dot_commutes() {
    for a in vectors() {
        for b in vectors() {
            assert_eq!(a.dot(&b).to_bits(), b.dot(&a).to_bits());
        }
    }
}

#[test]
fn cross_changes_sign_when_swapped() {
    for a in vectors() {
        for b in vectors() {
            assert_eq!(a.cross(&b), -&b.cross(&a));
        }
    }
}

#[test]
fn cross_follows_the_right_hand_rule() {
    let ex = w(1.0, 0.0, 0.0);
    let ey = w(0.0, 1.0, 0.0);
    let ez = w(0.0, 0.0, 1.0);
    assert_eq!(ex.cross(&ey), ez);
    assert_eq!(ey.cross(&ez), ex);
    assert_eq!(ez.cross(&ex), ey);
    assert_eq!(ey.cross(&ex), w(0.0, 0.0, -1.0));
    assert_eq!(w(1.0, 2.0, 3.0).cross(&w(-2.0, 1.0, 4.0)), w(5.0, -10.0, 5.0));
}

#[test]
fn cross_of_parallel_vectors_is_zero() {
    let a = w(1.0, 2.0, 3.0);
    assert_eq!(a.cross(&a), w(0.0, 0.0, 0.0));
    assert_eq!(a.cross(&w(2.0, 4.0, 6.0)), w(0.0, 0.0, 0.0));
    assert_eq!(a.cross(&w(-0.5, -1.0, -1.5)), w(0.0, 0.0, 0.0));
}

#[test]
fn norm_is_not_below_zero() {
    for a in vectors() {
        assert!(d(a.norm()) >= 0.0);
    }
    assert_eq!(w(3.0, 4.0, 0.0).norm(), k(5.0));
    assert_eq!(w(0.0, 0.0, 0.0).norm(), k(0.0));
    assert!(w(f64::NAN, 0.0, 0.0).norm().is_nan());
}

#[test]
fn normalized_vectors_have_unit_length() {
    for a in vectors() {
        let unit = a.checked_normalize().unwrap();
        assert!((d(unit.norm()) - 1.0).abs() < 1e-12);
        assert_eq!(unit, a.normalize());
    }
    assert_eq!(w(0.0, 3.0, 4.0).normalize(), w(0.0, 3.0 * (1.0 / 5.0), 4.0 * (1.0 / 5.0)));
    assert_eq!(w(0.0, 0.0, -2.0).normalize(), w(0.0, 0.0, -1.0));
}

#[test]
fn vectors_without_length_are_not_normalized() {
    assert_eq!(w(0.0, 0.0, 0.0).checked_normalize(), None);
    assert_eq!(w(-0.0, 0.0, -0.0).checked_normalize(), None);
    assert_eq!(w(f64::NAN, 1.0, 0.0).checked_normalize(), None);
    assert_eq!(w(f64::INFINITY, 1.0, 0.0).checked_normalize(), None);
    assert_eq!(w(1e200, 1e200, 0.0).checked_normalize(), None);
    assert_eq!(w(1e-200, 0.0, 0.0).checked_normalize(), None);
    assert_eq!(w(2.0, 0.0, 0.0).checked_normalize(), Some(w(1.0, 0.0, 0.0)));
}

#[test]
fn sums_of_small_integers_associate() {
    let a = w(1.0, 2.0, 3.0);
    let b = w(-2.0, 1.0, 4.0);
    let c = w(0.5, -0.25, 8.0);
    assert_eq!(&(&a + &b) + &c, &a + &(&b + &c));
    assert_eq!(&(&a + &b) + &c, w(-0.5, 2.75, 15.0));
}

#[test]
fn sums_associate_within_tolerance() {
    let all = vectors();
    for a in &all {
        for b in &all {
            for c in &all {
                let left = &(a + b) + c;
                let right = a + &(b + c);
                let gap = &left - &right;
                assert!(d(gap.norm()) <= 1e-12 * (1.0 + d(left.norm())));
            }
        }
    }
}

#[test]
fn scaling_distributes_over_sums() {
    let a = w(1.0, 2.0, 3.0);
    let b = w(-2.0, 1.0, 4.0);
    let s = k(0.5);
    assert_eq!(s * &(&a + &b), &(s * &a) + &(s * &b));
    assert_eq!(s * &(&a + &b), w(-0.5, 1.5, 3.5));
    let all = vectors();
    for a in &all {
        for b in &all {
            let left = k(3.2) * &(a + b);
            let right = &(k(3.2) * a) + &(k(3.2) * b);
            let gap = &left - &right;
            assert!(d(gap.norm()) <= 1e-12 * (1.0 + d(left.norm())));
        }
    }
}

#[test]
fn scalar_on_the_left_is_scalar_on_the_right() {
    for a in vectors() {
        for s in [0.0, 1.0, -1.0, 3.2, 1e-3] {
            let left = k(s) * &a;
            let right = &a * k(s);
            assert_eq!(left.x().to_bits(), right.x().to_bits());
            assert_eq!(left.y().to_bits(), right.y().to_bits());
            assert_eq!(left.z().to_bits(), right.z().to_bits());
        }
        assert_eq!(4i64 * &a, &a * 4i64);
        assert_eq!(&a * 4i64, &a * k(4.0));
        assert_eq!(&a / 4i64, &a / k(4.0));
    }
}

#[test]
fn division_by_a_scalar_multiplies_by_the_reciprocal() {
    let a = w(2.9, 0.0, -3.5);
    assert_eq!(&a / k(3.2), &a * k(1.0 / 3.2));
    assert_eq!(&w(1.0, 2.0, 4.0) / k(2.0), w(0.5, 1.0, 2.0));
}

#[test]
fn negation_negates_every_component() {
    assert_eq!(-&w(1.0, -2.0, 0.0), w(-1.0, 2.0, -0.0));
    assert_eq!((-&w(1.0, -2.0, 0.0)).z().to_bits(), (-0.0f64).to_bits());
}

#[test]
fn equality_is_numerical() {
    assert_eq!(w(0.0, 1.0, 2.0), w(-0.0, 1.0, 2.0));
    assert_ne!(w(f64::NAN, 1.0, 2.0), w(f64::NAN, 1.0, 2.0));
    assert_ne!(w(0.0, 1.0, 2.0), w(0.0, 1.0, 2.5));
}
