use raycore::scalar::Scalar;
use raycore::vec3::Vec3;

fn s(v: f64) -> Scalar {
    Scalar::from_bits(v.to_bits())
}

fn f(v: Scalar) -> f64 {
    f64::from_bits(v.to_bits())
}

fn v3(x: f64, y: f64, z: f64) -> Vec3 {
    Vec3::new(s(x), s(y), s(z))
}

#[test]
fn test_add_vec_1() {
    let a: Vec3 = v3(0., 0., 0.);
    let b: Vec3 = v3(0., 0., 0.);
    let res: Vec3 = v3(0., 0., 0.);

    assert_eq!(&a + &b, res);
}

#[test]
fn test_add_vec_2() {
    let a: Vec3 = v3(7., -2., -6.4);
    let b: Vec3 = v3(2.9, -0.1, 0.9);
    let res: Vec3 = v3(9.9, -2.1, -5.5);

    assert_eq!(&a + &b, res);
}

#[test]
fn test_sub_vec_1() {
    let a: Vec3 = v3(0., 0., 0.);
    let b: Vec3 = v3(0., 0., 0.);
    let res: Vec3 = v3(0., 0., 0.);

    assert_eq!(&a - &b, res);
}

#[test]
fn test_sub_vec_2() {
    let a: Vec3 = v3(7., -2., -6.4);
    let b: Vec3 = v3(2.9, -0.1, 0.9);
    let sub: Vec3 = &a - &b;
    let res: Vec3 = v3(4.1, -1.9, -7.3);

    let epsilon: f64 = 0.000001;

    assert!((f(sub.x) - f(res.x)).abs() < epsilon);
    assert!((f(sub.y) - f(res.y)).abs() < epsilon);
    assert!((f(sub.z) - f(res.z)).abs() < epsilon);
}

#[test]
fn test_mul_vec_1() {
    let a: Vec3 = v3(1., 1., 1.);
    let b: Vec3 = v3(1., 1., 1.);
    let res: Vec3 = v3(1., 1., 1.);

    assert_eq!(&a * &b, res);
}

#[test]
fn test_mul_vec_2() {
    let a: Vec3 = v3(1., 1., 1.);
    let b: Vec3 = v3(-3., 4., -2.5);
    let res: Vec3 = v3(-3., 4., -2.5);

    assert_eq!(&a * &b, res);
}

#[test]
fn test_mul_vec_3() {
    let a: Vec3 = v3(2.9, 0., -3.5);
    let b: Vec3 = v3(-3., 4., -2.);
    let mul: Vec3 = &a * &b;
    let res: Vec3 = v3(-8.7, 0., 7.);

    let epsilon: f64 = 0.000001;

    assert!((f(mul.x) - f(res.x)).abs() < epsilon);
    assert!((f(mul.y) - f(res.y)).abs() < epsilon);
    assert!((f(mul.z) - f(res.z)).abs() < epsilon);
}

#[test]
fn test_div_vec_1() {
    let a: Vec3 = v3(1., 1., 1.);
    let b: Vec3 = v3(1., 1., 1.);
    let res: Vec3 = v3(1., 1., 1.);

    assert_eq!(&a / &b, res);
}

#[test]
fn test_div_vec_2() {
    let a: Vec3 = v3(-3., 4., -2.5);
    let b: Vec3 = v3(1., 1., 1.);
    let res: Vec3 = v3(-3., 4., -2.5);

    assert_eq!(&a / &b, res);
}

#[test]
fn test_div_vec_3() {
    let a: Vec3 = v3(2.9, 0., 4.);
    let b: Vec3 = v3(-2.9, 4., -2.);
    let div: Vec3 = &a / &b;
    let res: Vec3 = v3(-1., 0., -2.);

    let epsilon: f64 = 0.000001;

    assert!((f(div.x) - f(res.x)).abs() < epsilon);
    assert!((f(div.y) - f(res.y)).abs() < epsilon);
    assert!((f(div.z) - f(res.z)).abs() < epsilon);
}

#[test]
fn test_mul_scalar_1() {
    let a: Vec3 = v3(1., 1., 1.);
    let b: Scalar = s(1.);
    let res: Vec3 = v3(1., 1., 1.);

    assert_eq!(&a * b, res);
}

#[test]
fn test_mul_scalar_2() {
    let a: Scalar = s(1.);
    let b: Vec3 = v3(-3., 4., -2.5);
    let res: Vec3 = v3(-3., 4., -2.5);

    assert_eq!(a * &b, res);
}

#[test]
fn test_mul_scalar_3() {
    let a: Vec3 = v3(2.9, 0., -3.5);
    let b: Scalar = s(3.2);
    let mul: Vec3 = &a * b;
    let res: Vec3 = v3(9.28, 0., -11.2);

    let epsilon: f64 = 0.000001;

    assert!((f(mul.x) - f(res.x)).abs() < epsilon);
    assert!((f(mul.y) - f(res.y)).abs() < epsilon);
    assert!((f(mul.z) - f(res.z)).abs() < epsilon);
}

#[test]
fn test_mul_scalar_4() {
    let a: Vec3 = v3(2.9, 0., -3.5);
    let b: i64 = 4;
    let mul: Vec3 = &a * b;
    let res: Vec3 = v3(11.6, 0., -14.0);

    let epsilon: f64 = 0.000001;

    assert!((f(mul.x) - f(res.x)).abs() < epsilon);
    assert!((f(mul.y) - f(res.y)).abs() < epsilon);
    assert!((f(mul.z) - f(res.z)).abs() < epsilon);
}

#[test]
fn test_div_scalar_1() {
    let a: Vec3 = v3(1., 1., 1.);
    let b: Scalar = s(1.);
    let res: Vec3 = v3(1., 1., 1.);

    assert_eq!(&a / b, res);
}

#[test]
fn test_div_scalar_2() {
    let a: Vec3 = v3(2.9, 0., -3.5);
    let b: Scalar = s(3.2);
    let mul: Vec3 = &a / b;
    let res: Vec3 = v3(0.90625, 0., -1.09375);

    let epsilon: f64 = 0.000001;

    assert!((f(mul.x) - f(res.x)).abs() < epsilon);
    assert!((f(mul.y) - f(res.y)).abs() < epsilon);
    assert!((f(mul.z) - f(res.z)).abs() < epsilon);
}

#[test]
fn test_div_scalar_3() {
    let a: Vec3 = v3(2.9, 0., -3.5);
    let b: i64 = 4;
    let mul: Vec3 = &a / b;
    let res: Vec3 = v3(0.725, 0., -0.875);

    let epsilon: f64 = 0.000001;

    assert!((f(mul.x) - f(res.x)).abs() < epsilon);
    assert!((f(mul.y) - f(res.y)).abs() < epsilon);
    assert!((f(mul.z) - f(res.z)).abs() < epsilon);
}

#[test]
fn test_dot_1() {
    let a: Vec3 = v3(1., 2., 3.);
    let b: Vec3 = v3(0., 0., 0.);
    let res: Scalar = s(0.);

    assert_eq!(a.dot(&b), res);
}

#[test]
fn test_dot_2() {
    let a: Vec3 = v3(1., 2., 3.);
    let b: Vec3 = v3(-2., 1., 4.);
    let res: Scalar = s(12.);

    assert_eq!(a.dot(&b), res);
}

#[test]
fn test_norm_1() {
    let a: Vec3 = v3(0., 0., 0.);
    let res: Scalar = s(0.);

    assert_eq!(a.norm(), res);
}

#[test]
fn test_norm_2() {
    let a: Vec3 = v3(1., 1., 1.);
    let res: f64 = 1.73205;
    let epsilon: f64 = 0.000001;

    assert!((f(a.norm()) - res).abs() < epsilon);
}

#[test]
fn test_norm_3() {
    let a: Vec3 = v3(1., 2.5, -1.2);
    let res: f64 = 2.94788;
    let epsilon: f64 = 0.000001;

    println!("{}", f(a.norm()));

    assert!((f(a.norm()) - res).abs() < epsilon);
}
