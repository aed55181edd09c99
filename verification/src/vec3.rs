//! Three-component vectors over [`Scalar`].
//!
//! Every operation returns a new vector. The specification of each one is a
//! spec function of the same shape over the arithmetic of [`Scalar`]:
//! [`Vec3::sum`], [`Vec3::difference`], [`Vec3::product`], [`Vec3::quotient`],
//! [`Vec3::negated`], [`Vec3::scaled`], [`Vec3::divided`], [`Vec3::dot_spec`],
//! [`Vec3::cross_spec`], [`Vec3::norm_spec`] and [`Vec3::normalize_spec`].
//!
//! In these, `add_spec`, `sub_spec`, `mul_spec`, `div_spec`, `neg_spec` and
//! `sqrt_spec` on numbers are the specifications of `+`, `-`, `*`, `/`,
//! negation and the square root: [`crate::arith::sum`],
//! [`crate::arith::difference`], [`crate::arith::product`],
//! [`crate::arith::quotient`], the flip of the sign bit, and
//! [`crate::arith::root`].
//!
//! The operators take references, as in `&a + &b`. Verus does not yet take an
//! operator sign between references, so verified code calls the same
//! functions as methods: `a.add(&b)`.

use crate::arith::{
    lemma_difference_swaps, lemma_product_commutes, lemma_product_negates,
    lemma_root_is_not_negative, lemma_sum_negates, lemma_sum_respects_equality, product, sum,
};
use crate::convert::{from_i64, nearest_double};
use crate::scalar::{lemma_neg_mirrors, Scalar};
use core::ops::{Div, Mul, Neg};
use vstd::prelude::*;
use vstd::std_specs::ops::{AddSpec, DivSpec, MulSpec, NegSpec, SubSpec};

verus! {

/// A vector of three components, or a colour of red, green and blue.
#[derive(Clone, Copy, Debug)]
pub struct Vec3 {
    pub x: Scalar,
    pub y: Scalar,
    pub z: Scalar,
}

impl Vec3 {
    /// Numerically equal, component by component.
    pub open spec fn equal(self, other: Vec3) -> bool {
        self.x.equal(other.x) && self.y.equal(other.y) && self.z.equal(other.z)
    }

    /// Componentwise sum.
    pub open spec fn sum(self, other: Vec3) -> Vec3 {
        Vec3 {
            x: self.x.add_spec(other.x),
            y: self.y.add_spec(other.y),
            z: self.z.add_spec(other.z),
        }
    }

    /// Componentwise difference.
    pub open spec fn difference(self, other: Vec3) -> Vec3 {
        Vec3 {
            x: self.x.sub_spec(other.x),
            y: self.y.sub_spec(other.y),
            z: self.z.sub_spec(other.z),
        }
    }

    /// Componentwise product.
    pub open spec fn product(self, other: Vec3) -> Vec3 {
        Vec3 {
            x: self.x.mul_spec(other.x),
            y: self.y.mul_spec(other.y),
            z: self.z.mul_spec(other.z),
        }
    }

    /// Componentwise quotient.
    pub open spec fn quotient(self, other: Vec3) -> Vec3 {
        Vec3 {
            x: self.x.div_spec(other.x),
            y: self.y.div_spec(other.y),
            z: self.z.div_spec(other.z),
        }
    }

    /// Every component negated.
    pub open spec fn negated(self) -> Vec3 {
        Vec3 { x: self.x.neg_spec(), y: self.y.neg_spec(), z: self.z.neg_spec() }
    }

    /// Every component times `k`.
    pub open spec fn scaled(self, k: Scalar) -> Vec3 {
        Vec3 { x: self.x.mul_spec(k), y: self.y.mul_spec(k), z: self.z.mul_spec(k) }
    }

    /// Every component times the reciprocal of `k`.
    pub open spec fn divided(self, k: Scalar) -> Vec3 {
        self.scaled(Scalar::one_spec().div_spec(k))
    }

    /// The dot product: the three products, summed from the left.
    pub open spec fn dot_spec(self, other: Vec3) -> Scalar {
        self.x.mul_spec(other.x).add_spec(self.y.mul_spec(other.y)).add_spec(
            self.z.mul_spec(other.z),
        )
    }

    /// The cross product, by the right-hand rule.
    pub open spec fn cross_spec(self, other: Vec3) -> Vec3 {
        Vec3 {
            x: self.y.mul_spec(other.z).sub_spec(self.z.mul_spec(other.y)),
            y: self.z.mul_spec(other.x).sub_spec(self.x.mul_spec(other.z)),
            z: self.x.mul_spec(other.y).sub_spec(self.y.mul_spec(other.x)),
        }
    }

    /// The Euclidean length: the root of the dot product with itself.
    pub open spec fn norm_spec(self) -> Scalar {
        self.dot_spec(self).sqrt_spec()
    }

    /// The vector divided by its length.
    pub open spec fn normalize_spec(self) -> Vec3 {
        self.divided(self.norm_spec())
    }

    /// The vector divided by its length, where that length is above zero and
    /// below infinity.
    pub open spec fn checked_normalize_spec(self) -> Option<Vec3> {
        if self.norm_spec().is_positive_finite_spec() {
            Some(self.normalize_spec())
        } else {
            None
        }
    }

    pub fn new(x: Scalar, y: Scalar, z: Scalar) -> (r: Vec3)
        ensures
            r == (Vec3 { x, y, z }),
    {
        Vec3 { x, y, z }
    }

    pub fn x(&self) -> (r: Scalar)
        ensures
            r == self.x,
    {
        self.x
    }

    pub fn y(&self) -> (r: Scalar)
        ensures
            r == self.y,
    {
        self.y
    }

    pub fn z(&self) -> (r: Scalar)
        ensures
            r == self.z,
    {
        self.z
    }

    /// The dot product.
    pub fn dot(&self, other: &Vec3) -> (r: Scalar)
        ensures
            r == self.dot_spec(*other),
    {
        let prod = self.mul(other);
        prod.x + prod.y + prod.z
    }

    /// The length. It is a NaN or at least zero.
    pub fn norm(&self) -> (r: Scalar)
        ensures
            r == self.norm_spec(),
            r.is_nan_spec() || Scalar::zero_spec().le_spec(r),
    {
        self.dot(self).sqrt()
    }

    /// The cross product.
    pub fn cross(&self, other: &Vec3) -> (r: Vec3)
        ensures
            r == self.cross_spec(*other),
    {
        Vec3::new(
            self.y * other.z - self.z * other.y,
            self.z * other.x - self.x * other.z,
            self.x * other.y - self.y * other.x,
        )
    }

    /// The vector divided by its length, for a vector whose length is above
    /// zero and below infinity. [`Vec3::checked_normalize`] makes that test.
    pub fn normalize(&self) -> (r: Vec3)
        requires
            self.norm_spec().is_positive_finite_spec(),
        ensures
            r == self.normalize_spec(),
    {
        self.div(self.norm())
    }

    /// The vector divided by its length, or nothing where the length is zero,
    /// infinite or a NaN.
    pub fn checked_normalize(&self) -> (r: Option<Vec3>)
        ensures
            r == self.checked_normalize_spec(),
            r is Some <==> self.norm_spec().is_positive_finite_spec(),
    {
        if self.norm().is_positive_finite() {
            Some(self.normalize())
        } else {
            None
        }
    }
}

/// `==` is numerical equality of the components, [`Vec3::equal`].
impl PartialEq for Vec3 {
    fn eq(&self, other: &Vec3) -> (r: bool) {
        self.x == other.x && self.y == other.y && self.z == other.z
    }
}

impl vstd::std_specs::cmp::PartialEqSpecImpl for Vec3 {
    open spec fn obeys_eq_spec() -> bool {
        true
    }

    open spec fn eq_spec(&self, other: &Vec3) -> bool {
        self.equal(*other)
    }
}

impl core::ops::Add<&Vec3> for &Vec3 {
    type Output = Vec3;

    fn add(self, other: &Vec3) -> (r: Vec3) {
        Vec3::new(self.x + other.x, self.y + other.y, self.z + other.z)
    }
}

impl vstd::std_specs::ops::AddSpecImpl<&Vec3> for &Vec3 {
    open spec fn obeys_add_spec() -> bool {
        true
    }

    open spec fn add_req(self, other: &Vec3) -> bool {
        true
    }

    open spec fn add_spec(self, other: &Vec3) -> Vec3 {
        self.sum(*other)
    }
}

impl core::ops::Sub<&Vec3> for &Vec3 {
    type Output = Vec3;

    fn sub(self, other: &Vec3) -> (r: Vec3) {
        Vec3::new(self.x - other.x, self.y - other.y, self.z - other.z)
    }
}

impl vstd::std_specs::ops::SubSpecImpl<&Vec3> for &Vec3 {
    open spec fn obeys_sub_spec() -> bool {
        true
    }

    open spec fn sub_req(self, other: &Vec3) -> bool {
        true
    }

    open spec fn sub_spec(self, other: &Vec3) -> Vec3 {
        self.difference(*other)
    }
}

impl core::ops::Neg for &Vec3 {
    type Output = Vec3;

    fn neg(self) -> (r: Vec3) {
        Vec3::new(self.x.neg(), self.y.neg(), self.z.neg())
    }
}

impl vstd::std_specs::ops::NegSpecImpl for &Vec3 {
    open spec fn obeys_neg_spec() -> bool {
        true
    }

    open spec fn neg_req(self) -> bool {
        true
    }

    open spec fn neg_spec(self) -> Vec3 {
        self.negated()
    }
}

impl core::ops::Mul<&Vec3> for &Vec3 {
    type Output = Vec3;

    fn mul(self, other: &Vec3) -> (r: Vec3) {
        Vec3::new(self.x * other.x, self.y * other.y, self.z * other.z)
    }
}

impl vstd::std_specs::ops::MulSpecImpl<&Vec3> for &Vec3 {
    open spec fn obeys_mul_spec() -> bool {
        true
    }

    open spec fn mul_req(self, other: &Vec3) -> bool {
        true
    }

    open spec fn mul_spec(self, other: &Vec3) -> Vec3 {
        self.product(*other)
    }
}

impl core::ops::Div<&Vec3> for &Vec3 {
    type Output = Vec3;

    fn div(self, other: &Vec3) -> (r: Vec3) {
        Vec3::new(self.x / other.x, self.y / other.y, self.z / other.z)
    }
}

impl vstd::std_specs::ops::DivSpecImpl<&Vec3> for &Vec3 {
    open spec fn obeys_div_spec() -> bool {
        true
    }

    open spec fn div_req(self, other: &Vec3) -> bool {
        true
    }

    open spec fn div_spec(self, other: &Vec3) -> Vec3 {
        self.quotient(*other)
    }
}

impl core::ops::Mul<Scalar> for &Vec3 {
    type Output = Vec3;

    fn mul(self, other: Scalar) -> (r: Vec3) {
        Vec3::new(self.x * other, self.y * other, self.z * other)
    }
}

impl vstd::std_specs::ops::MulSpecImpl<Scalar> for &Vec3 {
    open spec fn obeys_mul_spec() -> bool {
        true
    }

    open spec fn mul_req(self, other: Scalar) -> bool {
        true
    }

    open spec fn mul_spec(self, other: Scalar) -> Vec3 {
        self.scaled(other)
    }
}

/// A scalar on the left gives what it gives on the right.
impl core::ops::Mul<&Vec3> for Scalar {
    type Output = Vec3;

    fn mul(self, other: &Vec3) -> (r: Vec3) {
        other.mul(self)
    }
}

impl vstd::std_specs::ops::MulSpecImpl<&Vec3> for Scalar {
    open spec fn obeys_mul_spec() -> bool {
        true
    }

    open spec fn mul_req(self, other: &Vec3) -> bool {
        true
    }

    open spec fn mul_spec(self, other: &Vec3) -> Vec3 {
        other.scaled(self)
    }
}

/// Division by a scalar multiplies by its reciprocal.
impl core::ops::Div<Scalar> for &Vec3 {
    type Output = Vec3;

    fn div(self, other: Scalar) -> (r: Vec3) {
        self.mul(Scalar::one() / other)
    }
}

impl vstd::std_specs::ops::DivSpecImpl<Scalar> for &Vec3 {
    open spec fn obeys_div_spec() -> bool {
        true
    }

    open spec fn div_req(self, other: Scalar) -> bool {
        true
    }

    open spec fn div_spec(self, other: Scalar) -> Vec3 {
        self.divided(other)
    }
}

/// An integer factor is converted to the nearest double first.
impl core::ops::Mul<i64> for &Vec3 {
    type Output = Vec3;

    fn mul(self, other: i64) -> (r: Vec3) {
        self.mul(from_i64(other))
    }
}

impl vstd::std_specs::ops::MulSpecImpl<i64> for &Vec3 {
    open spec fn obeys_mul_spec() -> bool {
        true
    }

    open spec fn mul_req(self, other: i64) -> bool {
        true
    }

    open spec fn mul_spec(self, other: i64) -> Vec3 {
        self.scaled(nearest_double(other as int))
    }
}

impl core::ops::Mul<&Vec3> for i64 {
    type Output = Vec3;

    fn mul(self, other: &Vec3) -> (r: Vec3) {
        other.mul(self)
    }
}

impl vstd::std_specs::ops::MulSpecImpl<&Vec3> for i64 {
    open spec fn obeys_mul_spec() -> bool {
        true
    }

    open spec fn mul_req(self, other: &Vec3) -> bool {
        true
    }

    open spec fn mul_spec(self, other: &Vec3) -> Vec3 {
        other.scaled(nearest_double(self as int))
    }
}

/// An integer divisor is converted to the nearest double first.
impl core::ops::Div<i64> for &Vec3 {
    type Output = Vec3;

    fn div(self, other: i64) -> (r: Vec3) {
        self.div(from_i64(other))
    }
}

impl vstd::std_specs::ops::DivSpecImpl<i64> for &Vec3 {
    open spec fn obeys_div_spec() -> bool {
        true
    }

    open spec fn div_req(self, other: i64) -> bool {
        true
    }

    open spec fn div_spec(self, other: i64) -> Vec3 {
        self.divided(nearest_double(other as int))
    }
}

/// The dot product does not depend on the order of its factors.
pub proof fn lemma_dot_commutes(a: Vec3, b: Vec3)
    ensures
        a.dot_spec(b) == b.dot_spec(a),
{
    lemma_product_commutes(a.x, b.x);
    lemma_product_commutes(a.y, b.y);
    lemma_product_commutes(a.z, b.z);
}

/// Swapping the factors of a cross product negates it: the two results are
/// numerically equal, unless the product has a NaN among its components.
pub proof fn lemma_cross_swaps(a: Vec3, b: Vec3)
    requires
        !a.cross_spec(b).x.is_nan_spec(),
        !a.cross_spec(b).y.is_nan_spec(),
        !a.cross_spec(b).z.is_nan_spec(),
    ensures
        a.cross_spec(b).equal(b.cross_spec(a).negated()),
{
    lemma_product_commutes(a.y, b.z);
    lemma_product_commutes(a.z, b.y);
    lemma_product_commutes(a.z, b.x);
    lemma_product_commutes(a.x, b.z);
    lemma_product_commutes(a.x, b.y);
    lemma_product_commutes(a.y, b.x);
    lemma_difference_swaps(product(a.y, b.z), product(a.z, b.y));
    lemma_difference_swaps(product(a.z, b.x), product(a.x, b.z));
    lemma_difference_swaps(product(a.x, b.y), product(a.y, b.x));
}

/// The length of a vector is a NaN or at least zero.
pub proof fn lemma_norm_is_not_negative(a: Vec3)
    ensures
        a.norm_spec().is_nan_spec() || Scalar::zero_spec().le_spec(a.norm_spec()),
{
    lemma_root_is_not_negative(a.dot_spec(a));
}

/// A scalar on the left of a vector gives what it gives on the right.
pub proof fn lemma_scaling_commutes(a: Vec3, k: Scalar)
    ensures
        k.mul_spec(&a) == (&a).mul_spec(k),
{
}

/// Negating one factor negates the dot product: the two are numerically
/// equal, unless the dot product is a NaN.
pub proof fn lemma_dot_negates(a: Vec3, b: Vec3)
    requires
        !a.dot_spec(b).is_nan_spec(),
    ensures
        a.dot_spec(b.negated()).equal(a.dot_spec(b).neg_spec()),
{
    let px = product(a.x, b.x);
    let py = product(a.y, b.y);
    let pz = product(a.z, b.z);
    let first = sum(px, py);
    lemma_product_negates(a.x, b.x);
    lemma_product_negates(a.y, b.y);
    lemma_product_negates(a.z, b.z);
    lemma_sum_negates(px, py);
    lemma_neg_mirrors(pz);
    lemma_sum_negates(first, pz);
    lemma_sum_respects_equality(
        first.neg_spec(),
        sum(px.neg_spec(), py.neg_spec()),
        pz.neg_spec(),
        pz.neg_spec(),
    );
}

/// The cross product of a vector with itself is the zero vector, where the
/// products of its components are finite.
pub proof fn lemma_cross_with_itself_is_zero(a: Vec3)
    requires
        product(a.y, a.z).is_finite_spec(),
        product(a.z, a.x).is_finite_spec(),
        product(a.x, a.y).is_finite_spec(),
    ensures
        a.cross_spec(a).x.is_zero_spec(),
        a.cross_spec(a).y.is_zero_spec(),
        a.cross_spec(a).z.is_zero_spec(),
{
    lemma_product_commutes(a.y, a.z);
    lemma_product_commutes(a.z, a.x);
    lemma_product_commutes(a.x, a.y);
    lemma_neg_mirrors(product(a.y, a.z));
    lemma_neg_mirrors(product(a.z, a.x));
    lemma_neg_mirrors(product(a.x, a.y));
}

} // verus!
