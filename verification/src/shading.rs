//! From a ray to a colour.
//!
//! A colour is a [`Vec3`] of red, green and blue, each meant to lie between
//! zero and one. A ray that hits a surface is coloured by the normal there; a
//! ray that hits nothing is coloured by how steeply it climbs, from white for
//! a ray that points straight down to sky blue for one that points straight
//! up.

use crate::arith::{
    lemma_product_commutes, lemma_product_is_monotone, lemma_product_of_exact,
    lemma_rounded_zero, lemma_sum_commutes, lemma_sum_is_monotone, lemma_sum_of_exact,
    lemma_units_of_one, product, sum,
};
use crate::hittable::{nearest_hit, nearest_hit_spec, Hittable};
use crate::ray::Ray;
use crate::round::lemma_rounded_exists;
use crate::scalar::{
    lemma_neg_mirrors, lemma_rank_orders, steps_per_unit, units_of, Scalar, HALF_BITS,
    HIDDEN_BIT, ONE_BITS,
};
use crate::vec3::Vec3;
use core::ops::{Add, Mul};
use vstd::arithmetic::power2::{
    lemma2_to64_rest, lemma_pow2_adds, lemma_pow2_pos, lemma_pow2_unfold, pow2,
};
use vstd::prelude::*;
use vstd::std_specs::ops::{AddSpec, MulSpec, NegSpec, SubSpec};

verus! {

/// The pattern of the double nearest to 7/10, the green of the sky.
pub const SKY_GREEN_BITS: u64 = 0x3fe6_6666_6666_6666;

/// White: `(1, 1, 1)`.
pub open spec fn white_spec() -> Vec3 {
    Vec3 { x: Scalar::one_spec(), y: Scalar::one_spec(), z: Scalar::one_spec() }
}

/// Sky blue: `(0.5, 0.7, 1)`.
pub open spec fn sky_blue_spec() -> Vec3 {
    Vec3 {
        x: Scalar { bits: HALF_BITS },
        y: Scalar { bits: SKY_GREEN_BITS },
        z: Scalar { bits: ONE_BITS },
    }
}

/// The colour of a unit normal `n`: `0.5 * (n + (1, 1, 1))`, which takes each
/// component from `-1 ..= 1` to `0 ..= 1`.
pub open spec fn normal_color_spec(normal: Vec3) -> Vec3 {
    Vec3 {
        x: normal.x.add_spec(Scalar::one_spec()),
        y: normal.y.add_spec(Scalar::one_spec()),
        z: normal.z.add_spec(Scalar::one_spec()),
    }.scaled(Scalar::half_spec())
}

/// The colour of the background along a direction of unit length:
/// `(1 - t) * white + t * sky_blue` with `t = 0.5 * (y + 1)`. Only the
/// vertical component `y` counts.
pub open spec fn sky_gradient_spec(unit_direction: Vec3) -> Vec3 {
    let t = Scalar::half_spec().mul_spec(unit_direction.y.add_spec(Scalar::one_spec()));
    white_spec().scaled(Scalar::one_spec().sub_spec(t)).sum(sky_blue_spec().scaled(t))
}

/// The colour of the background along `direction`: the gradient at the
/// direction brought to unit length, or nothing where its length is zero,
/// infinite or a NaN.
pub open spec fn background_spec(direction: Vec3) -> Option<Vec3> {
    match direction.checked_normalize_spec() {
        Some(unit_direction) => Some(sky_gradient_spec(unit_direction)),
        None => None,
    }
}

/// The colour seen along `r`: that of the normal at the nearest hit in front
/// of the origin, or the background where nothing is hit.
pub open spec fn ray_color_spec<H: Hittable>(r: Ray, scene: Seq<H>) -> Option<Vec3> {
    match nearest_hit_spec(scene, r, Scalar::min_positive_spec(), Scalar::infinity_spec()) {
        Some(rec) => Some(normal_color_spec(rec.normal)),
        None => background_spec(r.direction),
    }
}

#[verifier::when_used_as_spec(white_spec)]
pub fn white() -> (color: Vec3)
    ensures
        color == white_spec(),
{
    Vec3::new(Scalar::one(), Scalar::one(), Scalar::one())
}

#[verifier::when_used_as_spec(sky_blue_spec)]
pub fn sky_blue() -> (color: Vec3)
    ensures
        color == sky_blue_spec(),
{
    Vec3::new(Scalar::half(), Scalar::from_bits(SKY_GREEN_BITS), Scalar::one())
}

/// The colour of a surface with the given unit normal.
pub fn normal_color(normal: &Vec3) -> (color: Vec3)
    ensures
        color == normal_color_spec(*normal),
{
    Scalar::half().mul(
        &Vec3::new(
            normal.x() + Scalar::one(),
            normal.y() + Scalar::one(),
            normal.z() + Scalar::one(),
        ),
    )
}

/// The colour of the background along a direction of unit length.
pub fn sky_gradient(unit_direction: &Vec3) -> (color: Vec3)
    ensures
        color == sky_gradient_spec(*unit_direction),
{
    let t = Scalar::half() * (unit_direction.y() + Scalar::one());
    (Scalar::one() - t).mul(&white()).add(&t.mul(&sky_blue()))
}

/// The background along `direction`. There is a colour exactly where the
/// length of `direction` is above zero and below infinity.
pub fn background(direction: &Vec3) -> (color: Option<Vec3>)
    ensures
        color == background_spec(*direction),
        color is Some <==> direction.norm_spec().is_positive_finite_spec(),
{
    match direction.checked_normalize() {
        Some(unit_direction) => Some(sky_gradient(&unit_direction)),
        None => None,
    }
}

/// The colour seen along `r` in `scene`. Hits behind the origin and at it do
/// not count: the interval starts at the smallest value above zero and has no
/// upper end. There is a colour where a surface is hit, and where none is hit
/// and the length of the ray's direction is above zero and below infinity.
pub fn ray_color<H: Hittable>(r: &Ray, scene: &Vec<H>) -> (color: Option<Vec3>)
    ensures
        color == ray_color_spec(*r, scene@),
        color is None <==> nearest_hit_spec(
            scene@,
            *r,
            Scalar::min_positive_spec(),
            Scalar::infinity_spec(),
        ) is None && !r.direction.norm_spec().is_positive_finite_spec(),
{
    match nearest_hit(scene, r, Scalar::min_positive(), Scalar::infinity()) {
        Some(rec) => Some(normal_color(&rec.normal)),
        None => background(r.direction()),
    }
}

/// Whether a number lies between zero and one, the ends included.
pub open spec fn is_unit_share(value: Scalar) -> bool {
    Scalar::zero_spec().le_spec(value) && value.le_spec(Scalar::one_spec())
}

/// A component of a normal between minus one and one becomes a channel
/// between zero and one.
pub proof fn lemma_normal_channel_is_a_share(component: Scalar)
    requires
        Scalar::one_spec().neg_spec().le_spec(component),
        component.le_spec(Scalar::one_spec()),
    ensures
        is_unit_share(product(sum(component, Scalar::one_spec()), Scalar::half_spec())),
{
    let one = Scalar::one_spec();
    let half = Scalar::half_spec();
    let two = Scalar { bits: 0x4000_0000_0000_0000 };
    let zero = Scalar::zero_spec();
    let u = steps_per_unit();
    let low = pow2(1021) as int;
    // What the constants stand for.
    lemma_units_of_one();
    lemma_neg_mirrors(one);
    lemma_pow2_adds(52, 1022);
    lemma_pow2_unfold(1022);
    lemma_pow2_unfold(1023);
    lemma2_to64_rest();
    assert(half.units() == HIDDEN_BIT * low);
    assert(two.units() == HIDDEN_BIT * pow2(1023));
    assert(u == 2 * (HIDDEN_BIT * low) && two.units() == 2 * u) by (nonlinear_arith)
        requires
            u == HIDDEN_BIT * pow2(1022),
            pow2(1022) == 2 * low,
            pow2(1023) == 2 * pow2(1022),
            two.units() == HIDDEN_BIT * pow2(1023),
    ;
    // The sum lies between zero and two.
    let shifted = sum(component, one);
    lemma_rank_orders(one.neg_spec(), component);
    lemma_rank_orders(component, one);
    lemma_sum_commutes(component, one);
    lemma_sum_commutes(one.neg_spec(), one);
    lemma_sum_commutes(one, one);
    lemma_sum_of_exact(one, one, two);
    assert(sum(one, one.neg_spec()) == zero);
    lemma_rounded_exists(
        one.units() + component.units() < 0,
        if one.units() + component.units() < 0 {
            -(one.units() + component.units())
        } else {
            one.units() + component.units()
        },
        1,
    );
    lemma_sum_is_monotone(one, one.neg_spec(), component);
    lemma_sum_is_monotone(one, component, one);
    lemma_rank_orders(zero, shifted);
    lemma_rank_orders(shifted, two);
    // Half of it lies between zero and one.
    lemma_product_commutes(shifted, half);
    lemma_product_is_monotone(half, zero, shifted);
    lemma_product_is_monotone(half, shifted, two);
    lemma_pow2_pos(1074);
    lemma_rounded_zero(false, u);
    assert(units_of(half.magnitude()) * units_of(zero.magnitude()) == 0) by (nonlinear_arith)
        requires
            units_of(zero.magnitude()) == 0,
    ;
    assert(units_of(one.magnitude()) * u == units_of(half.magnitude()) * units_of(
        two.magnitude(),
    )) by (nonlinear_arith)
        requires
            units_of(one.magnitude()) == u,
            u == 2 * units_of(half.magnitude()),
            units_of(two.magnitude()) == 2 * u,
    ;
    lemma_product_of_exact(half, two, one);
}

/// The colour of a normal whose components lie between minus one and one has
/// its channels between zero and one.
pub proof fn lemma_normal_color_is_a_color(normal: Vec3)
    requires
        Scalar::one_spec().neg_spec().le_spec(normal.x) && normal.x.le_spec(Scalar::one_spec()),
        Scalar::one_spec().neg_spec().le_spec(normal.y) && normal.y.le_spec(Scalar::one_spec()),
        Scalar::one_spec().neg_spec().le_spec(normal.z) && normal.z.le_spec(Scalar::one_spec()),
    ensures
        is_unit_share(normal_color_spec(normal).x),
        is_unit_share(normal_color_spec(normal).y),
        is_unit_share(normal_color_spec(normal).z),
{
    lemma_normal_channel_is_a_share(normal.x);
    lemma_normal_channel_is_a_share(normal.y);
    lemma_normal_channel_is_a_share(normal.z);
}

/// The background depends on the vertical component of the unit direction
/// alone.
pub proof fn lemma_sky_gradient_ignores_the_horizontal(a: Vec3, b: Vec3)
    requires
        a.y == b.y,
    ensures
        sky_gradient_spec(a) == sky_gradient_spec(b),
{
}

} // verus!
