//! The sphere, and where a ray meets it.
//!
//! For a ray `O + t D` and a sphere of center `C` and radius `r`, with
//! `oc = O - C`, the parameters of the two intersections are the roots of
//! `a t^2 + 2 half_b t + c`, where `a = D.D`, `half_b = oc.D` and
//! `c = oc.oc - r^2`.

use crate::arith::{
    difference, lemma_quotient_is_monotone, lemma_root_is_not_negative, lemma_rounded_zero,
    lemma_sum_is_monotone, lemma_sum_with_zero, sum,
};
use crate::hittable::{HitRecord, Hittable};
use crate::ray::Ray;
use crate::scalar::{
    lemma_neg_mirrors, lemma_rank_orders, lemma_units_order, steps_per_unit, units_of, Scalar,
};
use crate::vec3::Vec3;
use core::ops::{Div, Neg, Sub};
use vstd::prelude::*;
use vstd::std_specs::ops::{AddSpec, DivSpec, MulSpec, NegSpec, SubSpec};

verus! {

/// A sphere. Its radius is above zero and below infinity.
#[derive(Clone, Copy, Debug)]
pub struct Sphere {
    center: Vec3,
    radius: Scalar,
}

/// The root that is accepted: `near` where it lies within `t_min ..= t_max`,
/// else `far` where that does, else none. A NaN lies in no interval.
pub open spec fn select_root_spec(
    near: Scalar,
    far: Scalar,
    t_min: Scalar,
    t_max: Scalar,
) -> Option<Scalar> {
    if t_min.le_spec(near) && near.le_spec(t_max) {
        Some(near)
    } else if t_min.le_spec(far) && far.le_spec(t_max) {
        Some(far)
    } else {
        None
    }
}

/// Picks the nearer root where it is within the interval, both ends
/// included, and the farther one where only that is.
pub fn select_root(near: Scalar, far: Scalar, t_min: Scalar, t_max: Scalar) -> (root: Option<
    Scalar,
>)
    ensures
        root == select_root_spec(near, far, t_min, t_max),
        root matches Some(t) ==> t_min.le_spec(t) && t.le_spec(t_max) && !t.is_nan_spec(),
{
    if t_min.le(near) && near.le(t_max) {
        Some(near)
    } else if t_min.le(far) && far.le(t_max) {
        Some(far)
    } else {
        None
    }
}

impl Sphere {
    #[verifier::type_invariant]
    spec fn well_formed(self) -> bool {
        self.radius.is_positive_finite_spec()
    }

    /// The center.
    pub closed spec fn center_spec(&self) -> Vec3 {
        self.center
    }

    /// The radius.
    pub closed spec fn radius_spec(&self) -> Scalar {
        self.radius
    }

    /// From the center to the ray's origin: `oc`.
    pub open spec fn offset(self, r: Ray) -> Vec3 {
        r.origin.difference(self.center_spec())
    }

    /// `oc.D`.
    pub open spec fn half_b(self, r: Ray) -> Scalar {
        self.offset(r).dot_spec(r.direction)
    }

    /// `oc.oc - r^2`.
    pub open spec fn c(self, r: Ray) -> Scalar {
        self.offset(r).dot_spec(self.offset(r)).sub_spec(
            self.radius_spec().mul_spec(self.radius_spec()),
        )
    }

    /// `half_b^2 - a c`, with `a = D.D`.
    pub open spec fn discriminant(self, r: Ray) -> Scalar {
        self.half_b(r).mul_spec(self.half_b(r)).sub_spec(
            r.direction.dot_spec(r.direction).mul_spec(self.c(r)),
        )
    }

    /// `(-half_b - sqrt(discriminant)) / a`.
    pub open spec fn near_root(self, r: Ray) -> Scalar {
        self.half_b(r).neg_spec().sub_spec(self.discriminant(r).sqrt_spec()).div_spec(
            r.direction.dot_spec(r.direction),
        )
    }

    /// `(-half_b + sqrt(discriminant)) / a`.
    pub open spec fn far_root(self, r: Ray) -> Scalar {
        self.half_b(r).neg_spec().add_spec(self.discriminant(r).sqrt_spec()).div_spec(
            r.direction.dot_spec(r.direction),
        )
    }

    /// The parameter of the hit: none where the discriminant is below zero,
    /// else the accepted root.
    pub open spec fn root_spec(self, r: Ray, t_min: Scalar, t_max: Scalar) -> Option<Scalar> {
        if self.discriminant(r).lt_spec(Scalar::zero_spec()) {
            None
        } else {
            select_root_spec(self.near_root(r), self.far_root(r), t_min, t_max)
        }
    }

    /// The outward normal at `p`: from the center to `p`, divided by the
    /// radius.
    pub open spec fn outward_normal(self, p: Vec3) -> Vec3 {
        p.difference(self.center_spec()).divided(self.radius_spec())
    }

    /// The record of the hit at parameter `t`.
    pub open spec fn record_at(self, r: Ray, t: Scalar) -> HitRecord {
        HitRecord::new_spec(r, t, r.at_spec(t), self.outward_normal(r.at_spec(t)))
    }

    /// A sphere, for a radius above zero and below infinity.
    pub fn new(center: Vec3, radius: Scalar) -> (s: Sphere)
        requires
            radius.is_positive_finite_spec(),
        ensures
            s.center_spec() == center,
            s.radius_spec() == radius,
    {
        Sphere { center, radius }
    }

    #[verifier::when_used_as_spec(center_spec)]
    pub fn center(&self) -> (c: Vec3)
        ensures
            c == self.center_spec(),
    {
        self.center
    }

    #[verifier::when_used_as_spec(radius_spec)]
    pub fn radius(&self) -> (radius: Scalar)
        ensures
            radius == self.radius_spec(),
            radius.is_positive_finite_spec(),
    {
        proof {
            use_type_invariant(self);
        }
        self.radius
    }
}

impl Hittable for Sphere {
    open spec fn hit_spec(&self, r: Ray, t_min: Scalar, t_max: Scalar) -> Option<HitRecord> {
        match self.root_spec(r, t_min, t_max) {
            Some(t) => Some(self.record_at(r, t)),
            None => None,
        }
    }

    proof fn lemma_hit_in_range(&self, r: Ray, t_min: Scalar, t_max: Scalar) {
    }

    /// The hit at the smallest root within `t_min ..= t_max`. There is none
    /// where the discriminant is below zero, and none where neither root is
    /// within the interval; the parameter of a hit is no NaN, its point is
    /// the ray's point at that parameter, and on the front face its normal
    /// points against the ray.
    fn hit(&self, r: &Ray, t_min: Scalar, t_max: Scalar) -> (res: Option<HitRecord>)
        ensures
            self.discriminant(*r).lt_spec(Scalar::zero_spec()) ==> res is None,
            res matches Some(rec) ==> t_min.le_spec(rec.t) && rec.t.le_spec(t_max)
                && !rec.t.is_nan_spec(),
            res matches Some(rec) ==> rec.p == r.at_spec(rec.t) && (rec.front_face
                ==> r.direction.dot_spec(rec.normal).lt_spec(Scalar::zero_spec())),
    {
        let oc = r.origin().sub(&self.center);
        let a = r.direction().dot(r.direction());
        let half_b = oc.dot(r.direction());
        let c = oc.dot(&oc) - self.radius * self.radius;
        let discriminant = half_b * half_b - a * c;
        if discriminant.lt(Scalar::zero()) {
            return None;
        }
        let sqrtd = discriminant.sqrt();
        let near = (half_b.neg() - sqrtd) / a;
        let far = (half_b.neg() + sqrtd) / a;
        match select_root(near, far, t_min, t_max) {
            Some(t) => {
                let p = r.at(t);
                let outward_normal = p.sub(&self.center).div(self.radius);
                Some(HitRecord::new(r, t, p, &outward_normal))
            },
            None => None,
        }
    }
}

/// Where the ray only touches the sphere, that is where the discriminant is
/// zero, the two roots are one: they are numerically equal, or both are a
/// NaN.
pub proof fn lemma_tangent_roots_coincide(sphere: Sphere, r: Ray)
    requires
        sphere.discriminant(r).is_zero_spec(),
    ensures
        sphere.near_root(r).equal(sphere.far_root(r)) || (sphere.near_root(r).is_nan_spec()
            && sphere.far_root(r).is_nan_spec()),
{
    let half_b = sphere.half_b(r);
    let flipped = half_b.neg_spec();
    let sqrtd = sphere.discriminant(r).sqrt_spec();
    let a = r.direction.dot_spec(r.direction);
    let near = difference(flipped, sqrtd);
    let far = sum(flipped, sqrtd);
    assert(sqrtd.is_zero_spec());
    lemma_neg_mirrors(half_b);
    lemma_neg_mirrors(sqrtd);
    if half_b.is_nan_spec() {
    } else if half_b.is_zero_spec() {
        lemma_units_order(0, 0);
        assert(near.is_zero_spec() && far.is_zero_spec());
        if !a.is_nan_spec() && !a.is_zero_spec() && !a.is_infinite_spec() {
            lemma_units_order(0, a.magnitude());
            assert(units_of(near.magnitude()) * steps_per_unit() == 0) by (nonlinear_arith)
                requires
                    units_of(near.magnitude()) == 0,
            ;
            assert(units_of(far.magnitude()) * steps_per_unit() == 0) by (nonlinear_arith)
                requires
                    units_of(far.magnitude()) == 0,
            ;
            lemma_rounded_zero(near.sign() != a.sign(), units_of(a.magnitude()));
            lemma_rounded_zero(far.sign() != a.sign(), units_of(a.magnitude()));
        }
    } else {
        lemma_sum_with_zero(flipped, sqrtd);
        assert(near == far);
    }
}

/// The two roots are in order: where the squared length of the ray's
/// direction is above zero and below infinity, the near root is not above the
/// far root, unless one of them is a NaN.
pub proof fn lemma_roots_are_in_order(sphere: Sphere, r: Ray)
    requires
        r.direction.dot_spec(r.direction).is_positive_finite_spec(),
    ensures
        sphere.near_root(r).le_spec(sphere.far_root(r)) || sphere.near_root(r).is_nan_spec()
            || sphere.far_root(r).is_nan_spec(),
{
    let flipped = sphere.half_b(r).neg_spec();
    let sqrtd = sphere.discriminant(r).sqrt_spec();
    let a = r.direction.dot_spec(r.direction);
    let low = difference(flipped, sqrtd);
    let high = sum(flipped, sqrtd);
    lemma_root_is_not_negative(sphere.discriminant(r));
    if !sqrtd.is_nan_spec() && !low.is_nan_spec() && !high.is_nan_spec() {
        lemma_neg_mirrors(sqrtd);
        lemma_rank_orders(Scalar::zero_spec(), sqrtd);
        lemma_rank_orders(sqrtd.neg_spec(), sqrtd);
        lemma_sum_is_monotone(flipped, sqrtd.neg_spec(), sqrtd);
        lemma_quotient_is_monotone(low, high, a);
    }
}

/// The root that is accepted is the least of the roots within the interval,
/// where the roots are in order.
pub proof fn lemma_accepted_root_is_least(near: Scalar, far: Scalar, t_min: Scalar, t_max: Scalar)
    requires
        near.le_spec(far) || near.is_nan_spec() || far.is_nan_spec(),
    ensures
        select_root_spec(near, far, t_min, t_max) matches Some(t) ==> {
            &&& t_min.le_spec(near) && near.le_spec(t_max) ==> t.le_spec(near)
            &&& t_min.le_spec(far) && far.le_spec(t_max) ==> t.le_spec(far)
        },
{
}

/// A hit is at the least of the roots within the interval, where the squared
/// length of the ray's direction is above zero and below infinity.
pub proof fn lemma_hit_is_at_the_least_root(sphere: Sphere, r: Ray, t_min: Scalar, t_max: Scalar)
    requires
        r.direction.dot_spec(r.direction).is_positive_finite_spec(),
    ensures
        sphere.hit_spec(r, t_min, t_max) matches Some(rec) ==> {
            &&& t_min.le_spec(sphere.near_root(r)) && sphere.near_root(r).le_spec(t_max)
                ==> rec.t.le_spec(sphere.near_root(r))
            &&& t_min.le_spec(sphere.far_root(r)) && sphere.far_root(r).le_spec(t_max)
                ==> rec.t.le_spec(sphere.far_root(r))
        },
{
    lemma_roots_are_in_order(sphere, r);
    lemma_accepted_root_is_least(sphere.near_root(r), sphere.far_root(r), t_min, t_max);
}

} // verus!
