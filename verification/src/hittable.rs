//! What a ray can hit, and what is recorded of a hit.

use crate::ray::Ray;
use crate::scalar::{lemma_neg_mirrors, lemma_rank_orders, Scalar};
use crate::vec3::{lemma_dot_negates, Vec3};
use core::ops::Neg;
use vstd::prelude::*;
use vstd::std_specs::ops::NegSpec;

verus! {

/// One intersection of a ray with a surface.
#[derive(Clone, Copy, Debug)]
pub struct HitRecord {
    /// The point that was hit.
    pub p: Vec3,
    /// The surface normal there, turned against the ray.
    pub normal: Vec3,
    /// The ray's parameter at the point.
    pub t: Scalar,
    /// Whether the ray came from outside the surface.
    pub front_face: bool,
}

impl HitRecord {
    /// The side and the stored normal, given `facing`, the dot product of the
    /// ray's direction with the outward normal: below zero the ray comes from
    /// outside and the outward normal is kept, otherwise it is negated.
    pub open spec fn oriented_spec(facing: Scalar, outward_normal: Vec3) -> (bool, Vec3) {
        if facing.lt_spec(Scalar::zero_spec()) {
            (true, outward_normal)
        } else {
            (false, outward_normal.negated())
        }
    }

    /// The side and the stored normal for a ray and an outward normal.
    pub open spec fn face_normal_spec(r: Ray, outward_normal: Vec3) -> (bool, Vec3) {
        HitRecord::oriented_spec(r.direction.dot_spec(outward_normal), outward_normal)
    }

    /// The record of a hit at parameter `t` and point `p`.
    pub open spec fn new_spec(r: Ray, t: Scalar, p: Vec3, outward_normal: Vec3) -> HitRecord {
        let face = HitRecord::face_normal_spec(r, outward_normal);
        HitRecord { p, normal: face.1, t, front_face: face.0 }
    }

    /// Decides the side from `facing` and turns the normal accordingly.
    pub fn oriented(facing: Scalar, outward_normal: &Vec3) -> (face: (bool, Vec3))
        ensures
            face == HitRecord::oriented_spec(facing, *outward_normal),
    {
        if facing.lt(Scalar::zero()) {
            (true, *outward_normal)
        } else {
            (false, outward_normal.neg())
        }
    }

    /// Whether `r` meets the surface from outside, and the normal turned
    /// against it. Both come back together; nothing is changed in place. On
    /// the front face the dot product of the ray's direction with the normal
    /// that is returned is below zero.
    pub fn face_normal(r: &Ray, outward_normal: &Vec3) -> (face: (bool, Vec3))
        ensures
            face == HitRecord::face_normal_spec(*r, *outward_normal),
            face.0 == r.direction.dot_spec(*outward_normal).lt_spec(Scalar::zero_spec()),
            face.1 == if face.0 {
                *outward_normal
            } else {
                outward_normal.negated()
            },
            face.0 ==> r.direction.dot_spec(face.1).lt_spec(Scalar::zero_spec()),
    {
        HitRecord::oriented(r.direction().dot(outward_normal), outward_normal)
    }

    /// The record of a hit of `r` at parameter `t` and point `p`, where the
    /// surface has the outward normal `outward_normal`.
    pub fn new(r: &Ray, t: Scalar, p: Vec3, outward_normal: &Vec3) -> (rec: HitRecord)
        ensures
            rec == HitRecord::new_spec(*r, t, p, *outward_normal),
            rec.p == p,
            rec.t == t,
            rec.front_face ==> r.direction.dot_spec(rec.normal).lt_spec(Scalar::zero_spec()),
    {
        let (front_face, normal) = HitRecord::face_normal(r, outward_normal);
        HitRecord { p, normal, t, front_face }
    }
}

/// A surface that a ray can hit.
pub trait Hittable {
    /// The nearest hit of `r` with a parameter within `t_min ..= t_max`, or
    /// nothing.
    spec fn hit_spec(&self, r: Ray, t_min: Scalar, t_max: Scalar) -> Option<HitRecord>;

    /// A hit lies within the interval that was asked for.
    proof fn lemma_hit_in_range(&self, r: Ray, t_min: Scalar, t_max: Scalar)
        ensures
            self.hit_spec(r, t_min, t_max) matches Some(rec) ==> t_min.le_spec(rec.t)
                && rec.t.le_spec(t_max),
    ;

    fn hit(&self, r: &Ray, t_min: Scalar, t_max: Scalar) -> (res: Option<HitRecord>)
        ensures
            res == self.hit_spec(*r, t_min, t_max),
    ;
}

/// The hit that is kept after the surfaces of `scene` were tried in order,
/// each against the interval from `t_min` to the nearest hit so far.
pub open spec fn nearest_hit_spec<H: Hittable>(
    scene: Seq<H>,
    r: Ray,
    t_min: Scalar,
    t_max: Scalar,
) -> Option<HitRecord>
    decreases scene.len(),
{
    if scene.len() == 0 {
        None
    } else {
        let before = nearest_hit_spec(scene.drop_last(), r, t_min, t_max);
        match scene.last().hit_spec(r, t_min, limit_after(before, t_max)) {
            Some(rec) => Some(rec),
            None => before,
        }
    }
}

/// The upper bound left for the next surface: the parameter of the hit kept so
/// far, or `t_max` where there is none.
pub open spec fn limit_after(kept: Option<HitRecord>, t_max: Scalar) -> Scalar {
    match kept {
        Some(rec) => rec.t,
        None => t_max,
    }
}

/// Tries every surface of `scene` in order and keeps the nearest hit.
pub fn nearest_hit<H: Hittable>(scene: &Vec<H>, r: &Ray, t_min: Scalar, t_max: Scalar) -> (res:
    Option<HitRecord>)
    ensures
        res == nearest_hit_spec(scene@, *r, t_min, t_max),
{
    let mut kept: Option<HitRecord> = None;
    let mut closest = t_max;
    let mut i: usize = 0;
    while i < scene.len()
        invariant
            i <= scene.len(),
            kept == nearest_hit_spec(scene@.take(i as int), *r, t_min, t_max),
            closest == limit_after(kept, t_max),
        decreases scene.len() - i,
    {
        proof {
            assert(scene@.take(i + 1).drop_last() == scene@.take(i as int));
        }
        match scene[i].hit(r, t_min, closest) {
            Some(rec) => {
                closest = rec.t;
                kept = Some(rec);
            },
            None => {},
        }
        i += 1;
    }
    proof {
        assert(scene@.take(scene.len() as int) == scene@);
    }
    kept
}

/// The hit that is kept lies within the interval that was asked for.
pub proof fn lemma_nearest_hit_in_range<H: Hittable>(
    scene: Seq<H>,
    r: Ray,
    t_min: Scalar,
    t_max: Scalar,
)
    ensures
        nearest_hit_spec(scene, r, t_min, t_max) matches Some(rec) ==> t_min.le_spec(rec.t)
            && rec.t.le_spec(t_max),
    decreases scene.len(),
{
    if scene.len() > 0 {
        let before = nearest_hit_spec(scene.drop_last(), r, t_min, t_max);
        lemma_nearest_hit_in_range(scene.drop_last(), r, t_min, t_max);
        scene.last().lemma_hit_in_range(r, t_min, limit_after(before, t_max));
    }
}

/// Adding a surface never moves the kept hit farther away: where a hit was
/// kept before, one is kept after, at a parameter that is no larger.
pub proof fn lemma_nearest_hit_only_nears<H: Hittable>(
    scene: Seq<H>,
    last: H,
    r: Ray,
    t_min: Scalar,
    t_max: Scalar,
)
    ensures
        nearest_hit_spec(scene, r, t_min, t_max) matches Some(before) ==> (nearest_hit_spec(
            scene.push(last),
            r,
            t_min,
            t_max,
        ) matches Some(after) && after.t.le_spec(before.t)),
{
    assert(scene.push(last).drop_last() == scene);
    let before = nearest_hit_spec(scene, r, t_min, t_max);
    lemma_nearest_hit_in_range(scene, r, t_min, t_max);
    last.lemma_hit_in_range(r, t_min, limit_after(before, t_max));
}

/// An empty scene is never hit, and a scene of one surface is hit where that
/// surface is.
pub proof fn lemma_nearest_hit_small_scenes<H: Hittable>(
    only: H,
    r: Ray,
    t_min: Scalar,
    t_max: Scalar,
)
    ensures
        nearest_hit_spec(Seq::<H>::empty(), r, t_min, t_max) is None,
        nearest_hit_spec(seq![only], r, t_min, t_max) == only.hit_spec(r, t_min, t_max),
{
    assert(seq![only].drop_last() == Seq::<H>::empty());
    assert(seq![only].last() == only);
}

/// The normal that is kept points against the ray: the dot product of the
/// ray's direction with it is not above zero, unless the direction and the
/// outward normal have a NaN for their dot product.
pub proof fn lemma_normal_opposes_ray(r: Ray, outward_normal: Vec3)
    requires
        !r.direction.dot_spec(outward_normal).is_nan_spec(),
    ensures
        r.direction.dot_spec(HitRecord::face_normal_spec(r, outward_normal).1).le_spec(
            Scalar::zero_spec(),
        ),
{
    let facing = r.direction.dot_spec(outward_normal);
    lemma_dot_negates(r.direction, outward_normal);
    lemma_neg_mirrors(facing);
    lemma_rank_orders(facing, Scalar::zero_spec());
    lemma_rank_orders(facing.neg_spec(), Scalar::zero_spec());
    lemma_rank_orders(
        r.direction.dot_spec(outward_normal.negated()),
        facing.neg_spec(),
    );
    lemma_rank_orders(
        r.direction.dot_spec(outward_normal.negated()),
        Scalar::zero_spec(),
    );
}

} // verus!
