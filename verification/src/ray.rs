//! Rays: an origin and a direction.

use crate::scalar::Scalar;
use crate::vec3::Vec3;
use core::ops::{Add, Mul};
use vstd::prelude::*;
use vstd::std_specs::ops::{AddSpec, MulSpec};

verus! {

/// A ray `origin + t * direction`. The direction is kept as it was given: it
/// is not brought to unit length.
#[derive(Clone, Copy, Debug)]
pub struct Ray {
    pub origin: Vec3,
    pub direction: Vec3,
}

impl Ray {
    /// The point at parameter `t`: the direction times `t`, added to the
    /// origin.
    pub open spec fn at_spec(self, t: Scalar) -> Vec3 {
        self.origin.sum(self.direction.scaled(t))
    }

    pub fn new(origin: Vec3, direction: Vec3) -> (r: Ray)
        ensures
            r == (Ray { origin, direction }),
    {
        Ray { origin, direction }
    }

    pub fn origin(&self) -> (r: &Vec3)
        ensures
            *r == self.origin,
    {
        &self.origin
    }

    pub fn direction(&self) -> (r: &Vec3)
        ensures
            *r == self.direction,
    {
        &self.direction
    }

    /// The point at parameter `t`, whatever its sign or size.
    pub fn at(&self, t: Scalar) -> (r: Vec3)
        ensures
            r == self.at_spec(t),
    {
        self.origin.add(&t.mul(&self.direction))
    }
}

} // verus!
