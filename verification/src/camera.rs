//! The camera: from the position of a pixel to the ray through it.
//!
//! The camera looks along the negative `z` axis at a viewport that lies
//! `focal_length` in front of it, `x` to the right and `y` upwards. A position
//! on the viewport is given by `u` and `v`, each from zero at the lower left
//! corner to one at the upper right.

use crate::color::{channel_spec, quantize};
use crate::convert::{from_i64, nearest_double, to_u64, truncated};
use crate::hittable::Hittable;
use crate::ray::Ray;
use crate::scalar::Scalar;
use crate::shading::{ray_color, ray_color_spec};
use crate::vec3::Vec3;
use core::ops::{Add, Div, Mul, Sub};
use vstd::prelude::*;
use vstd::std_specs::ops::DivSpec;

verus! {

/// A camera and the viewport it looks at.
#[derive(Clone, Copy, Debug)]
pub struct Camera {
    /// Where every ray starts.
    pub origin: Vec3,
    /// The viewport from its left edge to its right edge.
    pub horizontal: Vec3,
    /// The viewport from its lower edge to its upper edge.
    pub vertical: Vec3,
    /// The lower left corner of the viewport.
    pub lower_left_corner: Vec3,
}

/// The number of rows of an image of `image_width` columns: the width divided
/// by the aspect ratio, without what follows the point, and `u32::MAX` where
/// that is larger.
pub open spec fn image_height_spec(image_width: u32, aspect_ratio: Scalar) -> int {
    let rows = truncated(nearest_double(image_width as int).div_spec(aspect_ratio));
    if rows > u32::MAX {
        u32::MAX as int
    } else {
        rows
    }
}

/// The number of rows of an image of `image_width` columns.
pub fn image_height(image_width: u32, aspect_ratio: Scalar) -> (rows: u32)
    ensures
        rows == image_height_spec(image_width, aspect_ratio),
{
    let rows = to_u64(from_i64(image_width as i64) / aspect_ratio);
    if rows > u32::MAX as u64 {
        u32::MAX
    } else {
        rows as u32
    }
}

/// How far across a line of `count` pixels the pixel `index` lies:
/// `index / (count - 1)`.
pub open spec fn fraction_spec(index: u32, count: u32) -> Scalar {
    nearest_double(index as int).div_spec(nearest_double(count - 1))
}

/// How far across a line of `count` pixels the pixel `index` lies. A line of
/// one pixel has no such position: the result is then a NaN or infinite.
pub fn fraction(index: u32, count: u32) -> (share: Scalar)
    requires
        count >= 1,
    ensures
        share == fraction_spec(index, count),
{
    from_i64(index as i64) / from_i64((count - 1) as i64)
}

impl Camera {
    /// The camera at the origin of the world, in front of a viewport of the
    /// given size.
    pub open spec fn new_spec(
        viewport_width: Scalar,
        viewport_height: Scalar,
        focal_length: Scalar,
    ) -> Camera {
        let zero = Scalar::zero_spec();
        let origin = Vec3 { x: zero, y: zero, z: zero };
        let horizontal = Vec3 { x: viewport_width, y: zero, z: zero };
        let vertical = Vec3 { x: zero, y: viewport_height, z: zero };
        let depth = Vec3 { x: zero, y: zero, z: focal_length };
        Camera {
            origin,
            horizontal,
            vertical,
            lower_left_corner: origin.difference(horizontal.divided(nearest_double(2))).difference(
                vertical.divided(nearest_double(2)),
            ).difference(depth),
        }
    }

    /// The ray from the origin through the position `u`, `v` of the viewport.
    pub open spec fn ray_spec(self, u: Scalar, v: Scalar) -> Ray {
        Ray {
            origin: self.origin,
            direction: self.lower_left_corner.sum(self.horizontal.scaled(u)).sum(
                self.vertical.scaled(v),
            ).difference(self.origin),
        }
    }

    /// The ray through the pixel in column `i`, counted from the left, and
    /// row `j`, counted from the bottom.
    pub open spec fn pixel_ray_spec(self, i: u32, j: u32, width: u32, height: u32) -> Ray {
        self.ray_spec(fraction_spec(i, width), fraction_spec(j, height))
    }

    /// The camera at the origin of the world.
    pub fn new(viewport_width: Scalar, viewport_height: Scalar, focal_length: Scalar) -> (camera:
        Camera)
        ensures
            camera == Camera::new_spec(viewport_width, viewport_height, focal_length),
    {
        let zero = Scalar::zero();
        let origin = Vec3::new(zero, zero, zero);
        let horizontal = Vec3::new(viewport_width, zero, zero);
        let vertical = Vec3::new(zero, viewport_height, zero);
        let depth = Vec3::new(zero, zero, focal_length);
        let two: i64 = 2;
        let lower_left_corner = origin.sub(&horizontal.div(two)).sub(&vertical.div(two)).sub(
            &depth,
        );
        Camera { origin, horizontal, vertical, lower_left_corner }
    }

    /// The ray through the position `u`, `v` of the viewport.
    pub fn ray(&self, u: Scalar, v: Scalar) -> (r: Ray)
        ensures
            r == self.ray_spec(u, v),
    {
        Ray::new(
            self.origin,
            self.lower_left_corner.add(&u.mul(&self.horizontal)).add(&v.mul(&self.vertical)).sub(
                &self.origin,
            ),
        )
    }

    /// The ray through the pixel in column `i` and row `j` of an image of
    /// `width` columns and `height` rows.
    pub fn pixel_ray(&self, i: u32, j: u32, width: u32, height: u32) -> (r: Ray)
        requires
            width >= 1,
            height >= 1,
        ensures
            r == self.pixel_ray_spec(i, j, width, height),
    {
        self.ray(fraction(i, width), fraction(j, height))
    }

    /// The three integers of the pixel in column `i` and row `j` of an image
    /// of `scene`, or nothing where the ray through the pixel hits no surface
    /// and has a direction without length.
    pub fn pixel<H: Hittable>(
        &self,
        scene: &Vec<H>,
        i: u32,
        j: u32,
        width: u32,
        height: u32,
    ) -> (rgb: Option<(u64, u64, u64)>)
        requires
            width >= 1,
            height >= 1,
        ensures
            match ray_color_spec(self.pixel_ray_spec(i, j, width, height), scene@) {
                Some(color) => rgb matches Some(c) && c.0 == channel_spec(color.x) && c.1
                    == channel_spec(color.y) && c.2 == channel_spec(color.z),
                None => rgb is None,
            },
    {
        match ray_color(&self.pixel_ray(i, j, width, height), scene) {
            Some(color) => Some(quantize(&color)),
            None => None,
        }
    }
}

} // verus!
