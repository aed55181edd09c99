//! A small ray-tracing core: vectors, rays, sphere intersection and shading.
//!
//! Numbers are IEEE 754 doubles, held as their bit patterns in
//! [`scalar::Scalar`]. The arithmetic on them is done in integers and proved
//! to give the exact result, rounded to the nearest double, so that a picture
//! comes out the same on every machine and every contract can speak of the
//! numbers themselves:
//!
//! - [`scalar`], [`round`], [`arith`] and [`convert`] are the numbers: what a
//!   pattern stands for, rounding, the four operations and the square root,
//!   and the conversions from and to integers;
//! - [`vec3`] and [`ray`] are the geometry;
//! - [`hittable`] and [`sphere`] are the surfaces and where a ray meets them;
//! - [`shading`] and [`color`] turn a ray into a colour and a colour into
//!   integers;
//! - [`camera`] maps pixels to rays, and [`gradient`] draws a test card.
//!
//! The modules are listed in the order in which they build on each other.

pub mod scalar;
pub mod round;
pub mod arith;
pub mod convert;
pub mod vec3;
pub mod ray;
pub mod hittable;
pub mod sphere;
pub mod shading;
pub mod color;
pub mod camera;
pub mod gradient;
