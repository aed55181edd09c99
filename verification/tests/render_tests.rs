use raycore::camera::{fraction, image_height, Camera};
use raycore::color::{channel, quantize, CHANNEL_SCALE_BITS};
use raycore::gradient::{gradient_pixel, gradient_pixels, HEIGHT, WIDTH};
use raycore::ray::Ray;
use raycore::scalar::Scalar;
use raycore::shading::{sky_blue, white, SKY_GREEN_BITS};
use raycore::sphere::Sphere;
use raycore::vec3::Vec3;

fn n(v: f64) -> Scalar {
    Scalar::from_bits(v.to_bits())
}

fn x(v: Scalar) -> f64 {
    f64::from_bits(v.to_bits())
}

fn v(a: f64, b: f64, c: f64) -> Vec3 {
    Vec3::new(n(a), n(b), n(c))
}

#[test]
fn channel_scale_is_the_double_nearest_to_its_decimal() {
    assert_eq!(CHANNEL_SCALE_BITS, 255.999f64.to_bits());
    assert_eq!(SKY_GREEN_BITS, 0.7f64.to_bits());
}

#[test]
fn channels_are_cut_off_below_the_point() {
    assert_eq!(channel(n(0.0)), 0);
    assert_eq!(channel(n(1.0)), 255);
    assert_eq!(channel(n(0.5)), 127);
    assert_eq!(channel(n(0.7)), 179);
    assert_eq!(channel(n(0.999_999)), 255);
    assert_eq!(channel(n(2.0)), 511);
    assert_eq!(channel(n(-0.25)), 0);
    assert_eq!(channel(n(f64::NAN)), 0);
    for i in 0..=1000 {
        let c = i as f64 / 1000.0;
        assert_eq!(channel(n(c)), (255.999 * c) as u64);
    }
}

#[test]
fn colors_become_three_integers() {
    assert_eq!(quantize(&v(0.5, 0.7, 1.0)), (127, 179, 255));
    assert_eq!(quantize(&v(1.0, 1.0, 1.0)), (255, 255, 255));
    assert_eq!(quantize(&v(0.5, 0.5, 1.0)), (127, 127, 255));
    assert_eq!(quantize(&white()), (255, 255, 255));
    assert_eq!(quantize(&sky_blue()), (127, 179, 255));
}

#[test]
fn named_colors() {
    assert_eq!(white(), v(1.0, 1.0, 1.0));
    assert_eq!(sky_blue(), v(0.5, 0.7, 1.0));
}

#[test]
fn ray_keeps_what_it_was_given() {
    let r = Ray::new(v(1.0, 2.0, 3.0), v(0.0, 0.0, -2.0));
    assert_eq!(*r.origin(), v(1.0, 2.0, 3.0));
    assert_eq!(*r.direction(), v(0.0, 0.0, -2.0));
}

#[test]
fn ray_at_walks_along_the_direction() {
    let r = Ray::new(v(1.0, 2.0, 3.0), v(0.5, 0.0, -2.0));
    assert_eq!(r.at(n(0.0)), v(1.0, 2.0, 3.0));
    assert_eq!(r.at(n(1.0)), v(1.5, 2.0, 1.0));
    assert_eq!(r.at(n(2.0)), v(2.0, 2.0, -1.0));
    assert_eq!(r.at(n(-4.0)), v(-1.0, 2.0, 11.0));
    assert_eq!(x(r.at(n(0.25)).x()), 1.125);
}

#[test]
fn gradient_has_three_bytes_a_pixel() {
    let buffer = gradient_pixels();
    assert_eq!(WIDTH, 256);
    assert_eq!(HEIGHT, 256);
    assert_eq!(buffer.len(), 3 * 256 * 256);
}

#[test]
fn gradient_corners() {
    assert_eq!(gradient_pixel(0, 0), (0, 0, 255));
    assert_eq!(gradient_pixel(255, 0), (254, 0, 0));
    assert_eq!(gradient_pixel(0, 255), (0, 254, 0));
    assert_eq!(gradient_pixel(255, 255), (254, 254, 0));
    assert_eq!(gradient_pixel(128, 128), (127, 127, 63));
    assert_eq!(gradient_pixel(1, 0), (0, 0, 254));
}

#[test]
fn gradient_agrees_with_the_single_precision_formula() {
    let buffer = gradient_pixels();
    let mut expected: Vec<u8> = vec![];
    for y in 0..HEIGHT {
        for x in 0..WIDTH {
            let r = (x * 255 / WIDTH) as u8;
            let g = (y * 255 / HEIGHT) as u8;
            let b = (WIDTH - x) as f32 / WIDTH as f32 * (HEIGHT - y) as f32 / HEIGHT as f32;
            let b = (b * 255.) as u8;
            expected.extend([r, g, b]);
        }
    }
    assert_eq!(buffer, expected);
}

#[test]
fn gradient_rows_follow_each_other() {
    let buffer = gradient_pixels();
    for (px, py) in [(0u32, 0u32), (17, 3), (255, 255), (100, 200)] {
        let at = 3 * (py * WIDTH + px) as usize;
        let (r, g, b) = gradient_pixel(px, py);
        assert_eq!((buffer[at], buffer[at + 1], buffer[at + 2]), (r, g, b));
    }
}

fn view() -> Camera {
    Camera::new(n(16.0 / 9.0 * 2.0), n(2.0), n(1.0))
}

#[test]
fn image_height_follows_the_aspect_ratio() {
    assert_eq!(image_height(400, n(16.0 / 9.0)), 225);
    assert_eq!(image_height(400, n(16.0 / 9.0)), (400 as f64 / (16.0 / 9.0)) as u32);
    assert_eq!(image_height(256, n(1.0)), 256);
    assert_eq!(image_height(100, n(3.0)), 33);
    assert_eq!(image_height(100, n(0.0)), u32::MAX);
    assert_eq!(image_height(100, n(-1.0)), 0);
    assert_eq!(image_height(100, n(f64::NAN)), 0);
}

#[test]
fn pixel_fractions_run_from_zero_to_one() {
    assert_eq!(fraction(0, 400), n(0.0));
    assert_eq!(fraction(399, 400), n(1.0));
    assert_eq!(fraction(100, 400).to_bits(), (100.0f64 / 399.0).to_bits());
    assert_eq!(fraction(1, 3), n(0.5));
    assert!(fraction(0, 1).is_nan());
}

#[test]
fn camera_looks_down_the_negative_z_axis() {
    let camera = view();
    assert_eq!(camera.origin, v(0.0, 0.0, 0.0));
    assert_eq!(camera.horizontal, v(16.0 / 9.0 * 2.0, 0.0, 0.0));
    assert_eq!(camera.vertical, v(0.0, 2.0, 0.0));
    assert_eq!(camera.lower_left_corner, v(-(16.0 / 9.0), -1.0, -1.0));
    let center = camera.ray(n(0.5), n(0.5));
    assert_eq!(*center.origin(), v(0.0, 0.0, 0.0));
    assert_eq!(*center.direction(), v(0.0, 0.0, -1.0));
    let corner = camera.ray(n(0.0), n(0.0));
    assert_eq!(*corner.direction(), camera.lower_left_corner);
    let top_right = camera.ray(n(1.0), n(1.0));
    assert_eq!(*top_right.direction(), v(16.0 / 9.0, 1.0, -1.0));
}

#[test]
fn pixel_rays_are_the_rays_through_the_fractions() {
    let camera = view();
    let r = camera.pixel_ray(100, 50, 400, 225);
    let expected = camera.ray(fraction(100, 400), fraction(50, 225));
    assert_eq!(*r.direction(), *expected.direction());
    let u = 100.0f64 / 399.0;
    let w = 50.0f64 / 224.0;
    let llc = (-(16.0 / 9.0f64), -1.0f64, -1.0f64);
    let width = 16.0 / 9.0 * 2.0;
    assert_eq!(*r.direction(), v((llc.0 + u * width) + w * 0.0, (llc.1 + u * 0.0) + w * 2.0, -1.0));
}

#[test]
fn pixels_of_the_sphere_and_of_the_sky() {
    let camera = view();
    let scene = vec![Sphere::new(v(0.0, 0.0, -1.0), n(0.5))];
    // A 3 x 3 image has the sphere's nearest point in its central pixel.
    assert_eq!(camera.pixel(&scene, 1, 1, 3, 3), Some((127, 127, 255)));
    // The corners see the sky.
    let top = camera.pixel(&scene, 0, 2, 3, 3).unwrap();
    let bottom = camera.pixel(&scene, 0, 0, 3, 3).unwrap();
    assert!(top.2 == 255 && bottom.2 == 255);
    assert!(top.0 < bottom.0 && top.1 < bottom.1);
    let empty: Vec<Sphere> = Vec::new();
    let sky = camera.pixel(&empty, 1, 1, 3, 3).unwrap();
    assert_eq!(sky, (191, 217, 255));
    // A single column leaves no horizontal position to speak of.
    assert_eq!(camera.pixel(&empty, 0, 0, 1, 1), None);
}

#[test]
fn shares_become_bytes() {
    for i in 0..=4096 {
        let share = i as f64 / 4096.0;
        assert!(channel(n(share)) <= 255);
    }
    assert_eq!(channel(n(1.0)), 255);
    assert_eq!(channel(n(-0.0)), 0);
    assert_eq!(channel(n(1.0 - f64::EPSILON / 2.0)), 255);
    assert_eq!(channel(n(5e-324)), 0);
}

#[test]
fn normals_become_colors() {
    let steps = [-1.0, -0.999_999_999, -0.5, -1e-300, -0.0, 0.0, 1e-17, 0.25, 0.7, 1.0];
    for a in steps {
        for c in steps {
            let color = raycore::shading::normal_color(&v(a, c, -a));
            for channel in [color.x(), color.y(), color.z()] {
                assert!(0.0 <= x(channel) && x(channel) <= 1.0);
            }
            assert_eq!(x(color.x()), 0.5 * (a + 1.0));
            assert_eq!(x(color.y()), 0.5 * (c + 1.0));
        }
    }
}
