use raycore::hittable::{nearest_hit, HitRecord, Hittable};
use raycore::ray::Ray;
use raycore::scalar::Scalar;
use raycore::shading::{background, normal_color, ray_color, sky_gradient};
use raycore::sphere::{select_root, Sphere};
use raycore::vec3::Vec3;

fn num(v: f64) -> Scalar {
    Scalar::from_bits(v.to_bits())
}

fn val(s: Scalar) -> f64 {
    f64::from_bits(s.to_bits())
}

fn vec(x: f64, y: f64, z: f64) -> Vec3 {
    Vec3::new(num(x), num(y), num(z))
}

fn close(a: &Vec3, x: f64, y: f64, z: f64) -> bool {
    let eps = 1e-12;
    (val(a.x()) - x).abs() < eps && (val(a.y()) - y).abs() < eps && (val(a.z()) - z).abs() < eps
}

fn unit_sphere_scene() -> Vec<Sphere> {
    vec![Sphere::new(vec(0.0, 0.0, -1.0), num(0.5))]
}

#[test]
fn ray_at_the_center_hits_the_front() {
    let sphere = Sphere::new(vec(0.0, 0.0, -1.0), num(0.5));
    let r = Ray::new(vec(0.0, 0.0, 0.0), vec(0.0, 0.0, -1.0));
    let rec = sphere.hit(&r, num(0.0), num(f64::INFINITY)).unwrap();
    assert_eq!(rec.t, num(0.5));
    assert_eq!(rec.p, vec(0.0, 0.0, -0.5));
    assert_eq!(rec.normal, vec(0.0, 0.0, 1.0));
    assert!(rec.front_face);
    let color = ray_color(&r, &unit_sphere_scene()).unwrap();
    assert_eq!(color, vec(0.5, 0.5, 1.0));
}

#[test]
fn hit_lies_one_radius_from_the_center() {
    let center = vec(1.0, 2.0, -7.0);
    let sphere = Sphere::new(center, num(2.0));
    let origin = vec(1.0, 2.0, 3.0);
    let r = Ray::new(origin, &center - &origin);
    // The direction has length 10, so the surface is met at (10 - 2) / 10.
    let rec = sphere.hit(&r, num(0.001), num(f64::INFINITY)).unwrap();
    assert!((val(rec.t) - 0.8).abs() < 1e-12);
    assert!((val((&rec.p - &center).norm()) - 2.0).abs() < 1e-12);
    assert!(rec.front_face);
    assert!(close(&rec.normal, 0.0, 0.0, 1.0));
    // With a direction of unit length the parameter is the distance to the
    // center less the radius.
    let r = Ray::new(origin, vec(0.0, 0.0, -1.0));
    let rec = sphere.hit(&r, num(0.001), num(f64::INFINITY)).unwrap();
    assert_eq!(rec.t, num(10.0 - 2.0));
    assert_eq!((&rec.p - &center).norm(), num(2.0));
    assert!(rec.front_face);
}

#[test]
fn ray_from_inside_hits_the_back() {
    let sphere = Sphere::new(vec(0.0, 0.0, 0.0), num(2.0));
    let r = Ray::new(vec(0.5, 0.0, 0.0), vec(1.0, 0.0, 0.0));
    let rec = sphere.hit(&r, num(0.001), num(f64::INFINITY)).unwrap();
    assert!(!rec.front_face);
    assert_eq!(rec.t, num(1.5));
    assert_eq!(rec.p, vec(2.0, 0.0, 0.0));
    // The outward normal is (1, 0, 0); the stored one looks back at the origin.
    assert_eq!(rec.normal, vec(-1.0, 0.0, 0.0));
    assert!(val(r.direction().dot(&rec.normal)) < 0.0);
}

#[test]
fn ray_that_passes_wide_misses() {
    let sphere = Sphere::new(vec(0.0, 0.0, -5.0), num(1.0));
    let r = Ray::new(vec(0.0, 1.5, 0.0), vec(0.0, 0.0, -1.0));
    assert!(sphere.hit(&r, num(0.0), num(f64::INFINITY)).is_none());
}

#[test]
fn tangent_ray_hits_once() {
    let sphere = Sphere::new(vec(0.0, 0.0, -5.0), num(1.0));
    let r = Ray::new(vec(0.0, 1.0, 0.0), vec(0.0, 0.0, -1.0));
    let rec = sphere.hit(&r, num(0.0), num(f64::INFINITY)).unwrap();
    assert_eq!(rec.t, num(5.0));
    assert_eq!(rec.p, vec(0.0, 1.0, -5.0));
    // Past the one root there is nothing left to hit.
    assert!(sphere.hit(&r, num(5.5), num(f64::INFINITY)).is_none());
    assert!(sphere.hit(&r, num(0.0), num(4.5)).is_none());
}

#[test]
fn nearer_root_outside_the_interval_is_skipped() {
    let sphere = Sphere::new(vec(0.0, 0.0, -5.0), num(1.0));
    let r = Ray::new(vec(0.0, 0.0, 0.0), vec(0.0, 0.0, -1.0));
    let near = sphere.hit(&r, num(0.0), num(100.0)).unwrap();
    assert_eq!(near.t, num(4.0));
    assert!(near.front_face);
    let far = sphere.hit(&r, num(4.5), num(100.0)).unwrap();
    assert_eq!(far.t, num(6.0));
    assert!(!far.front_face);
    assert!(sphere.hit(&r, num(6.5), num(100.0)).is_none());
    assert!(sphere.hit(&r, num(0.0), num(3.5)).is_none());
}

#[test]
fn interval_ends_are_included() {
    let sphere = Sphere::new(vec(0.0, 0.0, -5.0), num(1.0));
    let r = Ray::new(vec(0.0, 0.0, 0.0), vec(0.0, 0.0, -1.0));
    assert_eq!(sphere.hit(&r, num(4.0), num(100.0)).unwrap().t, num(4.0));
    assert_eq!(sphere.hit(&r, num(0.0), num(4.0)).unwrap().t, num(4.0));
    assert_eq!(sphere.hit(&r, num(5.0), num(6.0)).unwrap().t, num(6.0));
}

#[test]
fn origin_on_the_surface_needs_no_special_case() {
    let sphere = Sphere::new(vec(0.0, 0.0, -5.0), num(1.0));
    let r = Ray::new(vec(0.0, 0.0, -4.0), vec(0.0, 0.0, -1.0));
    assert_eq!(sphere.hit(&r, num(0.0), num(100.0)).unwrap().t, num(0.0));
    assert_eq!(sphere.hit(&r, num(0.001), num(100.0)).unwrap().t, num(2.0));
}

#[test]
fn direction_need_not_have_unit_length() {
    let sphere = Sphere::new(vec(0.0, 0.0, -5.0), num(1.0));
    let r = Ray::new(vec(0.0, 0.0, 0.0), vec(0.0, 0.0, -2.0));
    let rec = sphere.hit(&r, num(0.0), num(100.0)).unwrap();
    assert_eq!(rec.t, num(2.0));
    assert_eq!(rec.p, vec(0.0, 0.0, -4.0));
    assert_eq!(rec.normal, vec(0.0, 0.0, 1.0));
}

#[test]
fn select_root_prefers_the_nearer_root() {
    assert_eq!(select_root(num(1.0), num(3.0), num(0.0), num(10.0)), Some(num(1.0)));
    assert_eq!(select_root(num(1.0), num(3.0), num(2.0), num(10.0)), Some(num(3.0)));
    assert_eq!(select_root(num(1.0), num(3.0), num(4.0), num(10.0)), None);
    assert_eq!(select_root(num(1.0), num(3.0), num(0.0), num(0.5)), None);
    assert_eq!(select_root(num(f64::NAN), num(3.0), num(0.0), num(10.0)), Some(num(3.0)));
    assert_eq!(select_root(num(f64::NAN), num(f64::NAN), num(0.0), num(10.0)), None);
}

#[test]
fn face_normal_turns_against_the_ray() {
    let inward = Ray::new(vec(0.0, 0.0, 0.0), vec(0.0, 0.0, -1.0));
    let (front, normal) = HitRecord::face_normal(&inward, &vec(0.0, 0.0, 1.0));
    assert!(front);
    assert_eq!(normal, vec(0.0, 0.0, 1.0));
    let (front, normal) = HitRecord::face_normal(&inward, &vec(0.0, 0.0, -1.0));
    assert!(!front);
    assert_eq!(normal, vec(0.0, 0.0, 1.0));
    let (front, normal) = HitRecord::oriented(num(0.0), &vec(1.0, 2.0, 3.0));
    assert!(!front);
    assert_eq!(normal, vec(-1.0, -2.0, -3.0));
}

#[test]
fn straight_up_is_sky_blue_and_straight_down_is_white() {
    let scene: Vec<Sphere> = Vec::new();
    let up = Ray::new(vec(0.0, 0.0, 0.0), vec(0.0, 1.0, 0.0));
    assert_eq!(ray_color(&up, &scene), Some(vec(0.5, 0.7, 1.0)));
    let down = Ray::new(vec(0.0, 0.0, 0.0), vec(0.0, -1.0, 0.0));
    assert_eq!(ray_color(&down, &scene), Some(vec(1.0, 1.0, 1.0)));
}

#[test]
fn background_ignores_the_horizontal_component() {
    let level_x = background(&vec(3.0, 0.0, 0.0)).unwrap();
    let level_z = background(&vec(0.0, 0.0, -0.25)).unwrap();
    assert_eq!(level_x, level_z);
    assert_eq!(level_x, vec(0.75, 0.85, 1.0));
    assert_eq!(sky_gradient(&vec(0.0, 0.0, 1.0)), vec(0.75, 0.85, 1.0));
}

#[test]
fn background_of_a_direction_without_length_is_refused() {
    assert_eq!(background(&vec(0.0, 0.0, 0.0)), None);
    assert_eq!(background(&vec(f64::NAN, 1.0, 0.0)), None);
    assert_eq!(background(&vec(f64::INFINITY, 1.0, 0.0)), None);
    let scene: Vec<Sphere> = Vec::new();
    let still = Ray::new(vec(0.0, 0.0, 0.0), vec(0.0, 0.0, 0.0));
    assert_eq!(ray_color(&still, &scene), None);
}

#[test]
fn normal_color_maps_the_unit_cube_to_colors() {
    assert_eq!(normal_color(&vec(1.0, -1.0, 0.0)), vec(1.0, 0.0, 0.5));
    assert_eq!(normal_color(&vec(0.0, 0.0, 1.0)), vec(0.5, 0.5, 1.0));
}

#[test]
fn sphere_behind_the_origin_is_not_seen() {
    let scene = vec![Sphere::new(vec(0.0, 0.0, 1.0), num(0.5))];
    let r = Ray::new(vec(0.0, 0.0, 0.0), vec(0.0, 0.0, -1.0));
    assert_eq!(ray_color(&r, &scene), background(r.direction()));
}

#[test]
fn nearest_of_several_spheres_is_kept() {
    let far = Sphere::new(vec(0.0, 0.0, -10.0), num(1.0));
    let near = Sphere::new(vec(0.0, 0.0, -3.0), num(1.0));
    let aside = Sphere::new(vec(50.0, 0.0, -3.0), num(1.0));
    let r = Ray::new(vec(0.0, 0.0, 0.0), vec(0.0, 0.0, -1.0));
    for scene in [vec![far, near, aside], vec![near, far, aside], vec![aside, near, far]] {
        let rec = nearest_hit(&scene, &r, num(0.001), num(f64::INFINITY)).unwrap();
        assert_eq!(rec.t, num(2.0));
        assert_eq!(rec.p, vec(0.0, 0.0, -2.0));
    }
    let empty: Vec<Sphere> = Vec::new();
    assert!(nearest_hit(&empty, &r, num(0.001), num(f64::INFINITY)).is_none());
    assert!(nearest_hit(&vec![aside], &r, num(0.001), num(f64::INFINITY)).is_none());
}

#[test]
fn sphere_keeps_what_it_was_made_of() {
    let sphere = Sphere::new(vec(1.0, 2.0, 3.0), num(0.25));
    assert_eq!(sphere.center(), vec(1.0, 2.0, 3.0));
    assert_eq!(sphere.radius(), num(0.25));
}

#[test]
fn hit_is_at_the_least_root_within_the_interval() {
    let sphere = Sphere::new(vec(0.3, -0.2, -5.0), num(1.25));
    let directions = [vec(0.0, 0.0, -1.0), vec(0.05, -0.03, -1.0), vec(0.1, 0.0, -3.0)];
    for direction in directions {
        let r = Ray::new(vec(0.0, 0.0, 0.0), direction);
        let whole = sphere.hit(&r, num(0.0), num(f64::INFINITY)).unwrap();
        // Past the first root the second is found, and past that none.
        let later = sphere.hit(&r, num(val(whole.t) * 1.000001), num(f64::INFINITY)).unwrap();
        assert!(val(whole.t) < val(later.t));
        assert!(whole.front_face && !later.front_face);
        assert!(sphere.hit(&r, num(val(later.t) * 1.000001), num(f64::INFINITY)).is_none());
        // The normal that is kept looks against the ray on both faces.
        assert!(val(r.direction().dot(&whole.normal)) <= 0.0);
        assert!(val(r.direction().dot(&later.normal)) <= 0.0);
    }
}
