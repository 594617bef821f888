//! Intersector, shader, and end-to-end frame tests.

use raytracing::fixed::Fixed;
use raytracing::ray::Ray;
use raytracing::render::{color, hit_sphere, render};
use raytracing::vec3::Vec3;

fn v3i(x: i128, y: i128, z: i128) -> Vec3 {
    Vec3::new(Fixed::from_int(x), Fixed::from_int(y), Fixed::from_int(z))
}

fn sphere_center() -> Vec3 {
    v3i(0, 0, -1)
}

fn sphere_radius() -> Fixed {
    Fixed::from_ratio(1, 2)
}

#[test]
fn ray_stores_origin_and_direction_verbatim() {
    let o = v3i(1, 2, 3);
    let d = v3i(4, 5, 6);
    let r = Ray::new(o, d);
    assert_eq!(r.origin(), o);
    assert_eq!(r.direction(), d);
}

#[test]
fn point_at_traces_the_parametric_line() {
    let r = Ray::new(v3i(1, 0, 0), v3i(0, 2, 0));
    assert_eq!(r.point_at(Fixed::from_ratio(1, 2)), v3i(1, 1, 0));
    assert_eq!(r.point_at(Fixed::from_int(-1)), v3i(1, -2, 0));
}

#[test]
fn intersector_hits_sphere_straight_ahead() {
    let ray = Ray::new(v3i(0, 0, 0), v3i(0, 0, -1));
    let t = hit_sphere(sphere_center(), sphere_radius(), ray);
    assert_eq!(t, Fixed::from_ratio(1, 2));
    assert!(t.raw() > 0);
}

#[test]
fn intersector_misses_with_sentinel() {
    let ray = Ray::new(v3i(0, 0, 0), v3i(1, 1, 1));
    let t = hit_sphere(sphere_center(), sphere_radius(), ray);
    assert_eq!(t, Fixed::from_int(-1));
}

#[test]
fn shader_straight_up_is_pure_sky_blue() {
    let ray = Ray::new(v3i(0, 0, 0), v3i(0, 1, 0));
    let c = color(ray);
    let expected = Vec3::new(
        Fixed::from_ratio(1, 2),
        Fixed::from_ratio(7, 10),
        Fixed::from_int(1),
    );
    assert_eq!(c, expected);
}

#[test]
fn shader_horizontal_is_midpoint_blend() {
    let ray = Ray::new(v3i(0, 0, 0), v3i(1, 0, 0));
    let c = color(ray);
    let expected = Vec3::new(
        Fixed::from_ratio(3, 4),
        Fixed::from_ratio(85, 100),
        Fixed::from_int(1),
    );
    assert_eq!(c, expected);
}

#[test]
fn shader_zero_direction_degenerates_to_flat_blend() {
    let ray = Ray::new(v3i(0, 0, 0), v3i(0, 0, 0));
    let c = color(ray);
    let expected = Vec3::new(
        Fixed::from_ratio(3, 4),
        Fixed::from_ratio(85, 100),
        Fixed::from_int(1),
    );
    assert_eq!(c, expected);
}

#[test]
fn shader_hit_shades_by_surface_normal() {
    let ray = Ray::new(v3i(0, 0, 0), v3i(0, 0, -1));
    let c = color(ray);
    assert_eq!(c, Vec3::new(
        Fixed::from_ratio(1, 2),
        Fixed::from_ratio(1, 2),
        Fixed::from_int(1),
    ));
}

#[test]
fn render_has_requested_dimensions() {
    let fb = render(8, 4);
    assert_eq!(fb.width(), 8);
    assert_eq!(fb.height(), 4);
}

#[test]
fn render_top_left_pixel_is_pale_sky() {
    let fb = render(200, 100);
    let p = fb.get(0, 0);
    assert_eq!((p.r, p.g, p.b), (166, 202, 255));
}

#[test]
fn render_bottom_center_pixel_is_sky() {
    let fb = render(200, 100);
    let p = fb.get(100, 99);
    assert_eq!((p.r, p.g, p.b), (237, 244, 255));
}

#[test]
fn render_center_pixel_is_normal_shaded() {
    let fb = render(200, 100);
    let p = fb.get(100, 50);
    assert_eq!((p.r, p.g, p.b), (127, 125, 255));
    let above = fb.get(100, 25);
    assert_eq!((above.r, above.g, above.b), (127, 200, 233));
}

#[test]
fn intersector_inside_sphere_returns_negative_near_root() {
    let ray = Ray::new(v3i(0, 0, -1), v3i(0, 0, -1));
    let t = hit_sphere(sphere_center(), sphere_radius(), ray);
    assert_eq!(t, Fixed::from_ratio(-1, 2));
}

#[test]
fn render_matches_shader_on_every_pixel() {
    let nx: usize = 4;
    let ny: usize = 2;
    let fb = render(nx, ny);
    let origin = v3i(0, 0, 0);
    let ll = v3i(-2, -1, -1);
    let horiz = v3i(4, 0, 0);
    let vert = v3i(0, 2, 0);
    for y in 0..ny {
        for x in 0..nx {
            let u = Fixed::from_int(x as i128).div(Fixed::from_int(nx as i128));
            let v = Fixed::from_int((ny - 1 - y) as i128).div(Fixed::from_int(ny as i128));
            let dir = ll.add(horiz.scale(u)).add(vert.scale(v));
            let c = color(Ray::new(origin, dir));
            let (r, g, b) = c.to_rgb();
            let p = fb.get(x, y);
            assert_eq!((p.r, p.g, p.b), (r, g, b));
        }
    }
}
