//! Vector arithmetic tests over the fixed-point representation.

use raytracing::fixed::Fixed;
use raytracing::vec3::{scale, Vec3};

fn ratio(n: i128, d: i128) -> Fixed {
    Fixed::from_ratio(n, d)
}

fn v3(x: Fixed, y: Fixed, z: Fixed) -> Vec3 {
    Vec3::new(x, y, z)
}

fn vec_a() -> Vec3 {
    v3(ratio(1, 10), ratio(2, 10), ratio(3, 10))
}

fn vec_b() -> Vec3 {
    v3(ratio(0, 10), ratio(4, 10), ratio(3, 10))
}

fn vec_c() -> Vec3 {
    v3(ratio(0, 10), ratio(1, 10), ratio(2, 10))
}

fn scalar_p() -> Fixed {
    ratio(445, 10)
}

fn scalar_q() -> Fixed {
    ratio(1, 2)
}

#[test]
fn arithmetic_add_works() {
    let actual = vec_a().add(vec_b());
    let expected = v3(ratio(1, 10), ratio(6, 10), ratio(6, 10));
    assert_eq!(actual, expected);
}

#[test]
fn arithmetic_mul_works() {
    let actual = vec_b().mul(vec_a());
    let expected = v3(ratio(0, 10), ratio(8, 100), ratio(9, 100));
    assert_eq!(actual, expected);
}

#[test]
fn arithmetic_sub_works() {
    let actual = vec_b().div(vec_a());
    let expected = v3(ratio(0, 10), ratio(2, 1), ratio(1, 1));
    assert_eq!(actual, expected);
}

#[test]
fn broadcast_mul_prefix_works() {
    let actual = scale(scalar_p(), vec_c());
    let expected = v3(ratio(0, 10), ratio(445, 100), ratio(89, 10));
    assert_eq!(actual, expected);
}

#[test]
fn broadcast_mul_suffix_works() {
    let actual = vec_c().scale(scalar_p());
    let expected = v3(ratio(0, 10), ratio(445, 100), ratio(89, 10));
    assert_eq!(actual, expected);
}

#[test]
fn broadcast_div_suffix_works() {
    let actual = vec_c().div_scalar(scalar_q());
    let expected = v3(ratio(0, 10), ratio(2, 10), ratio(4, 10));
    assert_eq!(actual, expected);
}

#[test]
fn unitvector_nonzero_len_1() {
    let actual = vec_a().unit().len();
    let one = Fixed::from_int(1);
    assert!((actual.raw() - one.raw()).abs() <= 2);
}

#[test]
fn unitvector_withzero_len_1() {
    let actual = vec_b().unit().len();
    let one = Fixed::from_int(1);
    assert!((actual.raw() - one.raw()).abs() <= 2);
}

#[test]
fn unitvector_zerovect_zerovect() {
    let z = v3(ratio(0, 1), ratio(0, 1), ratio(0, 1));
    let actual = z.unit();
    assert_eq!(actual, z);
}

#[test]
fn add_then_sub_round_trips_exactly() {
    let a = vec_a();
    let b = vec_b();
    let back = a.add(b).sub(b);
    assert_eq!(back, a);
}

#[test]
fn cross_is_orthogonal_to_operands() {
    let a = v3(Fixed::from_int(1), Fixed::from_int(2), Fixed::from_int(3));
    let b = v3(Fixed::from_int(4), Fixed::from_int(5), Fixed::from_int(6));
    let c = a.cross(b);
    let expected = v3(Fixed::from_int(-3), Fixed::from_int(6), Fixed::from_int(-3));
    assert_eq!(c, expected);
    assert_eq!(c.dot(a).raw(), 0);
    assert_eq!(c.dot(b).raw(), 0);
}

#[test]
fn dot_and_lengths_match_definitions() {
    let a = vec_a();
    assert_eq!(a.dot(a).raw(), 140_000);
    assert_eq!(a.squared_len().raw(), 140_000);
    assert_eq!(a.len().raw(), 374_165);
}

#[test]
fn accessors_expose_components_under_both_names() {
    let a = vec_a();
    assert_eq!(a.x(), ratio(1, 10));
    assert_eq!(a.y(), ratio(2, 10));
    assert_eq!(a.z(), ratio(3, 10));
    assert_eq!(a.r(), a.x());
    assert_eq!(a.g(), a.y());
    assert_eq!(a.b(), a.z());
}

#[test]
fn channel_conversion_truncates_and_saturates() {
    let c = v3(Fixed::from_int(1), Fixed::from_int(0), ratio(1, 2));
    let (r, g, b) = c.to_rgb();
    assert_eq!(r, 255);
    assert_eq!(g, 0);
    assert_eq!(b, 127);
    let wild = v3(Fixed::from_int(2), Fixed::from_int(-1), ratio(999, 1000));
    let (r2, g2, b2) = wild.to_rgb();
    assert_eq!(r2, 255);
    assert_eq!(g2, 0);
    assert_eq!(b2, 255);
}

#[test]
fn fixed_scalar_arithmetic_is_exact() {
    let x = ratio(3, 2);
    let y = ratio(1, 4);
    assert_eq!(x.add(y), ratio(7, 4));
    assert_eq!(x.sub(y), ratio(5, 4));
    assert_eq!(x.mul(y), ratio(3, 8));
    assert_eq!(x.div(y), Fixed::from_int(6));
    assert_eq!(x.neg(), ratio(-3, 2));
    assert_eq!(Fixed::from_int(2).sqrt().raw(), 1_414_213);
}
