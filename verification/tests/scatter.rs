use pathtracer::scalar::{Scalar, Vec3};
use pathtracer::scatter::{
    accepts_sample, lambertian_direction, DEGENERATE_SPREAD_BITS, ONE_BITS,
};

fn scalar(x: f32) -> Scalar {
    Scalar::from_bits(x.to_bits())
}

fn vec3(x: f32, y: f32, z: f32) -> Vec3 {
    Vec3 { x: scalar(x), y: scalar(y), z: scalar(z) }
}

fn spread(v: (f32, f32, f32)) -> Scalar {
    scalar(v.0.abs() + v.1.abs() + v.2.abs())
}

#[test]
fn thresholds_are_the_numbers() {
    assert_eq!(DEGENERATE_SPREAD_BITS, 1e-7f32.to_bits());
    assert_eq!(ONE_BITS, 1.0f32.to_bits());
}

#[test]
fn a_vanishing_direction_falls_back_to_the_normal() {
    let normal = vec3(0., 1., 0.);
    // the random offset all but cancels the normal
    let offset = (1e-9f32, -1.0f32, -2e-9f32);
    let sum = (0. + offset.0, 1. + offset.1, 0. + offset.2);
    let direction = vec3(sum.0, sum.1, sum.2);
    assert_eq!(lambertian_direction(normal, direction, spread(sum)), normal);
    let zero = vec3(0., 0., 0.);
    assert_eq!(lambertian_direction(normal, zero, scalar(0.0)), normal);
}

#[test]
fn an_ordinary_direction_is_kept() {
    let normal = vec3(0., 1., 0.);
    let sum = (0.3f32, 1.2f32, -0.4f32);
    let direction = vec3(sum.0, sum.1, sum.2);
    assert_eq!(lambertian_direction(normal, direction, spread(sum)), direction);
    let small = vec3(1e-7, 0., 0.);
    assert_eq!(lambertian_direction(normal, small, scalar(1e-7)), small);
}

#[test]
fn samples_inside_the_unit_ball_are_accepted() {
    assert!(accepts_sample(scalar(1.0)));
    assert!(accepts_sample(scalar(0.5)));
    assert!(accepts_sample(scalar(1e-30)));
    assert!(accepts_sample(scalar(f32::from_bits(1))));
}

#[test]
fn samples_outside_the_unit_ball_are_rejected() {
    assert!(!accepts_sample(scalar(0.0)));
    assert!(!accepts_sample(scalar(-0.0)));
    assert!(!accepts_sample(scalar(1.0000001)));
    assert!(!accepts_sample(scalar(3.0)));
    assert!(!accepts_sample(scalar(f32::NAN)));
    assert!(!accepts_sample(scalar(f32::INFINITY)));
}
