use catchment::circle::Circle;
use catchment::grid::{common_area_estimate, overlap, AreaRatio};

const SCALE: i64 = 1_000_000;

fn c(x: f64, y: f64, r: f64) -> Circle {
    Circle::new(
        (x * SCALE as f64).round() as i64,
        (y * SCALE as f64).round() as i64,
        (r * SCALE as f64).round() as i64,
    )
}

fn as_f64(r: AreaRatio) -> f64 {
    r.num as f64 / r.den as f64 / (SCALE as f64 * SCALE as f64)
}

/// The exact lens area of two crossing circles, for comparison.
fn lens_area(r1: f64, r2: f64, d: f64) -> f64 {
    let a1 = (r1 * r1 + d * d - r2 * r2) / (2.0 * r1 * d);
    let a2 = (r2 * r2 + d * d - r1 * r1) / (2.0 * r2 * d);
    let t1 = 2.0 * a1.acos();
    let t2 = 2.0 * a2.acos();
    0.5 * r1 * r1 * (t1 - t1.sin()) + 0.5 * r2 * r2 * (t2 - t2.sin())
}

#[test]
fn test_two_intersecting_circles() {
    // Two unit circles half a radius apart: the reference lens area is
    // about 2.1521, and a 500 by 500 grid lands within 0.05 of it.
    let circles = vec![c(0.0, 0.0, 1.0), c(0.5, 0.0, 1.0)];
    let area = as_f64(common_area_estimate(&circles, 500));
    assert!((area - 2.1521).abs() < 0.05);
    let exact = lens_area(1.0, 1.0, 0.5);
    assert!((area - exact).abs() < 0.05);
}

#[test]
fn estimate_of_empty_list_is_zero() {
    let r = common_area_estimate(&vec![], 500);
    assert_eq!(r.num, 0);
}

#[test]
fn estimate_of_disjoint_circles_is_zero() {
    let circles = vec![c(0.0, 0.0, 1.0), c(5.0, 0.0, 1.0)];
    let r = common_area_estimate(&circles, 500);
    assert_eq!(r.num, 0);
}

#[test]
fn estimate_of_nested_circles_is_the_small_circle() {
    let circles = vec![c(0.0, 0.0, 2.0), c(0.0, 0.0, 1.0)];
    let area = as_f64(common_area_estimate(&circles, 500));
    assert!((area - std::f64::consts::PI).abs() < 0.05);
}

#[test]
fn overlap_with_no_others_is_zero() {
    let r = overlap(&c(0.0, 0.0, 1.0), &vec![], 200);
    assert_eq!(r.num, 0);
    assert_eq!(r.den, 1);
}

#[test]
fn overlap_of_zero_radius_is_zero() {
    let r = overlap(&c(0.0, 0.0, 0.0), &vec![c(0.0, 0.0, 1.0)], 200);
    assert_eq!(r.num, 0);
}

#[test]
fn overlap_with_identical_circle_is_the_full_area() {
    let circle = c(0.0, 0.0, 1.0);
    let area = as_f64(overlap(&circle, &vec![circle], 500));
    assert!((area - std::f64::consts::PI).abs() < 0.05);
}

#[test]
fn overlap_tracks_the_lens_area() {
    let focal = c(0.0, 0.0, 1.0);
    let area = as_f64(overlap(&focal, &vec![c(0.5, 0.0, 1.0)], 500));
    let exact = lens_area(1.0, 1.0, 0.5);
    assert!((area - exact).abs() < 0.05);
}
