use catchment::circle::{chord_check, Circle, Intersection, LensCase};
use catchment::errors::EngineError;
use catchment::plan::IntersectPlan;
use catchment::plan::same_plan;

/// One coordinate unit of the floating model, in integer units.
const SCALE: i64 = 1_000_000;

fn c(x: f64, y: f64, r: f64) -> Circle {
    Circle::new(
        (x * SCALE as f64).round() as i64,
        (y * SCALE as f64).round() as i64,
        (r * SCALE as f64).round() as i64,
    )
}

#[test]
fn classifier_far_apart_is_disjoint() {
    let a = c(0.0, 0.0, 1.0);
    let b = c(3.0, 0.0, 1.0);
    assert!(matches!(a.intersect(&b), Intersection::Disjoint));
    assert!(!a.intersect(&b).intersects());
    assert!(matches!(a.lens_case(&b), LensCase::Zero));
}

#[test]
fn classifier_tangent_is_disjoint() {
    // Center distance exactly the sum of the radii: no shared area.
    let a = c(0.0, 0.0, 1.0);
    let b = c(2.0, 0.0, 1.0);
    assert!(matches!(a.intersect(&b), Intersection::Disjoint));
    assert!(matches!(a.lens_case(&b), LensCase::Zero));
}

#[test]
fn classifier_identical_is_inside() {
    let a = c(0.25, -0.5, 0.8);
    assert!(matches!(a.intersect(&a), Intersection::Inside(x) if x == a));
    match a.lens_case(&a) {
        LensCase::Full(x) => assert_eq!(x, a),
        _ => panic!("identical circles must overlap fully"),
    }
}

#[test]
fn classifier_contained_is_inside() {
    let big = c(0.0, 0.0, 2.0);
    let small = c(0.5, 0.0, 1.0);
    assert!(matches!(big.intersect(&small), Intersection::Inside(x) if x == small));
    assert!(matches!(small.intersect(&big), Intersection::Inside(x) if x == small));
}

#[test]
fn classifier_crossing() {
    let a = c(0.0, 0.0, 1.0);
    let b = c(0.5, 0.0, 1.0);
    assert!(matches!(a.intersect(&b), Intersection::Crossing(_)));
    assert!(a.intersect(&b).intersects());
    // Equal radii at distance below both: the chord sits between the
    // centers, not beyond either, so the near-side flag is off.
    assert!(matches!(a.intersect(&b), Intersection::Crossing(false)));
}

#[test]
fn classifier_near_side_crossing() {
    // A small circle crossing a big one close to its center: the chord
    // lies beyond the small circle's center seen from the big one.
    let big = c(0.0, 0.0, 2.0);
    let small = c(1.5, 0.0, 1.0);
    assert!(matches!(big.intersect(&small), Intersection::Crossing(true)));
}

#[test]
fn is_inside_checks() {
    let big = c(0.0, 0.0, 2.0);
    let small = c(0.5, 0.0, 1.0);
    assert!(big.is_inside(&small));
    assert!(!small.is_inside(&big));
    assert!(!big.is_inside(&big));
}

#[test]
fn intersects_many_filters() {
    let focal = c(0.0, 0.0, 1.0);
    let others = vec![c(0.5, 0.0, 1.0), c(5.0, 0.0, 1.0), c(0.0, 0.5, 0.2)];
    let kept = focal.intersects_many(&others);
    assert_eq!(kept.len(), 2);
    assert_eq!(kept[0], others[0]);
    assert_eq!(kept[1], others[2]);
}

#[test]
fn test_no_circles() {
    let plan = Circle::intersect_plan(&vec![]);
    assert!(matches!(plan, IntersectPlan::Empty));
}

#[test]
fn test_one_circle() {
    let circle = c(0.0, 0.0, 1.0);
    let plan = Circle::intersect_plan(&vec![circle]);
    match plan {
        IntersectPlan::Whole(x) => {
            assert_eq!(x, circle);
            let area = std::f64::consts::PI * (x.r as f64 / SCALE as f64).powi(2);
            let expected = std::f64::consts::PI;
            assert!((area - expected).abs() < 1e-12);
        }
        _ => panic!("one circle keeps its whole area"),
    }
}

#[test]
fn test_two_separate_circles() {
    let plan = Circle::intersect_plan(&vec![c(0.0, 0.0, 1.0), c(3.0, 0.0, 1.0)]);
    assert!(matches!(plan, IntersectPlan::Empty));
}

#[test]
fn two_crossing_circles_give_a_lens() {
    let a = c(0.0, 0.0, 1.0);
    let b = c(0.5, 0.0, 1.0);
    let plan = Circle::intersect_plan(&vec![a, b]);
    assert!(matches!(plan, IntersectPlan::Lens(x, y) if x == a && y == b));
}

#[test]
fn dominated_circle_leaves_a_lens() {
    // The third circle encloses the first, so the plan reduces to the
    // lens of the first two.
    let a = c(0.0, 0.0, 1.0);
    let b = c(0.5, 0.0, 1.0);
    let d = c(0.0, 0.0, 3.0);
    let plan = Circle::intersect_plan(&vec![a, b, d]);
    assert!(matches!(plan, IntersectPlan::Lens(x, y) if x == a && y == b));
}

#[test]
fn super_circle() {
    // Adding a circle that wholly contains a member of the set leaves the
    // intersection plan unchanged.
    let base = vec![
        c(0.0, 0.0, 1.0),
        c(0.5, 0.0, 0.7),
        c(0.0, -0.5, 0.8),
        c(0.0, 0.5, 0.8),
    ];
    let mut extended = base.clone();
    extended.push(c(0.0, 0.5, 0.9));
    let pa = Circle::intersect_plan(&base);
    let pb = Circle::intersect_plan(&extended);
    assert!(same_plan(&pa, &pb));
}

#[test]
fn chord_longer_than_diameter_is_rejected() {
    assert_eq!(chord_check(10 * SCALE, 21 * SCALE), Err(EngineError::GeometryInput));
    assert!(chord_check(10 * SCALE, 20 * SCALE).is_ok());
    assert!(chord_check(10 * SCALE, 0).is_ok());
}

#[test]
fn error_descriptions_exist() {
    assert!(!EngineError::GeometryInput.describe().is_empty());
    assert!(!EngineError::NumericConsistency.describe().is_empty());
    assert!(!EngineError::NonConvergence.describe().is_empty());
    assert!(!EngineError::DegenerateTopology.describe().is_empty());
}
