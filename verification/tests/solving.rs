use catchment::circle::{Circle, Intersection};
use catchment::grid::common_area_estimate;
use catchment::accum::{signed_subset_sum, subset_members};
use catchment::placement::{Placement, PlacementStep};
use catchment::solver::{isqrt, RadialArea};
use std::f64::consts::PI;

const SCALE: i64 = 1_000_000;
const AREA_SCALE: f64 = 1_000_000_000_000.0;

fn radial(x: f64, y: f64, area: f64) -> RadialArea {
    RadialArea {
        x: (x * SCALE as f64).round() as i64,
        y: (y * SCALE as f64).round() as i64,
        area: (area * AREA_SCALE).round() as i64,
    }
}

fn circle_area(c: Circle) -> f64 {
    let r = c.r as f64 / SCALE as f64;
    PI * r * r
}

fn segment_area(r: f64, l: f64) -> f64 {
    let theta = 2.0 * (l / (2.0 * r)).asin();
    0.5 * r * r * (theta - theta.sin())
}

/// The lens area of two circles, in the floating model.
fn pair_lens(a: Circle, b: Circle) -> f64 {
    match a.intersect(&b) {
        Intersection::Disjoint => 0.0,
        Intersection::Inside(x) => circle_area(x),
        Intersection::Crossing(nearside) => {
            let (rs, rl) = {
                let ra = a.r as f64 / SCALE as f64;
                let rb = b.r as f64 / SCALE as f64;
                if ra < rb {
                    (ra, rb)
                } else {
                    (rb, ra)
                }
            };
            let dx = (a.x - b.x) as f64 / SCALE as f64;
            let dy = (a.y - b.y) as f64 / SCALE as f64;
            let d = (dx * dx + dy * dy).sqrt();
            let v = (rl * rl + d * d - rs * rs) / (2.0 * d);
            let h = (rl * rl - v * v).max(0.0).sqrt();
            let l = 2.0 * h;
            if nearside {
                segment_area(rl, l) + PI * rs * rs - segment_area(rs, l)
            } else {
                segment_area(rl, l) + segment_area(rs, l)
            }
        }
    }
}

/// The exclusive area of a candidate against pairwise-lens obstacles, in
/// integer area units.  Valid while no two obstacles overlap each other
/// inside the candidate.
fn measure_pairwise(cand: Circle, obstacles: &[Circle]) -> i64 {
    let mut area = circle_area(cand);
    for ob in obstacles {
        area -= pair_lens(cand, *ob);
    }
    (area * AREA_SCALE).round() as i64
}

/// The exclusive area measured by inclusion-exclusion over grid estimates
/// of every obstacle subset, in integer area units.
fn measure_grid(cand: Circle, obstacles: &[Circle], samples: usize) -> i64 {
    let kept = cand.intersects_many(&obstacles.to_vec());
    let m = kept.len();
    let mut areas: Vec<i64> = Vec::new();
    for mask in 1..(1usize << m) {
        let mut subset: Vec<Circle> = subset_members(mask, m)
            .into_iter()
            .map(|i| kept[i])
            .collect();
        subset.push(cand);
        let est = common_area_estimate(&subset, samples);
        areas.push((est.num as f64 / est.den as f64).round() as i64);
    }
    let inter = signed_subset_sum(&areas);
    ((circle_area(cand) * AREA_SCALE) as i128 - inter) as i64
}

fn run<F: FnMut(Circle, &[Circle]) -> i64>(
    targets: Vec<RadialArea>,
    delta: i64,
    epsilon: i64,
    max_iter: usize,
    mut measure: F,
) -> Result<Vec<Circle>, usize> {
    let mut p = Placement::start(targets, delta, epsilon, max_iter);
    loop {
        match p.next_action() {
            PlacementStep::Done => return Ok(p.solved),
            PlacementStep::Failed(i) => return Err(i),
            PlacementStep::Measure(c) => {
                let m = measure(c, &p.solved);
                p.feed(m);
            }
        }
    }
}

#[test]
fn isqrt_values() {
    assert_eq!(isqrt(0), 0);
    assert_eq!(isqrt(15), 3);
    assert_eq!(isqrt(16), 4);
    assert_eq!(isqrt(1_000_000_000_000_000_000), 1_000_000_000);
}

#[test]
fn solver_with_no_obstacles_returns_the_exact_radius() {
    // With nothing overlapping, the seed radius sqrt(area / pi) already
    // measures the target area, within tolerance.
    let eps = (0.001 * AREA_SCALE) as i64;
    let out = run(vec![radial(0.0, 0.0, PI)], SCALE, eps, 200, measure_pairwise);
    let solved = out.expect("must converge");
    assert_eq!(solved.len(), 1);
    let r = solved[0].r as f64 / SCALE as f64;
    assert!((PI * r * r - PI).abs() < 0.001);
    assert!((r - 1.0).abs() < 0.001);
}

#[test]
fn placement_is_order_sensitive() {
    // Two nearby targets with interacting radii: whichever is solved
    // first ignores the other, so the order shows in the result.
    let p = radial(0.0, 0.0, PI);
    let q = radial(0.8, 0.0, PI);
    let eps = (0.001 * AREA_SCALE) as i64;
    let first = run(vec![p, q], SCALE / 10, eps, 200, measure_pairwise).expect("converges");
    let second = run(vec![q, p], SCALE / 10, eps, 200, measure_pairwise).expect("converges");
    // The circle at the origin is solved first in one run and second in
    // the other; its radius differs between the runs.
    let r_first = first[0].r;
    let r_second = second[1].r;
    assert_ne!(r_first, r_second);
}

#[test]
fn exhausted_budget_fails_the_run() {
    let out = run(vec![radial(0.0, 0.0, PI)], SCALE, 0, 0, measure_pairwise);
    assert_eq!(out, Err(0));
}

#[test]
fn test_scale_all() {
    // Four interacting targets solved in order against the grid-based
    // measurement; every target keeps its origin.
    let targets = vec![
        radial(0.0, 0.0, PI),
        radial(0.2, 0.7, PI),
        radial(1.2, -0.3, PI),
        radial(-0.4, 0.5, PI),
    ];
    let eps = (0.05 * AREA_SCALE) as i64;
    let out = run(targets.clone(), SCALE, eps, 200, |c, obs| measure_grid(c, obs, 100));
    let solved = out.expect("must converge");
    assert_eq!(solved.len(), 4);
    for (c, t) in solved.iter().zip(targets.iter()) {
        assert_eq!(c.x, t.x);
        assert_eq!(c.y, t.y);
        assert!(c.r > 0);
    }
    println!("scale_all: {:?}", solved);
}
