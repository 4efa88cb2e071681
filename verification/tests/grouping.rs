use catchment::circle::Circle;

const SCALE: i64 = 1_000_000;

fn c(x: f64, y: f64, r: f64) -> Circle {
    Circle::new(
        (x * SCALE as f64).round() as i64,
        (y * SCALE as f64).round() as i64,
        (r * SCALE as f64).round() as i64,
    )
}

fn two_clusters() -> Vec<Circle> {
    vec![
        c(0.0, 0.0, 1.0),
        c(0.5, 0.0, 0.7),
        c(0.0, -0.5, 0.8),
        c(0.0, 0.5, 0.8),
        c(0.0, 0.5, 0.9),
        c(20.0, 0.0, 1.0),
        c(20.5, 0.0, 0.7),
        c(20.0, -0.5, 0.8),
        c(20.0, 0.5, 0.8),
        c(20.0, 0.5, 0.9),
    ]
}

fn sorted_members(groups: &[Vec<usize>]) -> Vec<Vec<usize>> {
    let mut out: Vec<Vec<usize>> = groups
        .iter()
        .map(|g| {
            let mut g = g.clone();
            g.sort();
            g
        })
        .collect();
    out.sort();
    out
}

#[test]
fn test_groups() {
    // The last circle spans both clusters, so everything is one group.
    let mut circles = two_clusters();
    circles.push(c(20.0, 0.5, 50.0));
    let groups = Circle::group(&circles);
    println!("groups: {:?}", groups);
    assert_eq!(groups.len(), 1);
    assert_eq!(sorted_members(&groups), vec![(0..11).collect::<Vec<usize>>()]);
}

#[test]
fn two_separate_clusters_make_two_groups() {
    let circles = two_clusters();
    let groups = Circle::group(&circles);
    assert_eq!(groups.len(), 2);
    let sorted = sorted_members(&groups);
    assert_eq!(sorted[0], vec![0, 1, 2, 3, 4]);
    assert_eq!(sorted[1], vec![5, 6, 7, 8, 9]);
}

#[test]
fn lonely_circles_join_no_group() {
    let circles = vec![c(0.0, 0.0, 1.0), c(10.0, 0.0, 1.0), c(20.0, 0.0, 1.0)];
    let groups = Circle::group(&circles);
    assert!(groups.is_empty());
}

#[test]
fn isolated_circle_stays_ungrouped() {
    // Two overlapping circles and one far away: one group of the pair,
    // and the isolated index appears nowhere.
    let circles = vec![c(0.0, 0.0, 1.0), c(0.5, 0.0, 1.0), c(50.0, 0.0, 1.0)];
    let groups = Circle::group(&circles);
    assert_eq!(groups.len(), 1);
    assert_eq!(sorted_members(&groups), vec![vec![0, 1]]);
    assert!(groups.iter().all(|g| !g.contains(&2)));
}

#[test]
fn chain_of_overlaps_is_one_group() {
    // Neighbors overlap pairwise; the ends only connect through the chain.
    let circles = vec![
        c(0.0, 0.0, 1.0),
        c(1.5, 0.0, 1.0),
        c(3.0, 0.0, 1.0),
        c(4.5, 0.0, 1.0),
    ];
    let groups = Circle::group(&circles);
    assert_eq!(groups.len(), 1);
    assert_eq!(sorted_members(&groups), vec![vec![0, 1, 2, 3]]);
}
