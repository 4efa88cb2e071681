use catchment::accum::{signed_subset_sum, subset_members, validate_total};
use catchment::errors::EngineError;

#[test]
fn subset_members_reads_the_bits() {
    assert_eq!(subset_members(0b101, 3), vec![0, 2]);
    assert_eq!(subset_members(0b1, 3), vec![0]);
    assert_eq!(subset_members(0, 4), Vec::<usize>::new());
    assert_eq!(subset_members(0b1111, 4), vec![0, 1, 2, 3]);
    // Bits beyond the index range are ignored.
    assert_eq!(subset_members(0b1100, 2), Vec::<usize>::new());
}

#[test]
fn no_obstacles_share_no_area() {
    // With no obstacle subsets at all, the accumulated intersection of a
    // focal circle with its obstacles is exactly zero.
    assert_eq!(signed_subset_sum(&vec![]), 0);
}

#[test]
fn single_subset_counts_positively() {
    assert_eq!(signed_subset_sum(&vec![42]), 42);
}

#[test]
fn pair_subset_is_subtracted() {
    // Subsets 1 and 2 are single obstacles, subset 3 is their pair: the
    // pair is double counted and comes off once.
    assert_eq!(signed_subset_sum(&vec![10, 20, 7]), 10 + 20 - 7);
}

#[test]
fn three_obstacle_signs() {
    // Masks 1..7 over three obstacles: singles add, pairs subtract, the
    // triple adds again.
    let areas = vec![1, 2, 4, 8, 16, 32, 64];
    assert_eq!(signed_subset_sum(&areas), 1 + 2 - 4 + 8 - 16 - 32 + 64);
}

#[test]
fn totals_outside_the_bound_are_rejected() {
    assert_eq!(validate_total(50, 100), Ok(50));
    assert_eq!(validate_total(0, 100), Ok(0));
    assert_eq!(validate_total(100, 100), Ok(100));
    assert_eq!(validate_total(-1, 100), Err(EngineError::NumericConsistency));
    assert_eq!(validate_total(101, 100), Err(EngineError::NumericConsistency));
}
