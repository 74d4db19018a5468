use quickhull::Point;
use quickhull::compute_dist;
use quickhull::find_extreme;
use quickhull::get_dist_set;
use quickhull::run;

fn points(coords: &[(i32, i32)]) -> Vec<Point> {
    coords.iter().map(|&(x, y)| Point { x, y }).collect()
}

#[test]
fn square_with_interior_point() {
    let input = points(&[(0, 0), (4, 0), (4, 4), (0, 4), (2, 2)]);
    let mut result: Vec<usize> = Vec::new();
    run(&input, &mut result);
    // seeds: x-min index 0, x-max index 1 (first of the two points with x = 4);
    // the upper chain discovers 2 then 3, the lower chain adds nothing, and
    // the interior point 4 never appears.
    assert_eq!(result, vec![0, 1, 2, 3]);
}

#[test]
fn collinear_points_keep_only_the_extremes() {
    let input = points(&[(0, 0), (1, 0), (2, 0)]);
    let mut result: Vec<usize> = Vec::new();
    run(&input, &mut result);
    // the midpoint sits exactly on the seed segment: side value zero, dropped
    assert_eq!(result, vec![0, 2]);
}

#[test]
fn single_point_resolves_both_extremes_to_itself() {
    let input = points(&[(5, 5)]);
    let mut result: Vec<usize> = Vec::new();
    run(&input, &mut result);
    assert_eq!(result, vec![0, 0]);
}

#[test]
fn coincident_points_behave_like_a_single_point() {
    let input = points(&[(1, 1), (1, 1), (1, 1)]);
    let mut result: Vec<usize> = Vec::new();
    run(&input, &mut result);
    assert_eq!(result, vec![0, 0]);
}

#[test]
fn two_points_are_their_own_hull() {
    let input = points(&[(0, 0), (3, 1)]);
    let mut result: Vec<usize> = Vec::new();
    run(&input, &mut result);
    assert_eq!(result, vec![0, 1]);
}

#[test]
fn diamond_discovery_order() {
    let input = points(&[(0, 0), (2, 2), (4, 0), (2, -2), (2, 0)]);
    let mut result: Vec<usize> = Vec::new();
    run(&input, &mut result);
    // seeds [0, 2], upper chain finds 1, lower chain finds 3
    assert_eq!(result, vec![0, 2, 1, 3]);
}

#[test]
fn two_level_recursion_discovery_order() {
    let input = points(&[(0, 0), (10, 0), (5, 6), (2, 4), (8, 4), (5, 1)]);
    let mut result: Vec<usize> = Vec::new();
    run(&input, &mut result);
    // upper chain: apex 2 first, then 3 left of (0 -> 2), then 4 left of (2 -> 1)
    assert_eq!(result, vec![0, 1, 2, 3, 4]);
}

#[test]
fn extremes_always_included() {
    let input = points(&[(-3, 1), (5, 2), (0, 7), (0, -4)]);
    let mut result: Vec<usize> = Vec::new();
    run(&input, &mut result);
    // index 0 holds the least x, index 1 the greatest: both always lead the result
    assert_eq!(result[0], 0);
    assert_eq!(result[1], 1);
    assert!(result.contains(&0));
    assert!(result.contains(&1));
}

#[test]
fn result_indices_stay_in_range_and_never_repeat() {
    let input = points(&[(3, -2), (-1, 5), (7, 7), (0, 0), (4, 4), (-1, -1), (6, 2)]);
    let mut result: Vec<usize> = Vec::new();
    run(&input, &mut result);
    for (i, &idx) in result.iter().enumerate() {
        assert!(idx < input.len());
        for &later in &result[i + 1..] {
            assert_ne!(idx, later);
        }
    }
}

#[test]
fn repeated_runs_give_identical_output() {
    let coords = [(0, 0), (4, 0), (4, 4), (0, 4), (2, 2), (4, 2)];
    let input_a = points(&coords);
    let input_b = points(&coords);
    let mut first_result: Vec<usize> = Vec::new();
    let mut second_result: Vec<usize> = Vec::new();
    let mut third_result: Vec<usize> = Vec::new();
    run(&input_a, &mut first_result);
    run(&input_a, &mut second_result);
    run(&input_b, &mut third_result);
    assert_eq!(first_result, second_result);
    assert_eq!(first_result, third_result);
}

#[test]
fn prepopulated_accumulator_keeps_its_entries_in_front() {
    let input = points(&[(0, 0), (4, 0), (4, 4), (0, 4), (2, 2)]);
    let mut fresh: Vec<usize> = Vec::new();
    run(&input, &mut fresh);
    let mut accumulated: Vec<usize> = vec![7, 9];
    run(&input, &mut accumulated);
    assert_eq!(accumulated[..2], [7, 9]);
    assert_eq!(&accumulated[2..], &fresh[..]);
}

#[test]
fn find_extreme_picks_least_and_greatest_x() {
    let input = points(&[(3, 9), (-2, 1), (8, 0), (5, 5)]);
    assert_eq!(find_extreme(&input, true), 1);
    assert_eq!(find_extreme(&input, false), 2);
}

#[test]
fn find_extreme_ties_keep_the_first_occurrence() {
    let input = points(&[(0, 0), (4, 1), (4, 3), (0, 2)]);
    assert_eq!(find_extreme(&input, true), 0);
    assert_eq!(find_extreme(&input, false), 1);
}

#[test]
fn compute_dist_is_the_exact_cross_product() {
    let input = points(&[(0, 0), (2, 2), (4, 0)]);
    // (target - first) x (second - first) = 2 * 4 - 2 * 0
    assert_eq!(compute_dist(&input, 1, 0, 2), 8);
    assert_eq!(compute_dist(&input, 1, 2, 0), -8);
    assert_eq!(compute_dist(&input, 2, 0, 2), 0);
}

#[test]
fn compute_dist_handles_extreme_coordinates() {
    let input = points(&[(i32::MIN, i32::MIN), (i32::MAX, i32::MAX), (i32::MIN, i32::MAX)]);
    // with the widest possible spread the cross product still comes out exact
    let span = i32::MAX as i128 - i32::MIN as i128;
    assert_eq!(compute_dist(&input, 2, 0, 1), span * span);
}

#[test]
fn get_dist_set_returns_outside_candidates_and_farthest() {
    let input = points(&[(0, 0), (2, 2), (4, 0), (2, -2), (2, 0)]);
    let candidates: Vec<usize> = vec![0, 1, 2, 3, 4];
    let (outside, farthest) = get_dist_set(&input, &candidates, 0, 2);
    assert_eq!(outside, vec![1]);
    assert_eq!(farthest, Some(1));
    let (below, farthest_below) = get_dist_set(&input, &candidates, 2, 0);
    assert_eq!(below, vec![3]);
    assert_eq!(farthest_below, Some(3));
}

#[test]
fn get_dist_set_reports_no_farthest_when_nothing_is_outside() {
    let input = points(&[(0, 0), (1, 0), (2, 0)]);
    let candidates: Vec<usize> = vec![0, 1, 2];
    let (outside, farthest) = get_dist_set(&input, &candidates, 0, 2);
    assert!(outside.is_empty());
    assert_eq!(farthest, None);
}

#[test]
fn get_dist_set_ties_keep_the_first_farthest() {
    // indices 1 and 2 are equally far above the segment: the first stays
    let input = points(&[(0, 0), (2, 3), (4, 3), (6, 0)]);
    let candidates: Vec<usize> = vec![0, 1, 2, 3];
    let (outside, farthest) = get_dist_set(&input, &candidates, 0, 3);
    assert_eq!(outside, vec![1, 2]);
    assert_eq!(farthest, Some(1));
}
