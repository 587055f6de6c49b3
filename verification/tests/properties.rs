use max_overlap::{create_breakpoints, is_valid, slice_index, solve_max_overlap, InvalidInterval};

#[test]
fn test_triple_overlap_near_start() {
    let meetings = vec![(1, 10), (1, 2), (1, 3), (8, 9)];
    let max_overlap = solve_max_overlap(&meetings);
    assert_eq!(max_overlap, Ok(vec![3, 3, 3, 2]));
}

#[test]
fn test_determinism_repeated_calls() {
    let meetings = vec![(1, 10), (1, 2), (1, 3), (8, 9)];
    let first = solve_max_overlap(&meetings);
    let second = solve_max_overlap(&meetings);
    assert_eq!(first, second);
}

#[test]
fn test_length_preservation() {
    assert_eq!(solve_max_overlap(&vec![]).unwrap().len(), 0);
    assert_eq!(solve_max_overlap(&vec![(4, 8)]).unwrap().len(), 1);
    assert_eq!(solve_max_overlap(&vec![(1, 3), (2, 5), (4, 9)]).unwrap().len(), 3);
}

#[test]
fn test_lower_bound_every_value_at_least_one() {
    let meetings = vec![(-7, -2), (0, 1), (5, 40), (39, 41)];
    let max_overlap = solve_max_overlap(&meetings).unwrap();
    assert!(max_overlap.iter().all(|&v| v >= 1));
}

#[test]
fn test_permutation_permutes_output() {
    let meetings = vec![(1, 10), (1, 2), (1, 3), (8, 9)];
    let permuted = vec![(8, 9), (1, 10), (1, 2), (1, 3)];
    assert_eq!(solve_max_overlap(&meetings), Ok(vec![3, 3, 3, 2]));
    assert_eq!(solve_max_overlap(&permuted), Ok(vec![2, 3, 3, 3]));
}

#[test]
fn test_boundary_touch_is_no_overlap() {
    let meetings = vec![(5, 7), (7, 9)];
    assert_eq!(solve_max_overlap(&meetings), Ok(vec![1, 1]));
}

#[test]
fn test_empty_batch() {
    let meetings: Vec<(i64, i64)> = vec![];
    assert_eq!(solve_max_overlap(&meetings), Ok(vec![]));
}

#[test]
fn test_invalid_interval_aborts_whole_batch() {
    let meetings = vec![(1, 3), (2, 2), (4, 6)];
    assert_eq!(solve_max_overlap(&meetings), Err(InvalidInterval));
}

#[test]
fn test_is_valid_reports_each_case() {
    assert!(is_valid(&vec![(1, 2), (-3, 0)]));
    assert!(!is_valid(&vec![(1, 2), (3, 3)]));
    assert!(!is_valid(&vec![(2, 1)]));
    assert!(is_valid(&vec![]));
}

#[test]
fn test_slice_index_ranges() {
    let meetings = vec![(1, 3), (3, 5)];
    let breakpoints = create_breakpoints(&meetings);
    assert_eq!(slice_index(&(1, 3), &breakpoints, 2), (0, 2));
    assert_eq!(slice_index(&(3, 5), &breakpoints, 2), (2, 4));
}

#[test]
fn test_peak_matches_pointwise_concurrency() {
    let meetings = vec![(1, 10), (1, 2), (1, 3), (8, 9), (2, 4)];
    let result = solve_max_overlap(&meetings).unwrap();
    for (k, &(s, e)) in meetings.iter().enumerate() {
        let peak = (s..e)
            .map(|p| meetings.iter().filter(|m| m.0 <= p && p < m.1).count())
            .max()
            .unwrap();
        assert_eq!(result[k], peak);
    }
}

#[test]
fn test_negative_coordinates() {
    let meetings = vec![(-10, -5), (-7, -1), (-6, 0)];
    assert_eq!(solve_max_overlap(&meetings), Ok(vec![3, 3, 3]));
}
