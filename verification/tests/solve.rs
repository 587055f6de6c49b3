use max_overlap::{create_breakpoints, create_stack_count, solve_max_overlap, Cap, InvalidInterval};

#[test]
fn test_breakpoints() {
    let meetings = vec![(1, 2), (2, 3)];
    let breakpoints = create_breakpoints(&meetings);
    assert_eq!(
        breakpoints,
        vec![(1, Cap::Start), (2, Cap::End), (2, Cap::Start), (3, Cap::End)]
    );
}

#[test]
fn test_stack_count() {
    let breakpoints = vec![(1, Cap::Start), (2, Cap::End), (2, Cap::Start), (3, Cap::End)];
    let count = create_stack_count(&breakpoints);
    assert_eq!(count, vec![1, 0, 1, 0]);
}

#[test]
fn test_max_overlap_standard() {
    let meetings = vec![(1, 3), (4, 6), (5, 9), (10, 12)];
    let breakpoints = create_breakpoints(&meetings);
    assert_eq!(
        breakpoints,
        vec![
            (1, Cap::Start),
            (3, Cap::End),
            (4, Cap::Start),
            (5, Cap::Start),
            (6, Cap::End),
            (9, Cap::End),
            (10, Cap::Start),
            (12, Cap::End)
        ]
    );
    let stack_count = create_stack_count(&breakpoints);
    assert_eq!(stack_count, vec![1, 0, 1, 2, 1, 0, 1, 0]);
    let max_overlap = solve_max_overlap(&meetings);
    assert_eq!(max_overlap, Ok(vec![1, 2, 2, 1]));
}

#[test]
fn test_1313() {
    let meetings = vec![(1, 3), (1, 3)];
    let max_overlap = solve_max_overlap(&meetings);
    assert_eq!(max_overlap, Ok(vec![2, 2]));
}

#[test]
fn test_1335() {
    let meetings = vec![(1, 3), (3, 5)];
    let max_overlap = solve_max_overlap(&meetings);
    assert_eq!(max_overlap, Ok(vec![1, 1]));
}

#[test]
fn test_123536() {
    let meetings = vec![(1, 2), (3, 5), (3, 6)];
    let max_overlap = solve_max_overlap(&meetings);
    assert_eq!(max_overlap, Ok(vec![1, 2, 2]));
}

#[test]
fn test_133536() {
    let meetings = vec![(1, 3), (3, 5), (3, 6)];
    let breakpoints = create_breakpoints(&meetings);
    assert_eq!(
        breakpoints,
        vec![
            (1, Cap::Start),
            (3, Cap::End),
            (3, Cap::Start),
            (3, Cap::Start),
            (5, Cap::End),
            (6, Cap::End)
        ]
    );
    let max_overlap = solve_max_overlap(&meetings);
    assert_eq!(max_overlap, Ok(vec![1, 2, 2]));
}

#[test]
fn test_3513() {
    let meetings = vec![(3, 5), (1, 3)];
    let breakpoints = create_breakpoints(&meetings);
    assert_eq!(
        breakpoints,
        vec![(1, Cap::Start), (3, Cap::End), (3, Cap::Start), (5, Cap::End)]
    );
    let max_overlap = solve_max_overlap(&meetings);
    assert_eq!(max_overlap, Ok(vec![1, 1]));
}

#[test]
fn test_1534() {
    let meetings = vec![(1, 5), (3, 4)];
    let max_overlap = solve_max_overlap(&meetings);
    assert_eq!(max_overlap, Ok(vec![2, 2]));
}

#[test]
fn test_1325() {
    let meetings = vec![(1, 3), (2, 5)];
    let max_overlap = solve_max_overlap(&meetings);
    assert_eq!(max_overlap, Ok(vec![2, 2]));
}

#[test]
fn test_19121367() {
    let meetings = vec![(1, 9), (1, 2), (1, 3), (6, 7)];
    let max_overlap = solve_max_overlap(&meetings);
    assert_eq!(max_overlap, Ok(vec![3, 3, 3, 2]));
}

#[test]
fn test_end_time_before_start_time() {
    let meetings = vec![(3, 1), (5, 6)];
    assert_eq!(solve_max_overlap(&meetings), Err(InvalidInterval));
}

#[test]
fn test_end_time_equal_start_time() {
    let meetings = vec![(1, 1)];
    assert_eq!(solve_max_overlap(&meetings), Err(InvalidInterval));
}
