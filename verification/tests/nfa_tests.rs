use orbslam::nfa::{nfa_probability_in_range, nfa_tail_range};

#[test]
fn tail_runs_from_the_points_to_the_pixels() {
    assert_eq!(nfa_tail_range(2, 10), Some((2, 10)));
    assert_eq!(nfa_tail_range(0, 10), Some((0, 10)));
    assert_eq!(nfa_tail_range(0, 0), Some((0, 0)));
}

#[test]
fn whole_image_cluster_has_a_single_term() {
    assert_eq!(nfa_tail_range(64, 64), Some((64, 64)));
    assert_eq!(nfa_tail_range(usize::MAX, usize::MAX), Some((usize::MAX, usize::MAX)));
}

#[test]
fn more_points_than_pixels_empties_the_tail() {
    assert_eq!(nfa_tail_range(65, 64), None);
    assert_eq!(nfa_tail_range(1, 0), None);
}

#[test]
fn probability_is_in_range_up_to_the_pixel_count() {
    assert!(nfa_probability_in_range(0, 10));
    assert!(nfa_probability_in_range(99, 10));
    assert!(nfa_probability_in_range(100, 10));
    assert!(!nfa_probability_in_range(101, 10));
    assert!(!nfa_probability_in_range(0, 0));
    let n = usize::MAX as u128;
    assert!(nfa_probability_in_range(n * n, usize::MAX));
    assert!(!nfa_probability_in_range(n * n + 1, usize::MAX));
}
