use orbslam::grid::Grid;
use orbslam::region::{cluster_by_gradient_direction, cluster_by_gradient_direction_single};

fn grid_of(rows: &[&[i32]]) -> Grid {
    let cols = if rows.is_empty() { 0 } else { rows[0].len() };
    let mut g = Grid::zeros(rows.len(), cols).unwrap();
    for (y, row) in rows.iter().enumerate() {
        for (x, v) in row.iter().enumerate() {
            assert!(g.set(y, x, *v));
        }
    }
    g
}

fn rows_of(g: &Grid) -> Vec<Vec<i32>> {
    let (rows, cols) = g.dims();
    (0..rows).map(|y| (0..cols).map(|x| g.get(y, x).unwrap()).collect()).collect()
}

#[test]
fn growth_takes_the_connected_aligned_pixels() {
    let angle = grid_of(&[&[10, 12, 90], &[90, 11, 90], &[10, 90, 13]]);
    let mut labels = Grid::zeros(3, 3).unwrap();
    cluster_by_gradient_direction_single(&angle, &mut labels, 0, 0, 5, 4);
    assert_eq!(rows_of(&labels), vec![vec![5, 5, 0], vec![0, 5, 0], vec![5, 0, 5]]);
}

#[test]
fn growth_compares_with_the_seed_not_with_the_neighbour() {
    // 10 -> 13 -> 16: each step is within 4, but 16 is 6 away from the seed.
    let angle = grid_of(&[&[10, 13, 16]]);
    let mut labels = Grid::zeros(1, 3).unwrap();
    cluster_by_gradient_direction_single(&angle, &mut labels, 0, 0, 1, 4);
    assert_eq!(rows_of(&labels), vec![vec![1, 1, 0]]);
}

#[test]
fn growth_does_not_cross_labelled_pixels() {
    let angle = grid_of(&[&[10, 10, 10]]);
    let mut labels = grid_of(&[&[0, 7, 0]]);
    cluster_by_gradient_direction_single(&angle, &mut labels, 0, 0, 2, 4);
    assert_eq!(rows_of(&labels), vec![vec![2, 7, 0]]);
}

#[test]
fn growth_from_a_labelled_seed_changes_nothing() {
    let angle = grid_of(&[&[10, 10], &[10, 10]]);
    let mut labels = grid_of(&[&[3, 0], &[0, 0]]);
    cluster_by_gradient_direction_single(&angle, &mut labels, 0, 0, 4, 4);
    assert_eq!(rows_of(&labels), vec![vec![3, 0], vec![0, 0]]);
}

#[test]
fn growth_with_a_negative_tolerance_labels_the_seed_alone() {
    let angle = grid_of(&[&[10, 10], &[10, 10]]);
    let mut labels = Grid::zeros(2, 2).unwrap();
    cluster_by_gradient_direction_single(&angle, &mut labels, 1, 1, 9, -1);
    assert_eq!(rows_of(&labels), vec![vec![0, 0], vec![0, 9]]);
}

#[test]
fn tolerance_is_inclusive_at_its_bound() {
    let angle = grid_of(&[&[10, 14, 15, 6, 5]]);
    let mut labels = Grid::zeros(1, 5).unwrap();
    cluster_by_gradient_direction_single(&angle, &mut labels, 0, 0, 1, 4);
    assert_eq!(rows_of(&labels), vec![vec![1, 1, 0, 0, 0]]);
}

#[test]
fn direction_difference_is_not_circular() {
    // 179 and 1 are both near horizontal, yet they differ by 178.
    let angle = grid_of(&[&[179, 1]]);
    let magnitude = grid_of(&[&[9, 9]]);
    let (labels, count) = cluster_by_gradient_direction(&magnitude, &angle, 5, 4);
    assert_eq!(rows_of(&labels), vec![vec![1, 2]]);
    assert_eq!(count, 2);
}

#[test]
fn pass_numbers_clusters_in_raster_order() {
    let magnitude = grid_of(&[&[9, 0, 9], &[0, 0, 0], &[9, 0, 9]]);
    let angle = grid_of(&[&[10, 50, 20], &[50, 50, 50], &[30, 50, 40]]);
    let (labels, count) = cluster_by_gradient_direction(&magnitude, &angle, 5, 0);
    assert_eq!(rows_of(&labels), vec![vec![1, 0, 2], vec![0, 0, 0], vec![3, 0, 4]]);
    assert_eq!(count, 4);
}

#[test]
fn weak_pixels_join_a_region_if_their_direction_fits() {
    let magnitude = grid_of(&[&[9, 0, 0]]);
    let angle = grid_of(&[&[10, 11, 12]]);
    let (labels, count) = cluster_by_gradient_direction(&magnitude, &angle, 5, 4);
    assert_eq!(rows_of(&labels), vec![vec![1, 1, 1]]);
    assert_eq!(count, 1);
}

#[test]
fn magnitude_equal_to_the_threshold_does_not_seed() {
    let magnitude = grid_of(&[&[5, 6]]);
    let angle = grid_of(&[&[10, 90]]);
    let (labels, count) = cluster_by_gradient_direction(&magnitude, &angle, 5, 4);
    assert_eq!(rows_of(&labels), vec![vec![0, 1]]);
    assert_eq!(count, 1);
}

#[test]
fn pass_on_an_empty_image_gives_an_empty_label_grid() {
    let magnitude = Grid::zeros(0, 0).unwrap();
    let angle = Grid::zeros(0, 0).unwrap();
    let (labels, count) = cluster_by_gradient_direction(&magnitude, &angle, 5, 4);
    assert_eq!(labels.dims(), (0, 0));
    assert_eq!(count, 0);
}

#[test]
fn touching_pixels_of_equal_direction_share_a_cluster() {
    let magnitude = grid_of(&[&[9, 9, 9], &[9, 9, 9]]);
    let angle = grid_of(&[&[10, 40, 40], &[70, 10, 100]]);
    for tol in [0, 1, 29, 30, 200] {
        let (labels, _) = cluster_by_gradient_direction(&magnitude, &angle, 5, tol);
        // (0,0) and (1,1) touch by a corner; (0,1) and (0,2) by an edge.
        assert_eq!(labels.get(0, 0), labels.get(1, 1));
        assert_eq!(labels.get(0, 1), labels.get(0, 2));
        assert!(labels.get(0, 0).unwrap() >= 1);
        assert!(labels.get(0, 1).unwrap() >= 1);
    }
}

#[test]
fn checkerboard_with_zero_tolerance_keeps_directions_apart() {
    let n = 6;
    let mut magnitude = Grid::zeros(n, n).unwrap();
    let mut angle = Grid::zeros(n, n).unwrap();
    for y in 0..n {
        for x in 0..n {
            magnitude.set(y, x, 100);
            angle.set(y, x, if (x + y) % 2 == 0 { 0 } else { 90 });
        }
    }
    let (labels, count) = cluster_by_gradient_direction(&magnitude, &angle, 50, 0);
    // Squares of one colour touch by their corners, so each colour is one cluster.
    assert_eq!(count, 2);
    for y in 0..n {
        for x in 0..n {
            let expected = if (x + y) % 2 == 0 { 1 } else { 2 };
            assert_eq!(labels.get(y, x), Some(expected));
        }
    }
    for a in 0..n * n {
        for b in 0..n * n {
            if labels.get(a / n, a % n) == labels.get(b / n, b % n) {
                assert_eq!(angle.get(a / n, a % n), angle.get(b / n, b % n));
            }
        }
    }
}

#[test]
fn a_higher_threshold_can_split_a_cluster() {
    let angle = grid_of(&[&[10, 13, 13, 7, 7]]);
    let magnitude = grid_of(&[&[1, 5, 5, 5, 5]]);
    let (low, low_count) = cluster_by_gradient_direction(&magnitude, &angle, 0, 4);
    assert_eq!(rows_of(&low), vec![vec![1, 1, 1, 1, 1]]);
    assert_eq!(low_count, 1);
    let (high, high_count) = cluster_by_gradient_direction(&magnitude, &angle, 2, 4);
    assert_eq!(rows_of(&high), vec![vec![1, 1, 1, 2, 2]]);
    assert_eq!(high_count, 2);
}
