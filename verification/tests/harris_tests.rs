use orbslam::grid::Grid;
use orbslam::harris::Harris;

fn grid_of(rows: &[&[i32]]) -> Grid {
    let cols = if rows.is_empty() { 0 } else { rows[0].len() };
    let mut g = Grid::zeros(rows.len(), cols).unwrap();
    for (y, row) in rows.iter().enumerate() {
        for (x, v) in row.iter().enumerate() {
            assert!(g.set(y, x, *v));
        }
    }
    g
}

#[test]
fn a_peak_above_its_neighbours_is_a_corner() {
    let r = grid_of(&[&[0, 1, 0], &[2, 9, 3], &[0, 4, 0]]);
    assert_eq!(Harris::non_maximum_suppression(&r, 5), vec![(1, 1)]);
}

#[test]
fn diagonal_neighbours_do_not_count() {
    let r = grid_of(&[&[50, 1, 50], &[2, 9, 3], &[50, 4, 50]]);
    assert_eq!(Harris::non_maximum_suppression(&r, 5), vec![(1, 1)]);
}

#[test]
fn a_peak_must_exceed_the_threshold_and_its_neighbours_strictly() {
    let r = grid_of(&[&[0, 1, 0], &[2, 9, 3], &[0, 4, 0]]);
    assert_eq!(Harris::non_maximum_suppression(&r, 9), vec![]);
    assert_eq!(Harris::non_maximum_suppression(&r, 8), vec![(1, 1)]);
    let tie = grid_of(&[&[0, 1, 0], &[2, 9, 9], &[0, 4, 0]]);
    assert_eq!(Harris::non_maximum_suppression(&tie, 5), vec![]);
}

#[test]
fn border_pixels_are_never_corners() {
    let r = grid_of(&[&[9, 9, 9], &[9, 0, 9], &[9, 9, 9]]);
    assert_eq!(Harris::non_maximum_suppression(&r, 5), vec![]);
    let thin = grid_of(&[&[1, 9, 1]]);
    assert_eq!(Harris::non_maximum_suppression(&thin, 5), vec![]);
    let empty = Grid::zeros(0, 0).unwrap();
    assert_eq!(Harris::non_maximum_suppression(&empty, 5), vec![]);
}

#[test]
fn corners_come_row_by_row_as_x_then_y() {
    let r = grid_of(&[
        &[0, 0, 0, 0, 0],
        &[0, 7, 0, 8, 0],
        &[0, 0, 0, 0, 0],
        &[0, 0, 9, 0, 0],
        &[0, 0, 0, 0, 0],
    ]);
    assert_eq!(Harris::non_maximum_suppression(&r, 1), vec![(1, 1), (3, 1), (2, 3)]);
}

#[test]
fn window_inside_the_image() {
    let w = Harris::window(5, 6, 4, 20, 20);
    assert_eq!((w.x1, w.y1, w.x2, w.y2), (3, 4, 7, 8));
    let odd = Harris::window(5, 6, 5, 20, 20);
    assert_eq!((odd.x1, odd.y1, odd.x2, odd.y2), (3, 4, 7, 8));
}

#[test]
fn window_is_cut_at_the_borders() {
    let w = Harris::window(0, 1, 6, 10, 4);
    assert_eq!((w.x1, w.y1, w.x2, w.y2), (0, 0, 3, 3));
    let far = Harris::window(9, 3, 6, 10, 4);
    assert_eq!((far.x1, far.y1, far.x2, far.y2), (6, 0, 9, 3));
    let huge = Harris::window(usize::MAX, 0, usize::MAX, 10, 4);
    assert_eq!((huge.x1, huge.y1, huge.x2, huge.y2), (usize::MAX - usize::MAX / 2, 0, 9, 3));
}

#[test]
fn window_of_size_one_is_the_pixel() {
    let w = Harris::window(2, 3, 1, 10, 10);
    assert_eq!((w.x1, w.y1, w.x2, w.y2), (2, 3, 2, 3));
}
