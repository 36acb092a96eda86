use orbslam::grid::Grid;
use orbslam::lsd::Point;
use orbslam::raster::draw_line_segment;

fn painted(grid: &Grid, color: i32) -> Vec<(usize, usize)> {
    let (rows, cols) = grid.dims();
    let mut out = Vec::new();
    for y in 0..rows {
        for x in 0..cols {
            if grid.get(y, x) == Some(color) {
                out.push((x, y));
            }
        }
    }
    out
}

fn drawn(rows: usize, cols: usize, from: (usize, usize), to: (usize, usize)) -> Vec<(usize, usize)> {
    let mut grid = Grid::zeros(rows, cols).unwrap();
    draw_line_segment(&mut grid, Point { x: from.0, y: from.1 }, Point { x: to.0, y: to.1 }, 7);
    painted(&grid, 7)
}

#[test]
fn shallow_line() {
    assert_eq!(drawn(4, 8, (0, 0), (3, 1)), vec![(0, 0), (1, 0), (2, 1), (3, 1)]);
    assert_eq!(
        drawn(4, 8, (0, 0), (5, 2)),
        vec![(0, 0), (1, 0), (2, 1), (3, 1), (4, 2), (5, 2)]
    );
}

#[test]
fn steep_line() {
    assert_eq!(drawn(4, 4, (0, 0), (1, 3)), vec![(0, 0), (0, 1), (1, 2), (1, 3)]);
}

#[test]
fn line_drawn_backwards() {
    assert_eq!(drawn(5, 5, (4, 3), (0, 0)), vec![(0, 0), (1, 1), (2, 1), (3, 2), (4, 3)]);
    assert_eq!(
        drawn(5, 8, (0, 3), (6, 1)),
        vec![(5, 1), (6, 1), (2, 2), (3, 2), (4, 2), (0, 3), (1, 3)]
    );
}

#[test]
fn horizontal_and_vertical_lines() {
    assert_eq!(drawn(2, 6, (0, 0), (4, 0)), vec![(0, 0), (1, 0), (2, 0), (3, 0), (4, 0)]);
    assert_eq!(drawn(6, 3, (1, 4), (1, 0)), vec![(1, 0), (1, 1), (1, 2), (1, 3), (1, 4)]);
}

#[test]
fn a_point_is_a_line_of_one_pixel() {
    assert_eq!(drawn(4, 4, (2, 2), (2, 2)), vec![(2, 2)]);
}

#[test]
fn pixels_outside_the_image_are_left_out() {
    // The line runs on to x = 5, the image has three columns.
    assert_eq!(drawn(3, 3, (0, 0), (5, 2)), vec![(0, 0), (1, 0), (2, 1)]);
    // Both ends outside: nothing is drawn where the line misses the image.
    assert_eq!(drawn(2, 2, (5, 5), (9, 9)), vec![]);
}

#[test]
fn drawing_keeps_other_pixels() {
    let mut grid = Grid::zeros(3, 3).unwrap();
    grid.set(2, 0, 4);
    grid.set(0, 0, 4);
    draw_line_segment(&mut grid, Point { x: 0, y: 0 }, Point { x: 2, y: 0 }, 9);
    assert_eq!(grid.get(2, 0), Some(4));
    assert_eq!(grid.get(0, 0), Some(9));
    assert_eq!(grid.get(0, 1), Some(9));
    assert_eq!(grid.get(0, 2), Some(9));
    assert_eq!(grid.get(1, 1), Some(0));
}

#[test]
fn corner_is_marked_by_a_square_of_five() {
    let mut grid = Grid::zeros(9, 9).unwrap();
    orbslam::raster::draw_corners(&mut grid, &[(4, 3)], 1);
    for y in 0..9 {
        for x in 0..9 {
            let inside = (2..=6).contains(&x) && (1..=5).contains(&y);
            assert_eq!(grid.get(y, x), Some(if inside { 1 } else { 0 }));
        }
    }
}

#[test]
fn square_is_cut_at_the_border() {
    let mut grid = Grid::zeros(4, 4).unwrap();
    orbslam::raster::draw_corners(&mut grid, &[(0, 0), (3, 3)], 8);
    assert_eq!(
        painted(&grid, 8),
        vec![
            (0, 0), (1, 0), (2, 0),
            (0, 1), (1, 1), (2, 1), (3, 1),
            (0, 2), (1, 2), (2, 2), (3, 2),
            (1, 3), (2, 3), (3, 3),
        ]
    );
}

#[test]
fn corners_outside_the_image_are_skipped() {
    let mut grid = Grid::zeros(3, 3).unwrap();
    grid.set(1, 1, 6);
    orbslam::raster::draw_corners(&mut grid, &[(3, 0), (0, 3), (100, 100)], 1);
    assert_eq!(painted(&grid, 1), vec![]);
    assert_eq!(grid.get(1, 1), Some(6));
    orbslam::raster::draw_corners(&mut grid, &[], 1);
    assert_eq!(painted(&grid, 1), vec![]);
}
