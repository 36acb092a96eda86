use orbslam::descriptors::{
    fast_corner_score, float_corners_fast9, has_bright_span, has_dark_span, is_corner_fast9,
    search_span, Corner, Fast,
};
use orbslam::grid::Grid;

/// The circle positions as (dx, dy) from the centre.
const CIRCLE: [(i32, i32); 16] = [
    (0, -3),
    (1, -3),
    (2, -2),
    (3, -1),
    (0, 3),
    (3, 1),
    (2, 2),
    (1, 3),
    (3, 0),
    (-1, 3),
    (-2, 2),
    (-3, 1),
    (-3, 0),
    (-3, -1),
    (-2, -2),
    (-1, -3),
];

fn circle_with(positions: &[usize], on: i32, off: i32) -> [i32; 16] {
    let mut c = [off; 16];
    for p in positions {
        c[*p] = on;
    }
    c
}

/// A 7 x 7 image with `centre` in the middle and `on` at the given circle
/// positions, `off` elsewhere.
fn image_with(positions: &[usize], centre: i32, on: i32, off: i32) -> Grid {
    let mut g = Grid::zeros(7, 7).unwrap();
    for y in 0..7 {
        for x in 0..7 {
            g.set(y, x, off);
        }
    }
    g.set(3, 3, centre);
    for p in positions {
        let (dx, dy) = CIRCLE[*p];
        g.set((3 + dy) as usize, (3 + dx) as usize, on);
    }
    g
}

#[test]
fn span_of_nine_is_found() {
    let c = circle_with(&[2, 3, 4, 5, 6, 7, 8, 9, 10], 100, 0);
    assert!(search_span(&c, 9, 50, true));
    assert!(has_bright_span(&c, 9, 50));
    assert!(!has_bright_span(&c, 10, 50));
    assert!(!has_dark_span(&c, 9, 50));
}

#[test]
fn span_of_eight_is_not_nine() {
    let c = circle_with(&[2, 3, 4, 5, 6, 7, 8, 9], 100, 0);
    assert!(!has_bright_span(&c, 9, 50));
    assert!(has_bright_span(&c, 8, 50));
}

#[test]
fn span_may_wrap_around() {
    let c = circle_with(&[12, 13, 14, 15, 0, 1, 2, 3, 4], 100, 0);
    assert!(has_bright_span(&c, 9, 50));
    let d = circle_with(&[13, 14, 15, 0, 1, 2, 3, 4], 100, 0);
    assert!(!has_bright_span(&d, 9, 50));
}

#[test]
fn span_is_strict_at_the_threshold() {
    let c = [50; 16];
    assert!(!has_bright_span(&c, 1, 50));
    assert!(!has_dark_span(&c, 1, 50));
    assert!(has_bright_span(&c, 16, 49));
    assert!(has_dark_span(&c, 16, 51));
}

#[test]
fn span_longer_than_the_circle_is_never_found() {
    let c = [100; 16];
    assert!(has_bright_span(&c, 16, 50));
    assert!(!has_bright_span(&c, 17, 50));
    assert!(!search_span(&c, 255, 50, true));
}

#[test]
fn dark_span_is_found() {
    let c = circle_with(&[5, 6, 7, 8, 9, 10, 11, 12, 13], -20, 100);
    assert!(has_dark_span(&c, 9, 0));
    assert!(search_span(&c, 9, 0, false));
    assert!(!has_dark_span(&c, 9, -20));
}

#[test]
fn bright_ring_makes_a_corner() {
    let all: Vec<usize> = (0..16).collect();
    let image = image_with(&all, 10, 100, 10);
    assert!(is_corner_fast9(&image, 50, 3, 3));
    assert!(is_corner_fast9(&image, 89, 3, 3));
    assert!(!is_corner_fast9(&image, 90, 3, 3));
}

#[test]
fn dark_ring_makes_a_corner() {
    let all: Vec<usize> = (0..16).collect();
    let image = image_with(&all, 100, 10, 100);
    assert!(is_corner_fast9(&image, 89, 3, 3));
    assert!(!is_corner_fast9(&image, 90, 3, 3));
}

#[test]
fn pixels_near_the_border_are_no_corners() {
    let all: Vec<usize> = (0..16).collect();
    let image = image_with(&all, 10, 100, 100);
    for (x, y) in [(0, 0), (2, 3), (3, 2), (4, 3), (3, 4), (6, 6), (7, 3), (3, 7)] {
        assert!(!is_corner_fast9(&image, 1, x, y));
    }
    assert!(!is_corner_fast9(&image, 1, u32::MAX, 3));
    assert!(!is_corner_fast9(&image, 1, 3, u32::MAX - 3));
}

#[test]
fn position_four_lies_below_the_centre() {
    // Positions 12 .. 15 and 0 .. 4 of the circle array; position 4 is the
    // pixel three below the centre.
    let image = image_with(&[12, 13, 14, 15, 0, 1, 2, 3, 4], 10, 100, 10);
    assert_eq!(image.get(6, 3), Some(100));
    assert_eq!(image.get(3, 6), Some(10));
    assert!(is_corner_fast9(&image, 50, 3, 3));
    // With the pixel three to the right lit instead, the run stops at 3.
    let other = image_with(&[12, 13, 14, 15, 0, 1, 2, 3, 8], 10, 100, 10);
    assert!(!is_corner_fast9(&other, 50, 3, 3));
}

#[test]
fn score_is_the_largest_threshold_that_still_detects() {
    let all: Vec<usize> = (0..16).collect();
    let image = image_with(&all, 10, 100, 10);
    assert_eq!(fast_corner_score(&image, 20, 3, 3, Fast::Nine), 89);
    assert_eq!(fast_corner_score(&image, 0, 3, 3, Fast::Nine), 89);
    assert_eq!(fast_corner_score(&image, 89, 3, 3, Fast::Nine), 89);
}

#[test]
fn score_of_a_pixel_that_is_no_corner_is_the_threshold() {
    let image = image_with(&[], 10, 100, 10);
    assert_eq!(fast_corner_score(&image, 20, 3, 3, Fast::Nine), 20);
    assert_eq!(fast_corner_score(&image, 255, 3, 3, Fast::Nine), 255);
    let all: Vec<usize> = (0..16).collect();
    let bright = image_with(&all, 10, 100, 10);
    assert_eq!(fast_corner_score(&bright, 120, 3, 3, Fast::Nine), 120);
}

#[test]
fn corners_of_an_image_come_with_scores() {
    let all: Vec<usize> = (0..16).collect();
    let image = image_with(&all, 10, 100, 10);
    assert_eq!(float_corners_fast9(&image, 50), vec![Corner::new(3, 3, 89)]);
    assert_eq!(float_corners_fast9(&image, 90), vec![]);
    let flat = image_with(&[], 10, 10, 10);
    assert_eq!(float_corners_fast9(&flat, 1), vec![]);
}

#[test]
fn corner_holds_its_fields() {
    let c = Corner::new(4, 9, 33);
    assert_eq!((c.x, c.y, c.score), (4, 9, 33));
}

#[test]
fn span_of_length_zero_is_always_there() {
    let c = circle_with(&[0, 1, 2], 100, 0);
    assert!(has_bright_span(&c, 0, 50));
    assert!(has_dark_span(&c, 0, 50));
    assert!(search_span(&[0; 16], 0, 50, true));
}
