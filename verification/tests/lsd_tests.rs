use orbslam::grid::Grid;
use orbslam::lsd::{
    accept_significant, extract_line_candidates, fit_line, new_lsd_detector, DetectError,
    LineCandidate, Point, Stage,
};

fn grid_of(rows: &[&[i32]]) -> Grid {
    let cols = if rows.is_empty() { 0 } else { rows[0].len() };
    let mut g = Grid::zeros(rows.len(), cols).unwrap();
    for (y, row) in rows.iter().enumerate() {
        for (x, v) in row.iter().enumerate() {
            assert!(g.set(y, x, *v));
        }
    }
    g
}

fn uniform(rows: usize, cols: usize, v: i32) -> Grid {
    let mut g = Grid::zeros(rows, cols).unwrap();
    for y in 0..rows {
        for x in 0..cols {
            g.set(y, x, v);
        }
    }
    g
}

/// An 8 x 8 image with a bright edge on its main diagonal.
fn diagonal_edge() -> (Grid, Grid) {
    let mut magnitude = Grid::zeros(8, 8).unwrap();
    let mut angle = Grid::zeros(8, 8).unwrap();
    for i in 0..8 {
        magnitude.set(i, i, 200);
        angle.set(i, i, 45);
    }
    (magnitude, angle)
}

#[test]
fn fit_line_takes_first_and_last() {
    let points = [Point { x: 3, y: 0 }, Point { x: 9, y: 1 }, Point { x: 1, y: 4 }];
    assert_eq!(fit_line(&points), (Point { x: 3, y: 0 }, Point { x: 1, y: 4 }));
    let two = [Point { x: 5, y: 5 }, Point { x: 6, y: 5 }];
    assert_eq!(fit_line(&two), (Point { x: 5, y: 5 }, Point { x: 6, y: 5 }));
}

#[test]
fn candidates_come_by_ascending_id_with_size_and_length() {
    let labels = grid_of(&[&[2, 1, 0], &[2, 0, 3], &[1, 0, 2]]);
    let lines = extract_line_candidates(&labels);
    assert_eq!(
        lines,
        vec![
            LineCandidate {
                cluster_id: 1,
                start: Point { x: 1, y: 0 },
                end: Point { x: 0, y: 2 },
                num_points: 2,
                length_sq: 5,
            },
            LineCandidate {
                cluster_id: 2,
                start: Point { x: 0, y: 0 },
                end: Point { x: 2, y: 2 },
                num_points: 3,
                length_sq: 8,
            },
        ]
    );
}

#[test]
fn single_pixel_clusters_give_no_candidate() {
    let labels = grid_of(&[&[1, 0, 2], &[0, 3, 0]]);
    assert_eq!(extract_line_candidates(&labels), vec![]);
}

#[test]
fn negative_labels_and_empty_grids_give_no_candidate() {
    let labels = grid_of(&[&[-1, -1], &[-2, -2]]);
    assert_eq!(extract_line_candidates(&labels), vec![]);
    let empty = Grid::zeros(0, 0).unwrap();
    assert_eq!(extract_line_candidates(&empty), vec![]);
}

#[test]
fn uniform_image_detects_nothing() {
    // A flat image has zero gradient everywhere.
    for threshold in [1, 50, 1000] {
        let magnitude = uniform(5, 7, 0);
        let angle = uniform(5, 7, 0);
        let found = new_lsd_detector(&magnitude, &angle, threshold, 4).unwrap();
        assert_eq!(found, vec![]);
        assert_eq!(accept_significant(&found, &vec![]), vec![]);
    }
}

#[test]
fn diagonal_edge_gives_one_segment() {
    let (magnitude, angle) = diagonal_edge();
    let found = new_lsd_detector(&magnitude, &angle, 50, 4).unwrap();
    assert_eq!(
        found,
        vec![LineCandidate {
            cluster_id: 1,
            start: Point { x: 0, y: 0 },
            end: Point { x: 7, y: 7 },
            num_points: 8,
            length_sq: 98,
        }]
    );
    let segments = accept_significant(&found, &vec![true]);
    assert_eq!(segments, vec![(Point { x: 0, y: 0 }, Point { x: 7, y: 7 })]);
}

#[test]
fn detection_is_repeatable() {
    let (magnitude, angle) = diagonal_edge();
    let first = new_lsd_detector(&magnitude, &angle, 50, 4);
    let second = new_lsd_detector(&magnitude, &angle, 50, 4);
    assert_eq!(first, second);
    let verdicts = vec![true];
    assert_eq!(
        accept_significant(&first.unwrap(), &verdicts),
        accept_significant(&second.unwrap(), &verdicts)
    );
}

#[test]
fn threshold_above_the_edge_detects_nothing() {
    let (magnitude, angle) = diagonal_edge();
    assert_eq!(new_lsd_detector(&magnitude, &angle, 50, 4).unwrap().len(), 1);
    assert_eq!(new_lsd_detector(&magnitude, &angle, 199, 4).unwrap().len(), 1);
    assert_eq!(new_lsd_detector(&magnitude, &angle, 200, 4).unwrap().len(), 0);
    assert_eq!(new_lsd_detector(&magnitude, &angle, 250, 4).unwrap().len(), 0);
}

#[test]
fn image_without_rows_or_columns_is_invalid() {
    let none = Grid::zeros(0, 0).unwrap();
    assert_eq!(
        new_lsd_detector(&none, &none, 1, 4),
        Err(DetectError::InvalidImage { rows: 0, cols: 0 })
    );
    let no_rows = Grid::zeros(0, 4).unwrap();
    assert_eq!(
        new_lsd_detector(&no_rows, &no_rows, 1, 4),
        Err(DetectError::InvalidImage { rows: 0, cols: 4 })
    );
    let no_cols = Grid::zeros(3, 0).unwrap();
    let angle = Grid::zeros(3, 3).unwrap();
    assert_eq!(
        new_lsd_detector(&no_cols, &angle, 1, 4),
        Err(DetectError::InvalidImage { rows: 3, cols: 0 })
    );
}

#[test]
fn grids_of_different_shape_are_refused() {
    let magnitude = Grid::zeros(3, 4).unwrap();
    let angle = Grid::zeros(4, 3).unwrap();
    assert_eq!(new_lsd_detector(&magnitude, &angle, 1, 4), Err(DetectError::ShapeMismatch));
}

#[test]
fn accept_keeps_the_significant_in_order() {
    let c = |id: i32, x: usize| LineCandidate {
        cluster_id: id,
        start: Point { x, y: 0 },
        end: Point { x, y: 3 },
        num_points: 4,
        length_sq: 9,
    };
    let candidates = vec![c(1, 0), c(2, 1), c(3, 2)];
    assert_eq!(
        accept_significant(&candidates, &vec![true, false, true]),
        vec![(Point { x: 0, y: 0 }, Point { x: 0, y: 3 }), (Point { x: 2, y: 0 }, Point { x: 2, y: 3 })]
    );
    assert_eq!(accept_significant(&candidates, &vec![false, false, false]), vec![]);
}

#[test]
fn a_candidate_without_a_verdict_is_rejected() {
    let c = LineCandidate {
        cluster_id: 1,
        start: Point { x: 0, y: 0 },
        end: Point { x: 1, y: 1 },
        num_points: 2,
        length_sq: 2,
    };
    assert_eq!(accept_significant(&vec![c, c], &vec![true]), vec![(c.start, c.end)]);
    assert_eq!(accept_significant(&vec![c], &vec![]), vec![]);
    assert_eq!(accept_significant(&vec![], &vec![true, true]), vec![]);
}

#[test]
fn candidates_are_fit_for_validation() {
    let labels = grid_of(&[&[1, 1, 1, 1]]);
    let lines = extract_line_candidates(&labels);
    assert_eq!(lines.len(), 1);
    assert_eq!(lines[0].num_points, 4);
    assert_eq!(lines[0].length_sq, 9);
    assert!(lines[0].length_sq <= 16);
}

#[test]
fn edge_map_keeps_magnitudes_above_the_threshold() {
    let magnitude = grid_of(&[&[1, 5, 6], &[9, 0, -3]]);
    let edges = orbslam::lsd::lsd_detector(&magnitude, 5);
    assert_eq!(edges.dims(), (2, 3));
    let expected = [[0, 0, 6], [9, 0, 0]];
    for y in 0..2 {
        for x in 0..3 {
            assert_eq!(edges.get(y, x), Some(expected[y][x]));
        }
    }
}

#[test]
fn edge_map_of_an_empty_image_is_empty() {
    let magnitude = Grid::zeros(0, 3).unwrap();
    assert_eq!(orbslam::lsd::lsd_detector(&magnitude, 5).dims(), (0, 3));
}

#[test]
fn stages_follow_one_another() {
    let mut stage = Stage::Start;
    let mut seen = vec![stage];
    while let Some(next) = stage.next() {
        stage = next;
        seen.push(stage);
    }
    assert_eq!(
        seen,
        vec![
            Stage::Start,
            Stage::Blurred,
            Stage::Scaled,
            Stage::GradientComputed,
            Stage::Clustered,
            Stage::Fitted,
            Stage::Validated,
            Stage::Done,
        ]
    );
    assert_eq!(Stage::Done.next(), None);
}
