//! Line segment candidates: reducing each cluster of a label grid to a
//! two-point segment, and selecting the candidates that pass validation.

use crate::grid::{Grid, GridView};
use crate::nfa::{probability_in_range, tail_range};
use crate::region::{cluster_by_gradient_direction, Scan};
use vstd::prelude::*;

verus! {

/// A pixel coordinate: `x` is the column, `y` the row, origin at the top left.
#[derive(Debug, Clone, Copy, PartialEq, Eq, Structural)]
pub struct Point {
    pub x: usize,
    pub y: usize,
}

/// A cluster reduced to a segment, with what its validation needs.
#[derive(Debug, Clone, Copy, PartialEq, Eq, Structural)]
pub struct LineCandidate {
    /// The id of the cluster in the label grid.
    pub cluster_id: i32,
    /// The cluster's first pixel in raster order.
    pub start: Point,
    /// The cluster's last pixel in raster order.
    pub end: Point,
    /// The number of pixels in the cluster.
    pub num_points: usize,
    /// The squared Euclidean distance between `start` and `end`.
    pub length_sq: u128,
}

/// The squared Euclidean distance between two points.
pub open spec fn span_sq(a: Point, b: Point) -> int {
    (b.x - a.x) * (b.x - a.x) + (b.y - a.y) * (b.y - a.y)
}

/// The pixels among the first `n` in raster order that carry the label
/// `id`, as `(row, column)`, in raster order.
pub open spec fn members(labels: GridView, id: int, n: int) -> Seq<(int, int)>
    decreases n,
{
    if n <= 0 {
        Seq::empty()
    } else {
        let prev = members(labels, id, n - 1);
        if labels.nth(n - 1) == id {
            prev.push(((n - 1) / labels.cols, (n - 1) % labels.cols))
        } else {
            prev
        }
    }
}

/// The largest label among the first `n` cells in raster order, or `0` where
/// none is positive.
pub open spec fn max_label(labels: GridView, n: int) -> int
    decreases n,
{
    if n <= 0 {
        0
    } else {
        let prev = max_label(labels, n - 1);
        if labels.nth(n - 1) > prev {
            labels.nth(n - 1)
        } else {
            prev
        }
    }
}

/// The candidate that stands for the pixels `m` of cluster `id`: it runs
/// from the first of them to the last.
pub open spec fn candidate(id: int, m: Seq<(int, int)>) -> LineCandidate {
    let start = Point { x: m[0].1 as usize, y: m[0].0 as usize };
    let end = Point { x: m.last().1 as usize, y: m.last().0 as usize };
    LineCandidate {
        cluster_id: id as i32,
        start,
        end,
        num_points: m.len() as usize,
        length_sq: span_sq(start, end) as u128,
    }
}

/// The candidates of the clusters `1 ..= max_id`, by ascending id. A cluster
/// with fewer than two pixels gives none.
pub open spec fn candidates(labels: GridView, max_id: int) -> Seq<LineCandidate>
    decreases max_id,
{
    if max_id <= 0 {
        Seq::empty()
    } else {
        let prev = candidates(labels, max_id - 1);
        let m = members(labels, max_id, labels.area());
        if m.len() >= 2 {
            prev.push(candidate(max_id, m))
        } else {
            prev
        }
    }
}

/// Members lie inside the grid, carry the label, and number at most `n`.
pub proof fn lemma_members(labels: GridView, id: int, n: int, i: int)
    requires
        labels.wf(),
        0 <= n <= labels.area(),
        0 <= i < members(labels, id, n).len(),
    ensures
        members(labels, id, n).len() <= n,
        labels.contains(members(labels, id, n)[i].0, members(labels, id, n)[i].1),
        labels.at(members(labels, id, n)[i].0, members(labels, id, n)[i].1) == id,
    decreases n,
{
    if n > 0 {
        lemma_members_len(labels, id, n - 1);
        crate::grid::lemma_raster_cell(labels.rows, labels.cols, n - 1);
        if i < members(labels, id, n - 1).len() {
            lemma_members(labels, id, n - 1, i);
        }
    }
}

/// There are at most `n` members among the first `n` cells.
pub proof fn lemma_members_len(labels: GridView, id: int, n: int)
    requires
        0 <= n,
    ensures
        members(labels, id, n).len() <= n,
    decreases n,
{
    if n > 0 {
        lemma_members_len(labels, id, n - 1);
    }
}

/// The largest label is at least `0` and at least every label seen.
pub proof fn lemma_max_label(labels: GridView, n: int, i: int)
    requires
        0 <= i < n,
    ensures
        max_label(labels, n) >= 0,
        max_label(labels, n) >= labels.nth(i),
    decreases n,
{
    if n > 0 {
        if i < n - 1 {
            lemma_max_label(labels, n - 1, i);
        } else if n - 1 > 0 {
            lemma_max_label(labels, n - 1, 0);
        }
    }
}

/// Reduces a cluster's pixels, given in raster order, to a segment from the
/// first pixel to the last. A cluster of fewer than two pixels is no line
/// and must not be passed in.
pub fn fit_line(points: &[Point]) -> (line: (Point, Point))
    requires
        points@.len() >= 2,
    ensures
        line.0 == points@[0],
        line.1 == points@[points@.len() - 1],
{
    let start = points[0];
    let end = points[points.len() - 1];
    (start, end)
}

/// The absolute difference of two coordinates.
fn gap(a: usize, b: usize) -> (d: u128)
    ensures
        d == if a <= b {
            b - a
        } else {
            a - b
        },
{
    if a <= b {
        (b - a) as u128
    } else {
        (a - b) as u128
    }
}

/// The squared length of a segment whose ends lie in a grid that can exist.
fn segment_length_sq(start: Point, end: Point, rows: usize, cols: usize) -> (l: u128)
    requires
        start.x < cols,
        end.x < cols,
        start.y < rows,
        end.y < rows,
        crate::grid::axes_fit(rows as int, cols as int),
    ensures
        l == span_sq(start, end),
        l <= (rows * cols) * (rows * cols),
{
    let dx = gap(start.x, end.x);
    let dy = gap(start.y, end.y);
    proof {
        let r = rows as int;
        let c = cols as int;
        let a = r * c;
        assert(c <= a && r <= a) by (nonlinear_arith)
            requires
                r >= 1,
                c >= 1,
                a == r * c,
        ;
        assert(a <= isize::MAX);
        assert(isize::MAX < 0x8000_0000_0000_0000);
        assert(dx * dx < 0x4000_0000_0000_0000_0000_0000_0000_0000) by (nonlinear_arith)
            requires
                0 <= dx < 0x8000_0000_0000_0000,
        ;
        assert(dy * dy < 0x4000_0000_0000_0000_0000_0000_0000_0000) by (nonlinear_arith)
            requires
                0 <= dy < 0x8000_0000_0000_0000,
        ;
        assert(dx * dx == (end.x - start.x) * (end.x - start.x)) by (nonlinear_arith)
            requires
                dx == end.x - start.x || dx == start.x - end.x,
        ;
        assert(dy * dy == (end.y - start.y) * (end.y - start.y)) by (nonlinear_arith)
            requires
                dy == end.y - start.y || dy == start.y - end.y,
        ;
        assert(dx * dx + dy * dy <= a * a) by (nonlinear_arith)
            requires
                0 <= dx < c,
                0 <= dy < r,
                a == r * c,
        ;
    }
    dx * dx + dy * dy
}

/// The largest label of the grid, or `0` where none is positive.
fn largest_label(clusters: &Grid) -> (m: i32)
    ensures
        m == max_label(clusters@, clusters@.area()),
{
    let (rows, cols) = clusters.dims();
    let mut m: i32 = 0;
    let mut y: usize = 0;
    while y < rows
        invariant
            0 <= y <= rows,
            rows == clusters@.rows,
            cols == clusters@.cols,
            m == max_label(clusters@, y * cols),
        decreases rows - y,
    {
        let mut x: usize = 0;
        while x < cols
            invariant
                0 <= y < rows,
                0 <= x <= cols,
                rows == clusters@.rows,
                cols == clusters@.cols,
                m == max_label(clusters@, y * cols + x),
            decreases cols - x,
        {
            proof {
                crate::grid::lemma_raster_position(rows as int, cols as int, y as int, x as int);
                crate::grid::lemma_raster_index(cols as int, y as int, x as int);
            }
            let v = clusters.cell(y, x);
            if v > m {
                m = v;
            }
            x += 1;
        }
        proof {
            assert(y * cols + cols == (y + 1) * cols) by (nonlinear_arith);
        }
        y += 1;
    }
    m
}

/// The pixels that carry the label `cluster_id`, in raster order.
fn cluster_points(clusters: &Grid, cluster_id: i32) -> (points: Vec<Point>)
    ensures
        points@.len() == members(clusters@, cluster_id as int, clusters@.area()).len(),
        forall|i: int|
            0 <= i < points@.len() ==> (#[trigger] points@[i]).y == members(
                clusters@,
                cluster_id as int,
                clusters@.area(),
            )[i].0 && points@[i].x == members(clusters@, cluster_id as int, clusters@.area())[i].1,
{
    let (rows, cols) = clusters.dims();
    let mut points: Vec<Point> = Vec::new();
    let mut y: usize = 0;
    while y < rows
        invariant
            0 <= y <= rows,
            rows == clusters@.rows,
            cols == clusters@.cols,
            points@.len() == members(clusters@, cluster_id as int, y * cols).len(),
            forall|i: int|
                0 <= i < points@.len() ==> (#[trigger] points@[i]).y == members(
                    clusters@,
                    cluster_id as int,
                    y * cols,
                )[i].0 && points@[i].x == members(clusters@, cluster_id as int, y * cols)[i].1,
        decreases rows - y,
    {
        let mut x: usize = 0;
        while x < cols
            invariant
                0 <= y < rows,
                0 <= x <= cols,
                rows == clusters@.rows,
                cols == clusters@.cols,
                points@.len() == members(clusters@, cluster_id as int, y * cols + x).len(),
                forall|i: int|
                    0 <= i < points@.len() ==> (#[trigger] points@[i]).y == members(
                        clusters@,
                        cluster_id as int,
                        y * cols + x,
                    )[i].0 && points@[i].x == members(
                        clusters@,
                        cluster_id as int,
                        y * cols + x,
                    )[i].1,
            decreases cols - x,
        {
            proof {
                crate::grid::lemma_raster_position(rows as int, cols as int, y as int, x as int);
                crate::grid::lemma_raster_index(cols as int, y as int, x as int);
            }
            if clusters.cell(y, x) == cluster_id {
                points.push(Point { x, y });
            }
            x += 1;
        }
        proof {
            assert(y * cols + cols == (y + 1) * cols) by (nonlinear_arith);
        }
        y += 1;
    }
    points
}

/// A candidate lies inside the grid and is fit for validation: it has at
/// least two points and no more than the grid has pixels, and it is no
/// longer than the grid has pixels.
pub open spec fn fit_for_validation(labels: GridView, c: LineCandidate) -> bool {
    &&& labels.contains(c.start.y as int, c.start.x as int)
    &&& labels.contains(c.end.y as int, c.end.x as int)
    &&& 2 <= c.num_points <= labels.area()
    &&& c.length_sq <= labels.area() * labels.area()
}

/// The line candidates of a label grid: for each cluster id from 1 up to
/// the largest label, by ascending id, the segment from the cluster's first
/// pixel in raster order to its last, together with the cluster's size and
/// the squared length of the segment. Clusters of fewer than two pixels are
/// left out. An empty grid has no candidates.
///
/// Every candidate lies inside the grid and is fit for validation, see
/// [`fit_for_validation`].
pub fn extract_line_candidates(clusters: &Grid) -> (lines: Vec<LineCandidate>)
    ensures
        lines@ == candidates(clusters@, max_label(clusters@, clusters@.area())),
        forall|i: int|
            0 <= i < lines@.len() ==> fit_for_validation(clusters@, #[trigger] lines@[i]),
{
    let (rows, cols) = clusters.dims();
    let max_cluster_id = largest_label(clusters);
    let mut lines: Vec<LineCandidate> = Vec::new();
    let mut cluster_id: i32 = 0;
    proof {
        if clusters@.area() > 0 {
            lemma_max_label(clusters@, clusters@.area(), 0);
        }
    }
    while cluster_id < max_cluster_id
        invariant
            0 <= cluster_id <= max_cluster_id || (cluster_id == 0 && max_cluster_id <= 0),
            rows == clusters@.rows,
            cols == clusters@.cols,
            clusters@.wf(),
            crate::grid::axes_fit(rows as int, cols as int),
            lines@ == candidates(clusters@, cluster_id as int),
            forall|i: int|
                0 <= i < lines@.len() ==> fit_for_validation(clusters@, #[trigger] lines@[i]),
        decreases max_cluster_id - cluster_id,
    {
        cluster_id += 1;
        let points = cluster_points(clusters, cluster_id);
        if points.len() > 1 {
            let ghost m = members(clusters@, cluster_id as int, clusters@.area());
            proof {
                assert(rows * cols >= 0) by (nonlinear_arith)
                    requires
                        rows >= 0,
                        cols >= 0,
                ;
                lemma_members(clusters@, cluster_id as int, clusters@.area(), 0);
                lemma_members(clusters@, cluster_id as int, clusters@.area(), m.len() - 1);
            }
            let line = fit_line(points.as_slice());
            let length_sq = segment_length_sq(line.0, line.1, rows, cols);
            lines.push(
                LineCandidate {
                    cluster_id,
                    start: line.0,
                    end: line.1,
                    num_points: points.len(),
                    length_sq,
                },
            );
            proof {
                assert(lines@[lines@.len() - 1] == candidate(cluster_id as int, m));
            }
        }
    }
    lines
}

/// Why a detection could not run.
#[derive(Debug, Clone, Copy, PartialEq, Eq, Structural)]
pub enum DetectError {
    /// The image has no rows or no columns.
    InvalidImage { rows: usize, cols: usize },
    /// The magnitude grid and the direction grid differ in shape.
    ShapeMismatch,
    /// The image has `i32::MAX` pixels or more, so that cluster ids could
    /// run out.
    TooLarge,
}

/// What a detection on the given grids yields: the error that stops it, or
/// the candidates of the label grid that the clustering pass makes.
pub open spec fn detection(magnitude: GridView, angle: GridView, threshold: int, tol: int) -> Result<
    Seq<LineCandidate>,
    DetectError,
> {
    if magnitude.rows == 0 || magnitude.cols == 0 {
        Err(
            DetectError::InvalidImage {
                rows: magnitude.rows as usize,
                cols: magnitude.cols as usize,
            },
        )
    } else if !magnitude.same_shape(angle) {
        Err(DetectError::ShapeMismatch)
    } else if magnitude.area() >= i32::MAX {
        Err(DetectError::TooLarge)
    } else {
        let labels = (Scan { magnitude, dir: angle, threshold, tol }).labels();
        Ok(candidates(labels, max_label(labels, labels.area())))
    }
}

/// `r` is what a detection on the given grids returns.
pub open spec fn is_detection(
    magnitude: GridView,
    angle: GridView,
    threshold: int,
    tol: int,
    r: Result<Vec<LineCandidate>, DetectError>,
) -> bool {
    match r {
        Ok(lines) => detection(magnitude, angle, threshold, tol) == Ok::<
            Seq<LineCandidate>,
            DetectError,
        >(lines@),
        Err(e) => detection(magnitude, angle, threshold, tol) == Err::<
            Seq<LineCandidate>,
            DetectError,
        >(e),
    }
}

/// Detects line candidates from the gradient of an image.
///
/// `magnitude` holds the gradient magnitude of each pixel and `angle` its
/// direction, both in fixed-point units of the caller's choice; `threshold`
/// and `tolerance` are in the same units. The pixels are clustered with
/// [`cluster_by_gradient_direction`] and each cluster of two or more pixels
/// becomes one candidate, by ascending cluster id, as
/// [`extract_line_candidates`] describes.
///
/// An image without rows or columns is refused before anything is
/// allocated.
pub fn new_lsd_detector(magnitude: &Grid, angle: &Grid, threshold: i32, tolerance: i32) -> (r: Result<
    Vec<LineCandidate>,
    DetectError,
>)
    ensures
        is_detection(magnitude@, angle@, threshold as int, tolerance as int, r),
{
    let (rows, cols) = magnitude.dims();
    if rows == 0 || cols == 0 {
        return Err(DetectError::InvalidImage { rows, cols });
    }
    let (angle_rows, angle_cols) = angle.dims();
    if angle_rows != rows || angle_cols != cols {
        return Err(DetectError::ShapeMismatch);
    }
    let total_pixels = rows * cols;
    if total_pixels >= i32::MAX as usize {
        return Err(DetectError::TooLarge);
    }
    let (clusters, _count) = cluster_by_gradient_direction(magnitude, angle, threshold, tolerance);
    proof {
        let scan = Scan {
            magnitude: magnitude@,
            dir: angle@,
            threshold: threshold as int,
            tol: tolerance as int,
        };
        scan.lemma_after_shape(magnitude@.area());
    }
    Ok(extract_line_candidates(&clusters))
}

/// The segments of the candidates that validation has found significant, in
/// the candidates' order. `significant[i]` is the verdict on
/// `candidates[i]`; a candidate without a verdict is rejected.
pub open spec fn accepted(candidates: Seq<LineCandidate>, significant: Seq<bool>, n: int) -> Seq<
    (Point, Point),
>
    decreases n,
{
    if n <= 0 {
        Seq::empty()
    } else {
        let prev = accepted(candidates, significant, n - 1);
        if n - 1 < significant.len() && significant[n - 1] {
            prev.push((candidates[n - 1].start, candidates[n - 1].end))
        } else {
            prev
        }
    }
}

/// Keeps the segments of the candidates whose verdict is `true`, in their
/// order, and drops the others.
pub fn accept_significant(candidates: &Vec<LineCandidate>, significant: &Vec<bool>) -> (lines: Vec<
    (Point, Point),
>)
    ensures
        lines@ == accepted(candidates@, significant@, candidates@.len() as int),
{
    let mut lines: Vec<(Point, Point)> = Vec::new();
    let mut i: usize = 0;
    while i < candidates.len()
        invariant
            0 <= i <= candidates@.len(),
            lines@ == accepted(candidates@, significant@, i as int),
        decreases candidates@.len() - i,
    {
        if i < significant.len() && significant[i] {
            lines.push((candidates[i].start, candidates[i].end));
        }
        i += 1;
    }
    lines
}

/// No candidates among clusters whose ids do not occur.
proof fn lemma_blank_has_no_candidates(rows: int, cols: int, max_id: int)
    requires
        0 <= rows,
        0 <= cols,
    ensures
        candidates(GridView::filled(rows, cols, 0), max_id) == Seq::<LineCandidate>::empty(),
    decreases max_id,
{
    if max_id > 0 {
        lemma_blank_has_no_candidates(rows, cols, max_id - 1);
        assert(rows * cols >= 0) by (nonlinear_arith)
            requires
                0 <= rows,
                0 <= cols,
        ;
        lemma_blank_members(rows, cols, max_id, rows * cols);
    }
}

proof fn lemma_blank_members(rows: int, cols: int, id: int, n: int)
    requires
        0 <= rows,
        0 <= cols,
        id != 0,
        0 <= n <= rows * cols,
    ensures
        members(GridView::filled(rows, cols, 0), id, n) == Seq::<(int, int)>::empty(),
    decreases n,
{
    if n > 0 {
        lemma_blank_members(rows, cols, id, n - 1);
        crate::grid::lemma_raster_cell(rows, cols, n - 1);
    }
}

/// A flat image gives nothing: where no magnitude exceeds the threshold (as
/// on an image of uniform intensity, whose gradient is zero, with any
/// positive threshold), a detection that runs returns no candidate, and so
/// no segment whatever the verdicts.
pub proof fn law_flat_image_detects_nothing(
    magnitude: GridView,
    angle: GridView,
    threshold: int,
    tol: int,
    significant: Seq<bool>,
)
    requires
        magnitude.wf(),
        angle.wf(),
        forall|y: int, x: int| magnitude.contains(y, x) ==> #[trigger] magnitude.at(y, x) <= threshold,
        detection(magnitude, angle, threshold, tol) is Ok,
    ensures
        detection(magnitude, angle, threshold, tol) == Ok::<Seq<LineCandidate>, DetectError>(
            Seq::empty(),
        ),
        accepted(Seq::<LineCandidate>::empty(), significant, 0) == Seq::<(Point, Point)>::empty(),
{
    let scan = Scan { magnitude, dir: angle, threshold, tol };
    assert forall|y: int, x: int| magnitude.contains(y, x) implies !#[trigger] scan.seeds(y, x) by {
        assert(magnitude.at(y, x) <= threshold);
    }
    scan.law_no_seed_no_cluster();
    let labels = scan.labels();
    lemma_blank_has_no_candidates(magnitude.rows, magnitude.cols, max_label(labels, labels.area()));
}

/// Detection has no hidden state: two runs on the same grids and
/// parameters return the same error or the same candidates, and the same
/// verdicts then select the same segments.
pub proof fn law_detection_is_repeatable(
    magnitude: GridView,
    angle: GridView,
    threshold: int,
    tol: int,
    first: Result<Vec<LineCandidate>, DetectError>,
    second: Result<Vec<LineCandidate>, DetectError>,
    significant: Seq<bool>,
)
    requires
        is_detection(magnitude, angle, threshold, tol, first),
        is_detection(magnitude, angle, threshold, tol, second),
    ensures
        first is Ok <==> second is Ok,
        first is Err ==> first->Err_0 == second->Err_0,
        first is Ok ==> first->Ok_0@ == second->Ok_0@ && accepted(
            first->Ok_0@,
            significant,
            first->Ok_0@.len() as int,
        ) == accepted(second->Ok_0@, significant, second->Ok_0@.len() as int),
{
}

/// The magnitudes that exceed the threshold, on a grid that is zero
/// everywhere else.
pub open spec fn thresholded(magnitude: GridView, threshold: int) -> GridView {
    GridView {
        rows: magnitude.rows,
        cols: magnitude.cols,
        cells: Map::new(
            |k: (int, int)| magnitude.contains(k.0, k.1),
            |k: (int, int)|
                if magnitude.at(k.0, k.1) > threshold {
                    magnitude.at(k.0, k.1)
                } else {
                    0
                },
        ),
    }
}

/// The plain edge map: each pixel whose gradient magnitude exceeds
/// `threshold` keeps its magnitude, every other pixel is zero. No
/// clustering and no validation take place.
pub fn lsd_detector(magnitude: &Grid, threshold: i32) -> (detected_lines: Grid)
    ensures
        detected_lines@ == thresholded(magnitude@, threshold as int),
{
    let (rows, cols) = magnitude.dims();
    let mut detected_lines = Grid::zeros(rows, cols).unwrap();
    let mut y: usize = 0;
    while y < rows
        invariant
            0 <= y <= rows,
            rows == magnitude@.rows,
            cols == magnitude@.cols,
            detected_lines@.wf(),
            detected_lines@.same_shape(magnitude@),
            forall|r: int, c: int|
                0 <= r < rows && 0 <= c < cols ==> #[trigger] detected_lines@.at(r, c) == if r < y {
                    thresholded(magnitude@, threshold as int).at(r, c)
                } else {
                    0
                },
        decreases rows - y,
    {
        let mut x: usize = 0;
        while x < cols
            invariant
                0 <= y < rows,
                0 <= x <= cols,
                rows == magnitude@.rows,
                cols == magnitude@.cols,
                detected_lines@.wf(),
                detected_lines@.same_shape(magnitude@),
                forall|r: int, c: int|
                    0 <= r < rows && 0 <= c < cols ==> #[trigger] detected_lines@.at(r, c) == if r
                        < y || (r == y && c < x) {
                        thresholded(magnitude@, threshold as int).at(r, c)
                    } else {
                        0
                    },
            decreases cols - x,
        {
            let ghost filled = detected_lines@;
            let mag = magnitude.cell(y, x);
            if mag > threshold {
                detected_lines.put(y, x, mag);
            }
            proof {
                assert forall|r: int, c: int| 0 <= r < rows && 0 <= c < cols implies #[trigger]
                    detected_lines@.at(r, c) == if r < y || (r == y && c < x + 1) {
                    thresholded(magnitude@, threshold as int).at(r, c)
                } else {
                    0
                } by {
                    assert(filled.at(r, c) == if r < y || (r == y && c < x) {
                        thresholded(magnitude@, threshold as int).at(r, c)
                    } else {
                        0
                    });
                }
            }
            x += 1;
        }
        y += 1;
    }
    proof {
        let wanted = thresholded(magnitude@, threshold as int);
        assert forall|k: (int, int)| detected_lines@.cells.dom().contains(k) implies #[trigger]
            detected_lines@.cells[k] == wanted.cells[k] by {
            assert(detected_lines@.at(k.0, k.1) == wanted.at(k.0, k.1));
        }
        assert(detected_lines@ =~= wanted);
    }
    detected_lines
}

/// The stages of a detection, in the order in which they are passed. Each
/// stage has exactly one successor, and nothing leads back.
#[derive(Debug, Clone, Copy, PartialEq, Eq, Structural)]
pub enum Stage {
    Start,
    Blurred,
    Scaled,
    GradientComputed,
    Clustered,
    Fitted,
    Validated,
    Done,
}

impl Stage {
    /// The position of the stage in the pipeline, from 0 for `Start`.
    pub open spec fn rank(self) -> int {
        match self {
            Stage::Start => 0,
            Stage::Blurred => 1,
            Stage::Scaled => 2,
            Stage::GradientComputed => 3,
            Stage::Clustered => 4,
            Stage::Fitted => 5,
            Stage::Validated => 6,
            Stage::Done => 7,
        }
    }

    /// The stage that follows, or `None` after the last one.
    pub fn next(self) -> (r: Option<Stage>)
        ensures
            r.is_none() <==> self == Stage::Done,
            r matches Some(s) ==> s.rank() == self.rank() + 1,
    {
        match self {
            Stage::Start => Some(Stage::Blurred),
            Stage::Blurred => Some(Stage::Scaled),
            Stage::Scaled => Some(Stage::GradientComputed),
            Stage::GradientComputed => Some(Stage::Clustered),
            Stage::Clustered => Some(Stage::Fitted),
            Stage::Fitted => Some(Stage::Validated),
            Stage::Validated => Some(Stage::Done),
            Stage::Done => None,
        }
    }
}

/// No label among the first `n` cells exceeds a bound that none of them
/// exceeds.
proof fn lemma_max_label_bounded(labels: GridView, n: int, bound: int)
    requires
        0 <= bound,
        forall|i: int| 0 <= i < n ==> labels.nth(i) <= bound,
    ensures
        max_label(labels, n) <= bound,
    decreases n,
{
    if n > 0 {
        lemma_max_label_bounded(labels, n - 1, bound);
    }
}

/// There are no more candidates than cluster ids.
pub proof fn lemma_candidates_len(labels: GridView, max_id: int)
    ensures
        candidates(labels, max_id).len() <= if max_id > 0 {
            max_id
        } else {
            0
        },
    decreases max_id,
{
    if max_id > 0 {
        lemma_candidates_len(labels, max_id - 1);
    }
}

/// After a clustering pass the largest label is the number of clusters:
/// ids run from 1 upwards in the order in which the scan finds the seeds,
/// and none is skipped.
pub proof fn law_largest_label_is_cluster_count(scan: Scan)
    requires
        scan.wf(),
    ensures
        max_label(scan.labels(), scan.labels().area()) == scan.clusters(),
        scan.clusters() >= 0,
{
    let area = scan.magnitude.area();
    assert(area >= 0) by (nonlinear_arith)
        requires
            area == scan.magnitude.rows * scan.magnitude.cols,
            scan.magnitude.rows >= 0,
            scan.magnitude.cols >= 0,
    ;
    scan.lemma_after_shape(area);
    let labels = scan.labels();
    let k = scan.clusters();
    assert forall|i: int| 0 <= i < area implies labels.nth(i) <= k by {
        crate::grid::lemma_raster_cell(labels.rows, labels.cols, i);
        scan.lemma_ids_in_range(area, (i / labels.cols, i % labels.cols));
    }
    lemma_max_label_bounded(labels, area, k);
    if k >= 1 {
        let p = scan.law_every_id_is_in_use(area, k);
        crate::grid::lemma_raster_position(labels.rows, labels.cols, p.0, p.1);
        crate::grid::lemma_raster_index(labels.cols, p.0, p.1);
        lemma_max_label(labels, area, p.0 * labels.cols + p.1);
    } else if area > 0 {
        lemma_max_label(labels, area, 0);
    }
}

/// A detection returns no more candidates than there are pixels above the
/// threshold, and that number never grows when the threshold is raised.
pub proof fn law_detection_bounded_by_seeds(
    magnitude: GridView,
    angle: GridView,
    threshold: int,
    higher: int,
    tol: int,
)
    requires
        magnitude.wf(),
        angle.wf(),
        threshold <= higher,
        detection(magnitude, angle, higher, tol) is Ok,
    ensures
        detection(magnitude, angle, higher, tol)->Ok_0.len() <= (Scan {
            magnitude,
            dir: angle,
            threshold: higher,
            tol,
        }).seed_count(magnitude.area()),
        (Scan { magnitude, dir: angle, threshold: higher, tol }).seed_count(magnitude.area()) <= (Scan {
            magnitude,
            dir: angle,
            threshold,
            tol,
        }).seed_count(magnitude.area()),
{
    let high = Scan { magnitude, dir: angle, threshold: higher, tol };
    let low = Scan { magnitude, dir: angle, threshold, tol };
    let area = magnitude.area();
    assert(area >= 0) by (nonlinear_arith)
        requires
            area == magnitude.rows * magnitude.cols,
            magnitude.rows >= 0,
            magnitude.cols >= 0,
    ;
    law_largest_label_is_cluster_count(high);
    high.law_clusters_bounded_by_seeds(area);
    low.law_seed_count_shrinks_with_threshold(high, area);
    lemma_candidates_len(high.labels(), high.clusters());
}

/// Candidates stay inside the domain of the false-alarm model: a candidate
/// that is fit for validation has a tail sum that runs from its size to the
/// number of pixels, and a success probability in `[0, 1]`, so that neither
/// guard of the score ever applies to it.
pub proof fn law_candidates_are_in_domain(labels: GridView, c: LineCandidate)
    requires
        fit_for_validation(labels, c),
    ensures
        tail_range(c.num_points as int, labels.area()) == Some((c.num_points as int, labels.area())),
        probability_in_range(c.length_sq as int, labels.area()),
{
}

} // verus!
