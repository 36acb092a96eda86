//! Drawing a line segment into a grid.
//!
//! The pixels of a segment are found by the midpoint rule: starting at one
//! end, each step moves one pixel along the x axis, along the y axis, or
//! along both, whichever keeps the pixel closest to the ideal line, until
//! the other end is reached.

use crate::grid::{Grid, GridView};
use crate::lsd::Point;
use vstd::prelude::*;

verus! {

/// A segment between two pixels, as `(x, y)` pairs.
pub struct Line {
    pub x0: int,
    pub y0: int,
    pub x1: int,
    pub y1: int,
}

/// The absolute difference of two integers.
pub open spec fn distance(a: int, b: int) -> int {
    if a <= b {
        b - a
    } else {
        a - b
    }
}

/// The coordinate `k` steps from `a` towards `b`.
pub open spec fn toward(a: int, b: int, k: int) -> int {
    if a <= b {
        a + k
    } else {
        a - k
    }
}

impl Line {
    /// The segment from `start` to `end`.
    pub open spec fn between(start: Point, end: Point) -> Line {
        Line { x0: start.x as int, y0: start.y as int, x1: end.x as int, y1: end.y as int }
    }

    /// The extent along the x axis.
    pub open spec fn dx(self) -> int {
        distance(self.x0, self.x1)
    }

    /// The extent along the y axis.
    pub open spec fn dy(self) -> int {
        distance(self.y0, self.y1)
    }

    /// `(i, j)` counts steps made so far along each axis.
    pub open spec fn on_track(self, i: int, j: int) -> bool {
        0 <= i <= self.dx() && 0 <= j <= self.dy()
    }

    /// The pixel after `i` steps along x and `j` steps along y.
    pub open spec fn pixel(self, i: int, j: int) -> (int, int) {
        (toward(self.x0, self.x1, i), toward(self.y0, self.y1, j))
    }

    /// After `(i, j)` the next pixel lies one further along x.
    pub open spec fn moves_x(self, i: int, j: int) -> bool {
        2 * (j + 1) * self.dx() >= (2 * i + 1) * self.dy()
    }

    /// After `(i, j)` the next pixel lies one further along y.
    pub open spec fn moves_y(self, i: int, j: int) -> bool {
        (2 * j + 1) * self.dx() <= 2 * (i + 1) * self.dy()
    }

    /// The pixels of the segment from step `(i, j)` on, as `(x, y)`, up to
    /// and including the far end.
    pub open spec fn trace(self, i: int, j: int) -> Seq<(int, int)>
        decreases self.dx() - i + self.dy() - j,
        when self.on_track(i, j)
    {
        if i == self.dx() && j == self.dy() {
            seq![self.pixel(i, j)]
        } else {
            proof {
                self.lemma_step(i, j);
            }
            let ni = if self.moves_x(i, j) {
                i + 1
            } else {
                i
            };
            let nj = if self.moves_y(i, j) {
                j + 1
            } else {
                j
            };
            seq![self.pixel(i, j)] + self.trace(ni, nj)
        }
    }

    /// All pixels of the segment, from its start to its end.
    pub open spec fn pixels(self) -> Seq<(int, int)> {
        self.trace(0, 0)
    }

    /// Before the far end, every step moves along at least one axis, and
    /// never past the end of either.
    pub proof fn lemma_step(self, i: int, j: int)
        requires
            self.on_track(i, j),
            !(i == self.dx() && j == self.dy()),
        ensures
            self.moves_x(i, j) || self.moves_y(i, j),
            self.moves_x(i, j) ==> i < self.dx(),
            self.moves_y(i, j) ==> j < self.dy(),
    {
        let dx = self.dx();
        let dy = self.dy();
        assert(2 * (j + 1) * dx >= (2 * i + 1) * dy || (2 * j + 1) * dx <= 2 * (i + 1) * dy)
            by (nonlinear_arith)
            requires
                0 <= i,
                0 <= j,
                0 <= dx,
                0 <= dy,
        ;
        if i == dx {
            assert(2 * (j + 1) * dx < (2 * i + 1) * dy) by (nonlinear_arith)
                requires
                    i == dx,
                    0 <= j < dy,
                    0 <= dx,
            ;
        }
        if j == dy {
            assert((2 * j + 1) * dx > 2 * (i + 1) * dy) by (nonlinear_arith)
                requires
                    j == dy,
                    0 <= i < dx,
                    0 <= dy,
            ;
        }
    }

    /// From any step on, the segment begins at the pixel of that step, ends
    /// at its far end, and has no more pixels than steps are left plus one.
    pub proof fn law_line_joins_its_ends(self, i: int, j: int)
        requires
            self.on_track(i, j),
        ensures
            self.trace(i, j).len() >= 1,
            self.trace(i, j).len() <= self.dx() - i + self.dy() - j + 1,
            self.trace(i, j)[0] == self.pixel(i, j),
            self.trace(i, j).last() == (self.x1, self.y1),
        decreases self.dx() - i + self.dy() - j,
    {
        if !(i == self.dx() && j == self.dy()) {
            self.lemma_step(i, j);
            let ni = if self.moves_x(i, j) {
                i + 1
            } else {
                i
            };
            let nj = if self.moves_y(i, j) {
                j + 1
            } else {
                j
            };
            self.law_line_joins_its_ends(ni, nj);
        }
    }
}

/// The grid with pixel `p = (x, y)` set to `color`; a pixel outside the
/// grid changes nothing.
pub open spec fn paint(g: GridView, p: (int, int), color: int) -> GridView {
    if g.contains(p.1, p.0) {
        g.update(p.1, p.0, color)
    } else {
        g
    }
}

/// The grid with all of `pixels` painted, first to last.
pub open spec fn paint_all(g: GridView, pixels: Seq<(int, int)>, color: int) -> GridView
    decreases pixels.len(),
{
    if pixels.len() == 0 {
        g
    } else {
        paint(paint_all(g, pixels.drop_last(), color), pixels.last(), color)
    }
}

/// Draws the segment from `start` to `end` into `image`: every pixel of the
/// segment that lies inside the image is set to `color`, and nothing else
/// changes. The ends may lie outside the image.
pub fn draw_line_segment(image: &mut Grid, start: Point, end: Point, color: i32)
    ensures
        final(image)@ == paint_all(old(image)@, Line::between(start, end).pixels(), color as int),
{
    let ghost line = Line::between(start, end);
    let ghost before = image@;
    let (mut x0, mut y0) = (start.x, start.y);
    let (x1, y1) = (end.x, end.y);

    let dx: i128 = if x0 <= x1 {
        (x1 - x0) as i128
    } else {
        (x0 - x1) as i128
    };
    let dy: i128 = if y0 <= y1 {
        -((y1 - y0) as i128)
    } else {
        -((y0 - y1) as i128)
    };
    let forward_x = x0 < x1;
    let forward_y = y0 < y1;
    let mut err: i128 = dx + dy;

    let ghost mut i: int = 0;
    let ghost mut j: int = 0;
    let ghost mut done: Seq<(int, int)> = Seq::empty();
    proof {
        assert(dx >= 0 && dy <= 0);
        assert(err == dx + dy);
        assert(3 * dy <= 2 * err <= 3 * dx);
        assert(done + line.trace(0, 0) =~= line.pixels());
        assert(err == (1 + j) * dx - (1 + i) * (-dy)) by (nonlinear_arith)
            requires
                err == dx + dy,
                i == 0,
                j == 0,
        ;
    }
    loop
        invariant_except_break
            done + line.trace(i, j) == line.pixels(),
            image@ == paint_all(before, done, color as int),
        invariant
            line == Line::between(start, end),
            x1 == end.x,
            y1 == end.y,
            dx == line.dx(),
            dy == -line.dy(),
            0 <= dx <= usize::MAX,
            0 <= -dy <= usize::MAX,
            forward_x == (start.x < end.x),
            forward_y == (start.y < end.y),
            line.on_track(i, j),
            (x0 as int, y0 as int) == line.pixel(i, j),
            err == (1 + j) * dx - (1 + i) * (-dy),
            3 * dy <= 2 * err <= 3 * dx,
        ensures
            image@ == paint_all(before, line.pixels(), color as int),
        decreases line.dx() - i + line.dy() - j,
    {
        let ghost painted = image@;
        let _ = image.set(y0, x0, color);
        proof {
            let p = line.pixel(i, j);
            let next = done.push(p);
            assert(next.drop_last() =~= done);
            assert(image@ == paint(painted, p, color as int));
            assert(image@ == paint_all(before, next, color as int));
        }
        if x0 == x1 && y0 == y1 {
            proof {
                assert(i == line.dx() && j == line.dy());
                assert(done.push(line.pixel(i, j)) =~= done + line.trace(i, j));
                assert(image@ == paint_all(before, line.pixels(), color as int));
            }
            break ;
        }
        proof {
            assert(!(i == line.dx() && j == line.dy()));
            line.lemma_step(i, j);
            let ady = -dy;
            assert((2 * err >= dy) == line.moves_x(i, j)) by (nonlinear_arith)
                requires
                    err == (1 + j) * dx - (1 + i) * ady,
                    dy == -ady,
                    dx == line.dx(),
                    ady == line.dy(),
                    line.moves_x(i, j) == (2 * (j + 1) * line.dx() >= (2 * i + 1) * line.dy()),
            ;
            assert((2 * err <= dx) == line.moves_y(i, j)) by (nonlinear_arith)
                requires
                    err == (1 + j) * dx - (1 + i) * ady,
                    dy == -ady,
                    dx == line.dx(),
                    ady == line.dy(),
                    line.moves_y(i, j) == ((2 * j + 1) * line.dx() <= 2 * (i + 1) * line.dy()),
            ;
        }
        let ghost i0 = i;
        let ghost j0 = j;
        let ghost err0 = err;
        let e2: i128 = 2 * err;
        if e2 >= dy {
            err += dy;
            if forward_x {
                x0 += 1;
            } else {
                x0 -= 1;
            }
            proof {
                i = i + 1;
            }
        }
        if e2 <= dx {
            err += dx;
            if forward_y {
                y0 += 1;
            } else {
                y0 -= 1;
            }
            proof {
                j = j + 1;
            }
        }
        proof {
            let ady = -dy;
            assert(err == (1 + j) * dx - (1 + i) * ady) by (nonlinear_arith)
                requires
                    err0 == (1 + j0) * dx - (1 + i0) * ady,
                    (i == i0 && j == j0 && err == err0) || (i == i0 + 1 && j == j0 && err == err0
                        - ady) || (i == i0 && j == j0 + 1 && err == err0 + dx) || (i == i0 + 1 && j
                        == j0 + 1 && err == err0 - ady + dx),
            ;
            let p = line.pixel(i0, j0);
            assert(line.trace(i0, j0) == seq![p] + line.trace(i, j));
            assert(done.push(p) + line.trace(i, j) =~= done + line.trace(i0, j0));
            done = done.push(p);
        }
    }
}

/// The side of the square that marks a corner.
pub const CORNER_SIZE: usize = 5;

/// Cell `(r, c)` lies in the square of side [`CORNER_SIZE`] centred on the
/// corner `(x, y)`.
pub open spec fn in_square(corner: (usize, usize), r: int, c: int) -> bool {
    &&& corner.0 - CORNER_SIZE / 2 <= c <= corner.0 + CORNER_SIZE / 2
    &&& corner.1 - CORNER_SIZE / 2 <= r <= corner.1 + CORNER_SIZE / 2
}

/// Cell `(r, c)` lies in the square of one of the first `n` corners that
/// are inside the image.
pub open spec fn marked(image: GridView, corners: Seq<(usize, usize)>, n: int, r: int, c: int) -> bool {
    exists|k: int|
        0 <= k < n && image.contains((#[trigger] corners[k]).1 as int, corners[k].0 as int)
            && in_square(corners[k], r, c)
}

/// The image with the squares of the first `n` corners set to `color`.
pub open spec fn with_corners(
    image: GridView,
    corners: Seq<(usize, usize)>,
    n: int,
    color: int,
) -> GridView {
    GridView {
        rows: image.rows,
        cols: image.cols,
        cells: Map::new(
            |k: (int, int)| image.contains(k.0, k.1),
            |k: (int, int)|
                if marked(image, corners, n, k.0, k.1) {
                    color
                } else {
                    image.at(k.0, k.1)
                },
        ),
    }
}

/// `p + d - CORNER_SIZE / 2` where that lies below `limit`.
fn offset(p: usize, d: usize, limit: usize) -> (r: Option<usize>)
    requires
        p < limit,
        d < CORNER_SIZE,
    ensures
        r.is_some() <==> 0 <= p + d - CORNER_SIZE / 2 < limit,
        r matches Some(v) ==> v == p + d - CORNER_SIZE / 2,
{
    let half = CORNER_SIZE / 2;
    if d < half {
        if p >= half - d {
            Some(p - (half - d))
        } else {
            None
        }
    } else if d - half < limit - p {
        Some(p + (d - half))
    } else {
        None
    }
}

/// Sets the part of the square around `(x, y)` that lies inside the image
/// to `color`.
fn draw_square(image: &mut Grid, x: usize, y: usize, color: i32)
    requires
        old(image)@.contains(y as int, x as int),
        old(image)@.wf(),
    ensures
        final(image)@.wf(),
        final(image)@.same_shape(old(image)@),
        forall|r: int, c: int|
            old(image)@.contains(r, c) ==> #[trigger] final(image)@.at(r, c) == if in_square(
                (x, y),
                r,
                c,
            ) {
                color as int
            } else {
                old(image)@.at(r, c)
            },
{
    let (rows, cols) = image.dims();
    let ghost before = image@;
    let mut dy: usize = 0;
    while dy < CORNER_SIZE
        invariant
            0 <= dy <= CORNER_SIZE,
            rows == before.rows,
            cols == before.cols,
            before.contains(y as int, x as int),
            image@.wf(),
            image@.same_shape(before),
            forall|r: int, c: int|
                before.contains(r, c) ==> #[trigger] image@.at(r, c) == if in_square((x, y), r, c)
                    && r < y + dy - CORNER_SIZE / 2 {
                    color as int
                } else {
                    before.at(r, c)
                },
        decreases CORNER_SIZE - dy,
    {
        let mut dx: usize = 0;
        while dx < CORNER_SIZE
            invariant
                0 <= dy < CORNER_SIZE,
                0 <= dx <= CORNER_SIZE,
                rows == before.rows,
                cols == before.cols,
                before.contains(y as int, x as int),
                image@.wf(),
                image@.same_shape(before),
                forall|r: int, c: int|
                    before.contains(r, c) ==> #[trigger] image@.at(r, c) == if in_square(
                        (x, y),
                        r,
                        c,
                    ) && (r < y + dy - CORNER_SIZE / 2 || (r == y + dy - CORNER_SIZE / 2 && c < x
                        + dx - CORNER_SIZE / 2)) {
                        color as int
                    } else {
                        before.at(r, c)
                    },
            decreases CORNER_SIZE - dx,
        {
            let ghost painted = image@;
            match (offset(y, dy, rows), offset(x, dx, cols)) {
                (Some(ny), Some(nx)) => {
                    image.put(ny, nx, color);
                },
                _ => {},
            }
            proof {
                assert forall|r: int, c: int| before.contains(r, c) implies #[trigger] image@.at(
                    r,
                    c,
                ) == if in_square((x, y), r, c) && (r < y + dy - CORNER_SIZE / 2 || (r == y + dy
                    - CORNER_SIZE / 2 && c < x + dx + 1 - CORNER_SIZE / 2)) {
                    color as int
                } else {
                    before.at(r, c)
                } by {
                    assert(painted.at(r, c) == if in_square((x, y), r, c) && (r < y + dy
                        - CORNER_SIZE / 2 || (r == y + dy - CORNER_SIZE / 2 && c < x + dx
                        - CORNER_SIZE / 2)) {
                        color as int
                    } else {
                        before.at(r, c)
                    });
                }
            }
            dx += 1;
        }
        dy += 1;
    }
}

/// Marks corners: around each corner `(x, y)` that lies inside the image,
/// the square of side [`CORNER_SIZE`] is set to `color`, as far as it lies
/// inside the image. Corners outside the image are skipped, and nothing
/// else changes.
pub fn draw_corners(image: &mut Grid, corners: &[(usize, usize)], color: i32)
    ensures
        final(image)@ == with_corners(old(image)@, corners@, corners@.len() as int, color as int),
{
    let (rows, cols) = image.dims();
    let ghost before = image@;
    let mut k: usize = 0;
    while k < corners.len()
        invariant
            0 <= k <= corners@.len(),
            rows == before.rows,
            cols == before.cols,
            before.wf(),
            image@.wf(),
            image@.same_shape(before),
            forall|r: int, c: int|
                before.contains(r, c) ==> #[trigger] image@.at(r, c) == if marked(
                    before,
                    corners@,
                    k as int,
                    r,
                    c,
                ) {
                    color as int
                } else {
                    before.at(r, c)
                },
        decreases corners@.len() - k,
    {
        let (x, y) = corners[k];
        let ghost marked_so_far = image@;
        if x < cols && y < rows {
            draw_square(image, x, y, color);
        }
        proof {
            assert forall|r: int, c: int| before.contains(r, c) implies #[trigger] image@.at(r, c)
                == if marked(before, corners@, k + 1, r, c) {
                color as int
            } else {
                before.at(r, c)
            } by {
                assert(marked_so_far.at(r, c) == if marked(before, corners@, k as int, r, c) {
                    color as int
                } else {
                    before.at(r, c)
                });
                let here = before.contains(y as int, x as int) && in_square((x, y), r, c);
                if here {
                    assert(corners@[k as int] == (x, y));
                    assert(marked(before, corners@, k + 1, r, c));
                } else if marked(before, corners@, k + 1, r, c) {
                    let w = choose|w: int|
                        0 <= w < k + 1 && before.contains(
                            (#[trigger] corners@[w]).1 as int,
                            corners@[w].0 as int,
                        ) && in_square(corners@[w], r, c);
                    assert(w < k);
                    assert(marked(before, corners@, k as int, r, c));
                } else if marked(before, corners@, k as int, r, c) {
                    let w = choose|w: int|
                        0 <= w < k && before.contains(
                            (#[trigger] corners@[w]).1 as int,
                            corners@[w].0 as int,
                        ) && in_square(corners@[w], r, c);
                    assert(marked(before, corners@, k + 1, r, c));
                }
            }
        }
        k += 1;
    }
    proof {
        let wanted = with_corners(before, corners@, corners@.len() as int, color as int);
        assert forall|key: (int, int)| image@.cells.dom().contains(key) implies #[trigger]
            image@.cells[key] == wanted.cells[key] by {
            assert(image@.at(key.0, key.1) == wanted.at(key.0, key.1));
        }
        assert(image@ =~= wanted);
    }
}

} // verus!
