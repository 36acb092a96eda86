//! Picking corners from a corner response map.
//!
//! The response itself is computed elsewhere; what is decided here is which
//! pixels stand out: those whose response exceeds a threshold and the
//! responses of the four pixels next to them.

use crate::grid::{Grid, GridView};
use vstd::prelude::*;

verus! {

/// The Harris corner detector.
#[derive(Debug, Clone, Copy, PartialEq, Eq, Structural)]
pub struct Harris();

/// `(y, x)` is an inner pixel whose response exceeds the threshold and the
/// responses above, below, left and right of it.
pub open spec fn is_peak(r: GridView, threshold: int, y: int, x: int) -> bool {
    &&& 1 <= y < r.rows - 1
    &&& 1 <= x < r.cols - 1
    &&& r.at(y, x) > threshold
    &&& r.at(y, x) > r.at(y - 1, x)
    &&& r.at(y, x) > r.at(y + 1, x)
    &&& r.at(y, x) > r.at(y, x - 1)
    &&& r.at(y, x) > r.at(y, x + 1)
}

/// The peaks among the first `n` pixels in raster order, as `(x, y)`, in
/// raster order.
pub open spec fn peaks(r: GridView, threshold: int, n: int) -> Seq<(usize, usize)>
    decreases n,
{
    if n <= 0 {
        Seq::empty()
    } else {
        let prev = peaks(r, threshold, n - 1);
        let y = (n - 1) / r.cols;
        let x = (n - 1) % r.cols;
        if is_peak(r, threshold, y, x) {
            prev.push((x as usize, y as usize))
        } else {
            prev
        }
    }
}

impl Harris {
    /// The corners of a response map: every inner pixel whose response is
    /// above `threshold` and strictly above its four direct neighbours, as
    /// `(x, y)`, row by row. Pixels on the border are never corners.
    pub fn non_maximum_suppression(r: &Grid, threshold: i32) -> (corners: Vec<(usize, usize)>)
        ensures
            corners@ == peaks(r@, threshold as int, r@.area()),
    {
        let (height, width) = r.dims();
        let mut corners: Vec<(usize, usize)> = Vec::new();
        let mut y: usize = 0;
        while y < height
            invariant
                0 <= y <= height,
                height == r@.rows,
                width == r@.cols,
                corners@ == peaks(r@, threshold as int, y * width),
            decreases height - y,
        {
            let mut x: usize = 0;
            while x < width
                invariant
                    0 <= y < height,
                    0 <= x <= width,
                    height == r@.rows,
                    width == r@.cols,
                    corners@ == peaks(r@, threshold as int, y * width + x),
                decreases width - x,
            {
                proof {
                    crate::grid::lemma_raster_position(
                        height as int,
                        width as int,
                        y as int,
                        x as int,
                    );
                    crate::grid::lemma_raster_index(width as int, y as int, x as int);
                }
                if 1 <= y && y + 1 < height && 1 <= x && x + 1 < width {
                    let v = r.cell(y, x);
                    if v > threshold && v > r.cell(y - 1, x) && v > r.cell(y + 1, x) && v > r.cell(
                        y,
                        x - 1,
                    ) && v > r.cell(y, x + 1) {
                        corners.push((x, y));
                    }
                }
                x += 1;
            }
            proof {
                assert(y * width + width == (y + 1) * width) by (nonlinear_arith);
            }
            y += 1;
        }
        corners
    }
}

/// A rectangle of pixels, both corners included.
#[derive(Debug, Clone, Copy, PartialEq, Eq, Structural)]
pub struct Window {
    pub x1: usize,
    pub y1: usize,
    pub x2: usize,
    pub y2: usize,
}

/// The smaller of two integers.
pub open spec fn least(a: int, b: int) -> int {
    if a <= b {
        a
    } else {
        b
    }
}

/// The larger of two integers.
pub open spec fn greatest(a: int, b: int) -> int {
    if a >= b {
        a
    } else {
        b
    }
}

impl Harris {
    /// The window of `window_size / 2` pixels to each side of `(x, y)`, cut
    /// down to an image of `width` x `height` pixels. The image must not be
    /// empty.
    pub fn window(x: usize, y: usize, window_size: usize, width: usize, height: usize) -> (w:
        Window)
        requires
            width >= 1,
            height >= 1,
        ensures
            w.x1 == greatest(x - window_size / 2, 0),
            w.y1 == greatest(y - window_size / 2, 0),
            w.x2 == least(x + window_size / 2, width - 1),
            w.y2 == least(y + window_size / 2, height - 1),
    {
        let half_size = window_size / 2;
        let x1 = if x >= half_size {
            x - half_size
        } else {
            0
        };
        let y1 = if y >= half_size {
            y - half_size
        } else {
            0
        };
        let x2 = match x.checked_add(half_size) {
            Some(right) => if right < width {
                right
            } else {
                width - 1
            },
            None => width - 1,
        };
        let y2 = match y.checked_add(half_size) {
            Some(bottom) => if bottom < height {
                bottom
            } else {
                height - 1
            },
            None => height - 1,
        };
        Window { x1, y1, x2, y2 }
    }
}

} // verus!
