//! The FAST corner test: a pixel is a corner when nine contiguous pixels of
//! the sixteen on a circle of radius three around it are all brighter, or
//! all darker, than the pixel by more than a threshold.

use crate::grid::{Grid, GridView};
use vstd::prelude::*;

verus! {

/// A corner with the largest threshold at which it is still detected.
#[derive(Debug, Clone, Copy, PartialEq, Eq, Structural)]
pub struct Corner {
    pub x: u32,
    pub y: u32,
    pub score: u8,
}

impl Corner {
    pub fn new(x: u32, y: u32, score: u8) -> (c: Corner)
        ensures
            c == (Corner { x, y, score }),
    {
        Corner { x, y, score }
    }
}

/// Variants of the corner test.
#[derive(Debug, Clone, Copy, PartialEq, Eq, Structural)]
pub enum Fast {
    /// Corners require a section of length as least nine.
    Nine,
}

/// Whether a circle pixel of value `v` counts: brighter than the threshold
/// when `bright`, darker than it otherwise.
pub open spec fn passes(v: int, threshold: int, bright: bool) -> bool {
    if bright {
        v > threshold
    } else {
        v < threshold
    }
}

/// Which of the sixteen circle pixels count.
pub open spec fn flags(circle: Seq<i32>, threshold: int, bright: bool) -> Seq<bool> {
    Seq::new(16, |i: int| passes(circle[i] as int, threshold, bright))
}

/// The `len` positions from `start` on, going round the circle, all count.
pub open spec fn run_at(f: Seq<bool>, start: int, len: int) -> bool {
    forall|j: int| 0 <= j < len ==> #[trigger] f[(start + j) % 16]
}

/// Somewhere on the circle, `len` contiguous positions all count.
pub open spec fn has_run(f: Seq<bool>, len: int) -> bool {
    len <= 16 && exists|start: int| 0 <= start < 16 && #[trigger] run_at(f, start, len)
}

/// At least one of the sixteen circle pixels does not count.
pub open spec fn some_fails(f: Seq<bool>) -> bool {
    exists|i: int| 0 <= i < 16 && !#[trigger] f[i]
}

/// True if the circle has a contiguous section of at least the given
/// length, all of whose pixels count in the sense of [`passes`]. The
/// section may run over the end of the array into its beginning. A length
/// of zero must not be asked for on a circle whose pixels all count.
pub fn search_span(circle: &[i32; 16], length: u8, threshold: i64, bright: bool) -> (found: bool)
    requires
        length == 0 ==> some_fails(flags(circle@, threshold as int, bright)),
    ensures
        found == has_run(flags(circle@, threshold as int, bright), length as int),
{
    if length > 16 {
        return false;
    }
    if length == 0 {
        assert(run_at(flags(circle@, threshold as int, bright), 0, 0));
        return true;
    }
    let ghost f = flags(circle@, threshold as int, bright);
    let mut nb_ok: u8 = 0;
    let mut nb_ok_start: Option<u8> = None;
    let mut i: usize = 0;
    while i < 16
        invariant
            0 <= i <= 16,
            1 <= length <= 16,
            f == flags(circle@, threshold as int, bright),
            nb_ok <= i,
            nb_ok < length,
            forall|j: int| i - nb_ok <= j < i ==> #[trigger] f[j],
            nb_ok < i ==> !f[i - nb_ok - 1],
            nb_ok_start is None ==> nb_ok == i,
            nb_ok_start matches Some(s) ==> s < i && !f[s as int] && forall|j: int|
                0 <= j < s ==> #[trigger] f[j],
            forall|s: int| 0 <= s && s + length <= i ==> !#[trigger] run_at(f, s, length as int),
        decreases 16 - i,
    {
        let c = circle[i];
        let ok = if bright {
            c as i64 > threshold
        } else {
            (c as i64) < threshold
        };
        assert(ok == f[i as int]);
        if ok {
            nb_ok += 1;
            if nb_ok == length {
                proof {
                    let s = i + 1 - length;
                    assert forall|j: int| 0 <= j < length implies #[trigger] f[(s + j) % 16] by {
                        assert((s + j) % 16 == s + j);
                        assert(f[s + j]);
                    }
                    assert(run_at(f, s, length as int));
                }
                return true;
            }
        } else {
            if nb_ok_start.is_none() {
                nb_ok_start = Some(nb_ok);
            }
            nb_ok = 0;
        }
        proof {
            // No section of the full length ends at `i`: the pixel just
            // before the current run of counting pixels does not count.
            let s = i + 1 - length;
            if s >= 0 {
                let bad = i - nb_ok;
                assert(s <= bad <= i);
                assert(!f[bad]);
                assert((s + (bad - s)) % 16 == bad);
                assert(!run_at(f, s, length as int));
            }
        }
        i += 1;
    }
    let start = nb_ok_start.unwrap();
    let found = nb_ok + start >= length;
    proof {
        if found {
            let s = (16 - nb_ok) % 16;
            assert forall|j: int| 0 <= j < length implies #[trigger] f[(s + j) % 16] by {
                let k = (s + j) % 16;
                if j < nb_ok {
                    assert(k == 16 - nb_ok + j);
                    assert(f[k]);
                } else {
                    assert(k == j - nb_ok);
                    assert(f[k]);
                }
            }
            assert(run_at(f, s, length as int));
        } else {
            assert forall|s: int| 0 <= s < 16 implies !#[trigger] run_at(f, s, length as int) by {
                if s + length > 16 {
                    // A section from `s` would cover the end of the array
                    // and its beginning; one of the two is too short.
                    if 16 - s > nb_ok {
                        let bad = 16 - nb_ok - 1;
                        assert(!f[bad]);
                        assert((s + (bad - s)) % 16 == bad);
                    } else {
                        let j = 16 - s + start;
                        assert(0 <= j < length);
                        assert((s + j) % 16 == start);
                        assert(!f[start as int]);
                    }
                }
            }
        }
    }
    found
}

/// True if the circle has a contiguous section of at least the given
/// length, all of whose pixels have intensities strictly greater than the
/// threshold.
pub fn has_bright_span(circle: &[i32; 16], length: u8, threshold: i64) -> (found: bool)
    requires
        length == 0 ==> some_fails(flags(circle@, threshold as int, true)),
    ensures
        found == has_run(flags(circle@, threshold as int, true), length as int),
{
    search_span(circle, length, threshold, true)
}

/// True if the circle has a contiguous section of at least the given length, all
/// of whose pixels have intensities strictly less than the threshold.
pub fn has_dark_span(circle: &[i32; 16], length: u8, threshold: i64) -> (found: bool)
    requires
        length == 0 ==> some_fails(flags(circle@, threshold as int, false)),
    ensures
        found == has_run(flags(circle@, threshold as int, false), length as int),
{
    search_span(circle, length, threshold, false)
}

/// The sixteen positions of the circle around a pixel, as `(dx, dy)` from
/// the centre. They go round clockwise from the top, except that position 4
/// holds the pixel three below the centre and position 8 the pixel three
/// to its right.
pub open spec fn circle_offset(k: int) -> (int, int) {
    if k == 0 {
        (0, -3)
    } else if k == 1 {
        (1, -3)
    } else if k == 2 {
        (2, -2)
    } else if k == 3 {
        (3, -1)
    } else if k == 4 {
        (0, 3)
    } else if k == 5 {
        (3, 1)
    } else if k == 6 {
        (2, 2)
    } else if k == 7 {
        (1, 3)
    } else if k == 8 {
        (3, 0)
    } else if k == 9 {
        (-1, 3)
    } else if k == 10 {
        (-2, 2)
    } else if k == 11 {
        (-3, 1)
    } else if k == 12 {
        (-3, 0)
    } else if k == 13 {
        (-3, -1)
    } else if k == 14 {
        (-2, -2)
    } else {
        (-1, -3)
    }
}

/// The values on the circle around `(y, x)`.
pub open spec fn circle_at(image: GridView, y: int, x: int) -> Seq<i32> {
    Seq::new(16, |k: int| image.at(y + circle_offset(k).1, x + circle_offset(k).0) as i32)
}

/// The whole circle around `(y, x)` lies inside the image, and the
/// coordinates leave room for it in a `u32`.
pub open spec fn circle_fits(image: GridView, y: int, x: int) -> bool {
    &&& 3 <= x < u32::MAX - 3
    &&& 3 <= y < u32::MAX - 3
    &&& x + 3 < image.cols
    &&& y + 3 < image.rows
}

/// `(y, x)` is a corner at the given threshold: its circle fits, and nine
/// contiguous circle pixels are all brighter than the centre by more than
/// the threshold, or all darker than it by more than the threshold.
pub open spec fn is_corner(image: GridView, threshold: int, y: int, x: int) -> bool {
    &&& circle_fits(image, y, x)
    &&& (has_run(flags(circle_at(image, y, x), image.at(y, x) + threshold, true), 9) || has_run(
        flags(circle_at(image, y, x), image.at(y, x) - threshold, false),
        9,
    ))
}

/// The score of a pixel: the largest threshold from `top` down to
/// `threshold + 1` at which it is a corner, or `threshold` if there is
/// none.
pub open spec fn corner_score(image: GridView, threshold: int, y: int, x: int, top: int) -> int
    decreases top - threshold,
{
    if top <= threshold {
        threshold
    } else if is_corner(image, top, y, x) {
        top
    } else {
        corner_score(image, threshold, y, x, top - 1)
    }
}

/// A member of a run counts.
proof fn lemma_run_member(f: Seq<bool>, start: int, len: int, j: int)
    requires
        run_at(f, start, len),
        0 <= j < len,
    ensures
        f[(start + j) % 16],
{
}

/// A run of nine covers two neighbouring compass points of the circle.
proof fn lemma_run_covers_compass(f: Seq<bool>)
    requires
        has_run(f, 9),
    ensures
        (f[0] && f[4]) || (f[4] && f[8]) || (f[8] && f[12]) || (f[12] && f[0]),
{
    let s = choose|start: int| 0 <= start < 16 && #[trigger] run_at(f, start, 9);
    let a = ((s + 3) / 4) * 4;
    lemma_run_member(f, s, 9, a - s);
    lemma_run_member(f, s, 9, a - s + 4);
}

/// Where every pixel that counts in `f` counts in `g`, a run in `f` is a
/// run in `g`.
proof fn lemma_run_weaker(f: Seq<bool>, g: Seq<bool>, len: int)
    requires
        f.len() == 16,
        g.len() == 16,
        forall|i: int| 0 <= i < 16 && f[i] ==> g[i],
        has_run(f, len),
    ensures
        has_run(g, len),
{
    let s = choose|start: int| 0 <= start < 16 && #[trigger] run_at(f, start, len);
    assert forall|j: int| 0 <= j < len implies #[trigger] g[(s + j) % 16] by {
        lemma_run_member(f, s, len, j);
    }
    assert(run_at(g, s, len));
}

/// A corner at a threshold is a corner at every lower threshold.
pub proof fn lemma_corner_at_lower_threshold(image: GridView, low: int, high: int, y: int, x: int)
    requires
        low <= high,
        is_corner(image, high, y, x),
    ensures
        is_corner(image, low, y, x),
{
    let circle = circle_at(image, y, x);
    let c = image.at(y, x);
    if has_run(flags(circle, c + high, true), 9) {
        lemma_run_weaker(flags(circle, c + high, true), flags(circle, c + low, true), 9);
    } else {
        lemma_run_weaker(flags(circle, c - high, false), flags(circle, c - low, false), 9);
    }
}

/// What pins the score down: no corner above it, and a corner at it unless
/// it is the threshold itself.
proof fn lemma_score_is(image: GridView, threshold: int, y: int, x: int, top: int, score: int)
    requires
        threshold <= score <= top,
        forall|t: int| score < t <= top ==> !is_corner(image, t, y, x),
        score > threshold ==> is_corner(image, score, y, x),
    ensures
        corner_score(image, threshold, y, x, top) == score,
    decreases top - threshold,
{
    if top > threshold && top != score {
        lemma_score_is(image, threshold, y, x, top - 1, score);
    }
}

/// The sixteen pixels of the circle around `(x, y)`, given the four that
/// stand at positions 0, 4, 8 and 12.
fn get_circle(image: &Grid, x: u32, y: u32, p0: i32, p4: i32, p8: i32, p12: i32) -> (circle: [i32;
    16])
    requires
        circle_fits(image@, y as int, x as int),
        p0 == image@.at(y - 3, x as int),
        p4 == image@.at(y + 3, x as int),
        p8 == image@.at(y as int, x + 3),
        p12 == image@.at(y as int, x - 3),
    ensures
        circle@ == circle_at(image@, y as int, x as int),
{
    let x = x as usize;
    let y = y as usize;
    let circle = [
        p0,
        image.cell(y - 3, x + 1),
        image.cell(y - 2, x + 2),
        image.cell(y - 1, x + 3),
        p4,
        image.cell(y + 1, x + 3),
        image.cell(y + 2, x + 2),
        image.cell(y + 3, x + 1),
        p8,
        image.cell(y + 3, x - 1),
        image.cell(y + 2, x - 2),
        image.cell(y + 1, x - 3),
        p12,
        image.cell(y - 1, x - 3),
        image.cell(y - 2, x - 2),
        image.cell(y - 3, x - 1),
    ];
    assert(circle@ =~= circle_at(image@, y as int, x as int));
    circle
}

/// Whether the pixel in column `x`, row `y` is a corner at the given
/// threshold. Pixels closer than three to the border are never corners.
pub fn is_corner_fast9(image: &Grid, threshold: u8, x: u32, y: u32) -> (corner: bool)
    ensures
        corner == is_corner(image@, threshold as int, y as int, x as int),
{
    let (height, width) = image.dims();
    if x >= u32::MAX - 3 || y >= u32::MAX - 3 || x < 3 || y < 3 || width <= x as usize + 3 || height
        <= y as usize + 3 {
        return false;
    }
    let xu = x as usize;
    let yu = y as usize;
    let c = image.cell(yu, xu);
    let low_thresh: i64 = c as i64 - threshold as i64;
    let high_thresh: i64 = c as i64 + threshold as i64;

    let p0 = image.cell(yu - 3, xu);
    let p4 = image.cell(yu + 3, xu);
    let p8 = image.cell(yu, xu + 3);
    let p12 = image.cell(yu, xu - 3);

    let above = (p0 as i64 > high_thresh && p4 as i64 > high_thresh) || (p4 as i64 > high_thresh
        && p8 as i64 > high_thresh) || (p8 as i64 > high_thresh && p12 as i64 > high_thresh) || (p12
        as i64 > high_thresh && p0 as i64 > high_thresh);

    let below = ((p0 as i64) < low_thresh && (p4 as i64) < low_thresh) || ((p4 as i64) < low_thresh
        && (p8 as i64) < low_thresh) || ((p8 as i64) < low_thresh && (p12 as i64) < low_thresh) || (
    (p12 as i64) < low_thresh && (p0 as i64) < low_thresh);

    proof {
        let circle = circle_at(image@, y as int, x as int);
        let bright = flags(circle, high_thresh as int, true);
        let dark = flags(circle, low_thresh as int, false);
        assert(circle[0] == p0 && circle[4] == p4 && circle[8] == p8 && circle[12] == p12);
        if has_run(bright, 9) {
            lemma_run_covers_compass(bright);
            assert(above);
        }
        if has_run(dark, 9) {
            lemma_run_covers_compass(dark);
            assert(below);
        }
    }
    if !above && !below {
        return false;
    }
    let pixels = get_circle(image, x, y, p0, p4, p8, p12);

    (above && has_bright_span(&pixels, 9, high_thresh)) || (below && has_dark_span(
        &pixels,
        9,
        low_thresh,
    ))
}

/// The score of the pixel in column `x`, row `y`: the largest threshold
/// above `threshold` at which it is still a corner, found by bisection, or
/// `threshold` itself if it is a corner at no larger one.
pub fn fast_corner_score(image: &Grid, threshold: u8, x: u32, y: u32, variant: Fast) -> (score: u8)
    ensures
        score == corner_score(image@, threshold as int, y as int, x as int, 255),
{
    let mut max: u8 = 255u8;
    let mut min: u8 = threshold;
    loop
        invariant
            threshold <= min <= max <= 255,
            forall|t: int| max < t <= 255 ==> !is_corner(image@, t, y as int, x as int),
            min > threshold ==> is_corner(image@, min as int, y as int, x as int),
        decreases max - min,
    {
        if max == min {
            proof {
                lemma_score_is(image@, threshold as int, y as int, x as int, 255, max as int);
            }
            return max;
        }
        let mean: u8 = ((max as u16 + min as u16) / 2u16) as u8;
        let probe: u8 = if max == min + 1 {
            max
        } else {
            mean
        };

        let corner_at_probe = match variant {
            Fast::Nine => is_corner_fast9(image, probe, x, y),
        };

        if corner_at_probe {
            min = probe;
        } else {
            proof {
                assert forall|t: int| probe <= t <= 255 implies !is_corner(
                    image@,
                    t,
                    y as int,
                    x as int,
                ) by {
                    if is_corner(image@, t, y as int, x as int) {
                        lemma_corner_at_lower_threshold(
                            image@,
                            probe as int,
                            t,
                            y as int,
                            x as int,
                        );
                    }
                }
            }
            max = probe - 1;
        }
    }
}

/// The corners among the first `n` pixels in raster order, with their
/// scores, in raster order.
pub open spec fn corners(image: GridView, threshold: int, n: int) -> Seq<Corner>
    decreases n,
{
    if n <= 0 {
        Seq::empty()
    } else {
        let prev = corners(image, threshold, n - 1);
        let y = (n - 1) / image.cols;
        let x = (n - 1) % image.cols;
        if is_corner(image, threshold, y, x) {
            prev.push(
                Corner {
                    x: x as u32,
                    y: y as u32,
                    score: corner_score(image, threshold, y, x, 255) as u8,
                },
            )
        } else {
            prev
        }
    }
}

/// A score lies between the threshold and the top.
proof fn lemma_score_bounds(image: GridView, threshold: int, y: int, x: int, top: int)
    requires
        threshold <= top,
    ensures
        threshold <= corner_score(image, threshold, y, x, top) <= top,
    decreases top - threshold,
{
    if top > threshold && !is_corner(image, top, y, x) {
        lemma_score_bounds(image, threshold, y, x, top - 1);
    }
}

/// All corners of the image at the given threshold, row by row, each with
/// its score.
pub fn float_corners_fast9(image: &Grid, threshold: u8) -> (found: Vec<Corner>)
    ensures
        found@ == corners(image@, threshold as int, image@.area()),
{
    let (height, width) = image.dims();
    let mut found: Vec<Corner> = Vec::new();
    let mut y: usize = 0;
    while y < height
        invariant
            0 <= y <= height,
            height == image@.rows,
            width == image@.cols,
            found@ == corners(image@, threshold as int, y * width),
        decreases height - y,
    {
        let mut x: usize = 0;
        while x < width
            invariant
                0 <= y < height,
                0 <= x <= width,
                height == image@.rows,
                width == image@.cols,
                found@ == corners(image@, threshold as int, y * width + x),
            decreases width - x,
        {
            proof {
                crate::grid::lemma_raster_position(height as int, width as int, y as int, x as int);
                crate::grid::lemma_raster_index(width as int, y as int, x as int);
                lemma_score_bounds(image@, threshold as int, y as int, x as int, 255);
            }
            if x <= u32::MAX as usize && y <= u32::MAX as usize && is_corner_fast9(
                image,
                threshold,
                x as u32,
                y as u32,
            ) {
                let score = fast_corner_score(image, threshold, x as u32, y as u32, Fast::Nine);
                found.push(Corner::new(x as u32, y as u32, score));
            }
            x += 1;
        }
        proof {
            assert(y * width + width == (y + 1) * width) by (nonlinear_arith);
        }
        y += 1;
    }
    found
}

} // verus!
