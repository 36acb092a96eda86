//! The integer side of false-alarm validation.
//!
//! A candidate of `k` pixels and length `l` in an image of `n` pixels is
//! scored by `n` times the upper binomial tail, the sum over `i` in
//! `k ..= n` of `C(n, i) * p^i * (1 - p)^(n - i)` with `p = l / n`. The
//! score itself is a real number and is computed outside this crate. What
//! can be decided exactly on integers is decided here: over which indices
//! the sum runs, and whether `p` leaves `[0, 1]`.

use vstd::prelude::*;

verus! {

/// The indices `i` over which the tail sum runs, as `(first, last)`, or
/// `None` where the range is empty.
pub open spec fn tail_range(num_points: int, total_pixels: int) -> Option<(int, int)> {
    if num_points > total_pixels {
        None
    } else {
        Some((num_points, total_pixels))
    }
}

/// `p = sqrt(length_sq) / total_pixels` lies in `[0, 1]`.
pub open spec fn probability_in_range(length_sq: int, total_pixels: int) -> bool {
    total_pixels > 0 && 0 <= length_sq <= total_pixels * total_pixels
}

/// The first and last index of the tail sum for a cluster of `num_points`
/// pixels in an image of `total_pixels`. With more points than pixels the
/// sum has no term, the tail mass is zero and so is the score: the result
/// is `None`, and no index past `total_pixels` is ever handed out.
pub fn nfa_tail_range(num_points: usize, total_pixels: usize) -> (r: Option<(usize, usize)>)
    ensures
        r.is_some() <==> num_points <= total_pixels,
        r matches Some(range) ==> tail_range(num_points as int, total_pixels as int) == Some(
            (range.0 as int, range.1 as int),
        ),
{
    if num_points > total_pixels {
        None
    } else {
        Some((num_points, total_pixels))
    }
}

/// Whether the success probability `p = length / total_pixels` of a
/// candidate lies in `[0, 1]`, decided on the squared length. Where it does
/// not (a segment longer than the image has pixels, or an image without
/// pixels), the caller must clamp `p` or reject the candidate.
pub fn nfa_probability_in_range(length_sq: u128, total_pixels: usize) -> (ok: bool)
    ensures
        ok == probability_in_range(length_sq as int, total_pixels as int),
{
    if total_pixels == 0 {
        return false;
    }
    let n = total_pixels as u128;
    assert(n * n <= u128::MAX) by (nonlinear_arith)
        requires
            0 <= n <= 0xffff_ffff_ffff_ffff,
    ;
    length_sq <= n * n
}

/// The tail sum stays in bounds at its boundary: for a cluster that fills
/// the whole image the sum has exactly the one term `i = total_pixels`, and
/// one point more empties it.
pub proof fn law_tail_range_at_boundary(total_pixels: int)
    requires
        0 <= total_pixels,
    ensures
        tail_range(total_pixels, total_pixels) == Some((total_pixels, total_pixels)),
        tail_range(total_pixels + 1, total_pixels) is None,
{
}

/// Every index of the tail sum is a count of pixels of the image.
pub proof fn law_tail_indices_in_bounds(num_points: int, total_pixels: int, i: int)
    requires
        tail_range(num_points, total_pixels) matches Some(range) && range.0 <= i <= range.1,
    ensures
        num_points <= i <= total_pixels,
{
}

} // verus!
