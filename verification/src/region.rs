//! Region growing: grouping connected pixels of similar gradient direction
//! into labelled clusters.
//!
//! A label grid holds `0` for a pixel that belongs to no cluster yet and the
//! cluster's id otherwise. Growing a region from a seed labels every
//! unlabelled pixel that can be reached from the seed through 8-connected
//! unlabelled pixels whose direction is within the tolerance of the *seed's*
//! direction. The comparison is the plain absolute difference of the two
//! direction values, not a circular one.

use crate::grid::{Grid, GridView};
use vstd::prelude::*;

verus! {

/// Two distinct pixels touch, by an edge or by a corner.
pub open spec fn adjacent(a: (int, int), b: (int, int)) -> bool {
    &&& a != b
    &&& -1 <= a.0 - b.0 <= 1
    &&& -1 <= a.1 - b.1 <= 1
}

/// The absolute difference of `a` and `b` is at most `tol`.
pub open spec fn within_tolerance(a: int, b: int, tol: int) -> bool {
    -tol <= a - b <= tol
}

/// One growth step: the label grid before it, the direction grid, the seed
/// pixel as `(row, column)`, the id to hand out and the direction tolerance.
pub struct Growth {
    pub labels: GridView,
    pub dir: GridView,
    pub seed: (int, int),
    pub id: int,
    pub tol: int,
}

impl Growth {
    /// The direction of `p` is within the tolerance of the seed's.
    pub open spec fn aligned(self, p: (int, int)) -> bool {
        within_tolerance(self.dir.at(p.0, p.1), self.dir.at(self.seed.0, self.seed.1), self.tol)
    }

    /// `p` may join the region: it lies in the grid, carries no label yet,
    /// and is the seed itself or aligned with it.
    pub open spec fn joinable(self, p: (int, int)) -> bool {
        &&& self.labels.contains(p.0, p.1)
        &&& self.labels.at(p.0, p.1) == 0
        &&& (p == self.seed || self.aligned(p))
    }

    /// `path` starts at the seed, moves between touching pixels and visits
    /// joinable pixels only.
    pub open spec fn is_walk(self, path: Seq<(int, int)>) -> bool {
        &&& path.len() > 0
        &&& path[0] == self.seed
        &&& forall|i: int| 0 <= i < path.len() ==> self.joinable(#[trigger] path[i])
        &&& forall|i: int| 0 < i < path.len() ==> adjacent(path[i - 1], #[trigger] path[i])
    }

    /// Some walk leads from the seed to `p`.
    pub open spec fn reaches(self, p: (int, int)) -> bool {
        exists|path: Seq<(int, int)>| #[trigger] self.is_walk(path) && path.last() == p
    }

    /// The label grid after the step: every reached pixel carries the id,
    /// every other pixel keeps its label.
    pub open spec fn result(self) -> GridView {
        GridView {
            rows: self.labels.rows,
            cols: self.labels.cols,
            cells: Map::new(
                |k: (int, int)| self.labels.contains(k.0, k.1),
                |k: (int, int)|
                    if self.reaches(k) {
                        self.id
                    } else {
                        self.labels.at(k.0, k.1)
                    },
            ),
        }
    }

    /// `p` has been given the id during this step.
    pub open spec fn claimed(self, now: GridView, p: (int, int)) -> bool {
        self.labels.at(p.0, p.1) == 0 && now.at(p.0, p.1) == self.id
    }

    /// `p` waits on the work list, which holds pixels as `(column, row)`.
    pub open spec fn pending(stack: Seq<(usize, usize)>, p: (int, int)) -> bool {
        exists|i: int| 0 <= i < stack.len() && (#[trigger] stack[i]).1 == p.0 && stack[i].0 == p.1
    }

    /// A joinable pixel is claimed or waits on the work list.
    pub open spec fn settled(self, now: GridView, stack: Seq<(usize, usize)>, p: (int, int)) -> bool {
        self.joinable(p) ==> self.claimed(now, p) || Self::pending(stack, p)
    }

    /// Whatever touches the claimed pixel `p` is settled.
    pub open spec fn link_settled(
        self,
        now: GridView,
        stack: Seq<(usize, usize)>,
        p: (int, int),
        n: (int, int),
    ) -> bool {
        self.claimed(now, p) && adjacent(p, n) ==> self.settled(now, stack, n)
    }

    /// Labels only ever change from `0` to the id, and only on reached pixels.
    pub open spec fn sound(self, now: GridView) -> bool {
        &&& now.same_shape(self.labels)
        &&& forall|y: int, x: int|
            self.labels.contains(y, x) ==> #[trigger] now.at(y, x) == self.labels.at(y, x) || (
            self.claimed(now, (y, x)) && self.reaches((y, x)))
    }

    /// Every entry of the work list lies in the grid and, where it was
    /// unlabelled at the start, is reached.
    pub open spec fn stack_sound(self, stack: Seq<(usize, usize)>) -> bool {
        forall|i: int|
            0 <= i < stack.len() ==> {
                let e = #[trigger] stack[i];
                &&& self.labels.contains(e.1 as int, e.0 as int)
                &&& (self.labels.at(e.1 as int, e.0 as int) == 0 ==> self.reaches(
                    (e.1 as int, e.0 as int),
                ))
            }
    }

    /// The claimed pixels are closed under joinable neighbours, up to what
    /// still waits on the work list.
    pub open spec fn closed(self, now: GridView, stack: Seq<(usize, usize)>) -> bool {
        &&& self.settled(now, stack, self.seed)
        &&& forall|p: (int, int), n: (int, int)| #[trigger] self.link_settled(now, stack, p, n)
    }

    /// The seed is reached as soon as it may join.
    pub proof fn lemma_seed_reached(self)
        requires
            self.joinable(self.seed),
        ensures
            self.reaches(self.seed),
    {
        let path = seq![self.seed];
        assert(self.is_walk(path));
        assert(path.last() == self.seed);
    }

    /// A joinable pixel next to a reached one is reached.
    pub proof fn lemma_reach_step(self, p: (int, int), n: (int, int))
        requires
            self.reaches(p),
            adjacent(p, n),
            self.joinable(n),
        ensures
            self.reaches(n),
    {
        let path = choose|path: Seq<(int, int)>| #[trigger] self.is_walk(path) && path.last() == p;
        let longer = path.push(n);
        assert forall|i: int| 0 <= i < longer.len() implies self.joinable(
            #[trigger] longer[i],
        ) by {
            if i < path.len() {
                assert(longer[i] == path[i]);
            }
        }
        assert forall|i: int| 0 < i < longer.len() implies adjacent(
            longer[i - 1],
            #[trigger] longer[i],
        ) by {
            if i < path.len() {
                assert(longer[i] == path[i]);
                assert(longer[i - 1] == path[i - 1]);
            }
        }
        assert(self.is_walk(longer));
        assert(longer.last() == n);
    }

    /// Reached pixels are joinable.
    pub proof fn lemma_reached_joinable(self, p: (int, int))
        requires
            self.reaches(p),
        ensures
            self.joinable(p),
            self.joinable(self.seed),
    {
        let path = choose|path: Seq<(int, int)>| #[trigger] self.is_walk(path) && path.last() == p;
        assert(self.joinable(path[path.len() - 1]));
        assert(self.joinable(path[0]));
    }

    proof fn lemma_walk_claimed(self, now: GridView, path: Seq<(int, int)>, i: int)
        requires
            self.closed(now, Seq::empty()),
            self.is_walk(path),
            0 <= i < path.len(),
        ensures
            self.claimed(now, path[i]),
        decreases i,
    {
        assert(!Self::pending(Seq::empty(), path[i]));
        if i == 0 {
            assert(self.joinable(path[0]));
            assert(self.settled(now, Seq::empty(), self.seed));
        } else {
            self.lemma_walk_claimed(now, path, i - 1);
            assert(self.link_settled(now, Seq::empty(), path[i - 1], path[i]));
            assert(adjacent(path[i - 1], path[i]));
            assert(self.joinable(path[i]));
        }
    }

    /// Once the work list is empty, a sound and closed labelling is the
    /// result of the step.
    pub proof fn lemma_finished(self, now: GridView)
        requires
            self.sound(now),
            self.closed(now, Seq::empty()),
            self.id != 0,
            now.wf(),
        ensures
            now == self.result(),
    {
        assert forall|k: (int, int)| self.labels.contains(k.0, k.1) implies now.cells[k]
            == self.result().cells[k] by {
            if self.reaches(k) {
                let path = choose|path: Seq<(int, int)>| #[trigger]
                    self.is_walk(path) && path.last() == k;
                self.lemma_walk_claimed(now, path, path.len() - 1);
            } else {
                assert(now.at(k.0, k.1) == self.labels.at(k.0, k.1));
            }
        }
        assert(now =~= self.result());
    }
}

/// The pixel `k` steps into the 3 x 3 block around `p`, rows first; step 4 is
/// `p` itself.
pub open spec fn neighbour(p: (int, int), k: int) -> (int, int) {
    (p.0 + k / 3 - 1, p.1 + k % 3 - 1)
}

/// `p + d - 1` where that lies below `limit`.
fn shifted(p: usize, d: u8, limit: usize) -> (r: Option<usize>)
    requires
        p < limit,
        d <= 2,
    ensures
        r.is_some() <==> 0 <= p + d - 1 < limit,
        r matches Some(v) ==> v == p + d - 1,
{
    if d == 0 {
        if p == 0 {
            None
        } else {
            Some(p - 1)
        }
    } else if d == 1 {
        Some(p)
    } else if p + 1 < limit {
        Some(p + 1)
    } else {
        None
    }
}

/// Whether `a` and `b` differ by at most `tol`.
fn differ_within(a: i32, b: i32, tol: i32) -> (r: bool)
    ensures
        r == within_tolerance(a as int, b as int, tol as int),
{
    let d: i64 = a as i64 - b as i64;
    -(tol as i64) <= d && d <= tol as i64
}

/// Grows one region: gives `cluster_id` to the pixel in column `x`, row `y`
/// and to everything that can be reached from it (see [`Growth::reaches`]),
/// and leaves every other label as it was. A seed that already carries a
/// label grows nothing.
///
/// The growth runs on an explicit work list, so its depth does not depend on
/// the size of the region.
pub fn cluster_by_gradient_direction_single(
    angle: &Grid,
    clusters: &mut Grid,
    x: usize,
    y: usize,
    cluster_id: i32,
    tolerance: i32,
)
    requires
        old(clusters)@.same_shape(angle@),
        old(clusters)@.contains(y as int, x as int),
        cluster_id != 0,
    ensures
        final(clusters)@ == (Growth {
            labels: old(clusters)@,
            dir: angle@,
            seed: (y as int, x as int),
            id: cluster_id as int,
            tol: tolerance as int,
        }).result(),
{
    let (rows, cols) = clusters.dims();
    let ghost g = Growth {
        labels: clusters@,
        dir: angle@,
        seed: (y as int, x as int),
        id: cluster_id as int,
        tol: tolerance as int,
    };
    let pixel_angle = angle.cell(y, x);
    let mut region: Vec<(usize, usize)> = Vec::new();
    region.push((x, y));
    proof {
        assert(region@[0] == (x, y));
        if g.joinable(g.seed) {
            g.lemma_seed_reached();
        }
        assert(Growth::pending(region@, g.seed));
        assert forall|p: (int, int), n: (int, int)| #[trigger]
            g.link_settled(clusters@, region@, p, n) by {}
    }
    while region.len() > 0
        invariant
            g.labels.wf(),
            g.labels.rows == rows,
            g.labels.cols == cols,
            g.dir == angle@,
            g.labels.same_shape(g.dir),
            g.labels.contains(y as int, x as int),
            g.seed == (y as int, x as int),
            g.id == cluster_id,
            g.id != 0,
            g.tol == tolerance,
            pixel_angle == g.dir.at(y as int, x as int),
            clusters@.wf(),
            g.sound(clusters@),
            g.stack_sound(region@),
            g.closed(clusters@, region@),
        decreases clusters@.count(0, clusters@.area()), region.len(),
    {
        let ghost before_pop = region@;
        let (px, py) = region.pop().unwrap();
        let ghost p = (py as int, px as int);
        assert(before_pop[before_pop.len() - 1] == (px, py));
        assert(g.labels.contains(py as int, px as int));
        if clusters.cell(py, px) == 0 {
            let ghost labelled_before = clusters@;
            clusters.put(py, px, cluster_id);
            proof {
                assert(labelled_before.at(p.0, p.1) == g.labels.at(p.0, p.1));
                assert(g.reaches(p));
                crate::grid::lemma_raster_position(rows as int, cols as int, p.0, p.1);
                crate::grid::lemma_count_update(
                    labelled_before,
                    p.0,
                    p.1,
                    0,
                    cluster_id as int,
                    labelled_before.area(),
                );
                assert(g.claimed(clusters@, p));
                assert forall|yy: int, xx: int| g.labels.contains(yy, xx) implies #[trigger]
                    clusters@.at(yy, xx) == g.labels.at(yy, xx) || (g.claimed(clusters@, (yy, xx))
                    && g.reaches((yy, xx))) by {
                    if (yy, xx) != p {
                        assert(clusters@.at(yy, xx) == labelled_before.at(yy, xx));
                    }
                }
                assert(g.sound(clusters@));
            }
            let ghost labelled = clusters@;
            let mut k: u8 = 0;
            while k < 9
                invariant
                    0 <= k <= 9,
                    g.labels.wf(),
                    g.labels.rows == rows,
                    g.labels.cols == cols,
                    g.dir == angle@,
                    g.labels.same_shape(g.dir),
                    g.seed == (y as int, x as int),
                    g.tol == tolerance,
                    g.id != 0,
                    pixel_angle == g.dir.at(y as int, x as int),
                    clusters@ == labelled,
                    labelled.wf(),
                    g.sound(labelled),
                    p == (py as int, px as int),
                    g.labels.contains(p.0, p.1),
                    g.reaches(p),
                    g.claimed(labelled, p),
                    g.stack_sound(region@),
                    forall|i: int|
                        0 <= i < before_pop.len() - 1 ==> i < region@.len() && #[trigger] region@[i]
                            == before_pop[i],
                    before_pop.len() - 1 <= region@.len(),
                    forall|j: int|
                        0 <= j < k && j != 4 ==> g.settled(
                            labelled,
                            region@,
                            #[trigger] neighbour(p, j),
                        ),
                decreases 9 - k,
            {
                if k != 4 {
                    let ghost n = neighbour(p, k as int);
                    let ghost stack_before = region@;
                    match (shifted(py, k / 3, rows), shifted(px, k % 3, cols)) {
                        (Some(ny), Some(nx)) => {
                            let neighbor_angle = angle.cell(ny, nx);
                            if differ_within(neighbor_angle, pixel_angle, tolerance)
                                && clusters.cell(ny, nx) == 0 {
                                region.push((nx, ny));
                                proof {
                                    assert(n == (ny as int, nx as int));
                                    assert(adjacent(p, n));
                                    assert(g.labels.at(n.0, n.1) == 0);
                                    assert(g.joinable(n));
                                    g.lemma_reach_step(p, n);
                                    assert(region@[region@.len() - 1] == (nx, ny));
                                    assert(Growth::pending(region@, n));
                                }
                            } else {
                                proof {
                                    assert(n == (ny as int, nx as int));
                                    if g.joinable(n) {
                                        assert(n == g.seed || g.aligned(n));
                                        if n == g.seed && !g.aligned(n) {
                                            assert(labelled.at(n.0, n.1) != 0);
                                        }
                                        assert(labelled.at(n.0, n.1) != 0);
                                        assert(g.claimed(labelled, n));
                                    }
                                }
                            }
                        },
                        _ => {
                            assert(!g.labels.contains(n.0, n.1));
                        },
                    }
                    proof {
                        assert(g.settled(labelled, region@, n));
                        assert forall|j: int| 0 <= j < k && j != 4 implies g.settled(
                            labelled,
                            region@,
                            #[trigger] neighbour(p, j),
                        ) by {
                            let m = neighbour(p, j);
                            assert(g.settled(labelled, stack_before, m));
                            if Growth::pending(stack_before, m) {
                                let i = choose|i: int|
                                    0 <= i < stack_before.len() && (#[trigger] stack_before[i]).1
                                        == m.0 && stack_before[i].0 == m.1;
                                assert(region@[i] == stack_before[i]);
                            }
                        }
                    }
                }
                k += 1;
            }
            proof {
                assert forall|q: (int, int), n: (int, int)| #[trigger]
                    g.link_settled(clusters@, region@, q, n) by {
                    if g.claimed(clusters@, q) && adjacent(q, n) && g.joinable(n) {
                        if q == p {
                            let j = (n.0 - p.0 + 1) * 3 + (n.1 - p.1 + 1);
                            assert(0 <= j < 9 && j != 4);
                            assert(neighbour(p, j) == n);
                            assert(g.settled(labelled, region@, neighbour(p, j)));
                        } else {
                            assert(g.claimed(labelled_before, q));
                            assert(g.link_settled(labelled_before, before_pop, q, n));
                            assert(g.settled(labelled_before, before_pop, n));
                            if g.claimed(labelled_before, n) {
                                assert(g.claimed(clusters@, n));
                            } else {
                                let i = choose|i: int|
                                    0 <= i < before_pop.len() && (#[trigger] before_pop[i]).1 == n.0
                                        && before_pop[i].0 == n.1;
                                if i == before_pop.len() - 1 {
                                    assert(n == p);
                                } else {
                                    assert(region@[i] == before_pop[i]);
                                    assert(Growth::pending(region@, n));
                                }
                            }
                        }
                    }
                }
                if g.joinable(g.seed) {
                    assert(g.settled(labelled_before, before_pop, g.seed));
                    if g.claimed(labelled_before, g.seed) {
                    } else {
                        let i = choose|i: int|
                            0 <= i < before_pop.len() && (#[trigger] before_pop[i]).1 == g.seed.0
                                && before_pop[i].0 == g.seed.1;
                        if i == before_pop.len() - 1 {
                            assert(g.seed == p);
                        } else {
                            assert(region@[i] == before_pop[i]);
                            assert(Growth::pending(region@, g.seed));
                        }
                    }
                }
            }
        } else {
            proof {
                let now = clusters@;
                assert forall|n: (int, int)| g.settled(now, before_pop, n) implies g.settled(
                    now,
                    region@,
                    n,
                ) by {
                    if g.joinable(n) && !g.claimed(now, n) {
                        let i = choose|i: int|
                            0 <= i < before_pop.len() && (#[trigger] before_pop[i]).1 == n.0
                                && before_pop[i].0 == n.1;
                        if i == before_pop.len() - 1 {
                            // The pixel just popped was unlabelled at the
                            // start and is labelled now, so it is claimed.
                            assert(n == p);
                            assert(now.at(p.0, p.1) != g.labels.at(p.0, p.1));
                            assert(g.claimed(now, p));
                        } else {
                            assert(region@[i] == before_pop[i]);
                        }
                    }
                }
                assert forall|q: (int, int), n: (int, int)| #[trigger]
                    g.link_settled(now, region@, q, n) by {
                    assert(g.link_settled(now, before_pop, q, n));
                }
            }
        }
    }
    proof {
        assert(region@ =~= Seq::empty());
        g.lemma_finished(clusters@);
    }
}

/// A label grid together with the id that the next cluster will get.
pub struct Labelling {
    pub labels: GridView,
    pub next_id: int,
}

/// One clustering pass: the magnitude and direction grids, the magnitude
/// threshold that gates seeds, and the direction tolerance.
pub struct Scan {
    pub magnitude: GridView,
    pub dir: GridView,
    pub threshold: int,
    pub tol: int,
}

impl Scan {
    /// The magnitude at `(y, x)` exceeds the threshold, so that the pixel may
    /// start a cluster.
    pub open spec fn seeds(self, y: int, x: int) -> bool {
        self.magnitude.at(y, x) > self.threshold
    }

    /// The growth step that the pass makes at `(y, x)` on the labelling `l`.
    pub open spec fn growth(self, l: Labelling, y: int, x: int) -> Growth {
        Growth { labels: l.labels, dir: self.dir, seed: (y, x), id: l.next_id, tol: self.tol }
    }

    /// The labelling after the first `n` pixels in raster order have been
    /// looked at. Ids start at 1. A pixel that is above the threshold and
    /// still unlabelled when the scan comes to it grows a region under the
    /// next id; any other pixel changes nothing.
    pub open spec fn after(self, n: int) -> Labelling
        decreases n,
    {
        if n <= 0 {
            Labelling {
                labels: GridView::filled(self.magnitude.rows, self.magnitude.cols, 0),
                next_id: 1,
            }
        } else {
            let prev = self.after(n - 1);
            let y = (n - 1) / self.magnitude.cols;
            let x = (n - 1) % self.magnitude.cols;
            if self.seeds(y, x) && prev.labels.at(y, x) == 0 {
                Labelling { labels: self.growth(prev, y, x).result(), next_id: prev.next_id + 1 }
            } else {
                prev
            }
        }
    }

    /// The label grid of the finished pass.
    pub open spec fn labels(self) -> GridView {
        self.after(self.magnitude.area()).labels
    }

    /// The number of clusters that the finished pass has made; their ids are
    /// `1 ..= clusters()`.
    pub open spec fn clusters(self) -> int {
        self.after(self.magnitude.area()).next_id - 1
    }

    /// The labelling keeps the shape of the input, and at most one cluster
    /// starts per pixel.
    pub proof fn lemma_after_shape(self, n: int)
        requires
            0 <= n,
        ensures
            self.after(n).labels.same_shape(self.magnitude),
            1 <= self.after(n).next_id <= n + 1,
        decreases n,
    {
        if n > 0 {
            self.lemma_after_shape(n - 1);
        }
    }
}

/// Clusters a whole image: scans the pixels row by row and, at each pixel
/// whose magnitude exceeds `threshold` and which no earlier cluster has
/// taken, grows a new region with
/// [`cluster_by_gradient_direction_single`]. Returns the label grid and the
/// number of clusters. Only the seed is held to the threshold: pixels of any
/// magnitude join a region if their direction fits.
///
/// Cluster ids are `i32`, so the image must have fewer than `i32::MAX`
/// pixels.
pub fn cluster_by_gradient_direction(
    magnitude: &Grid,
    angle: &Grid,
    threshold: i32,
    tolerance: i32,
) -> (r: (Grid, i32))
    requires
        magnitude@.same_shape(angle@),
        magnitude@.area() < i32::MAX,
    ensures
        r.0@ == (Scan {
            magnitude: magnitude@,
            dir: angle@,
            threshold: threshold as int,
            tol: tolerance as int,
        }).labels(),
        r.1 == (Scan {
            magnitude: magnitude@,
            dir: angle@,
            threshold: threshold as int,
            tol: tolerance as int,
        }).clusters(),
{
    let (rows, cols) = magnitude.dims();
    let ghost scan = Scan {
        magnitude: magnitude@,
        dir: angle@,
        threshold: threshold as int,
        tol: tolerance as int,
    };
    let mut clusters = Grid::zeros(rows, cols).unwrap();
    let mut cluster_id: i32 = 1;
    let mut y: usize = 0;
    while y < rows
        invariant
            0 <= y <= rows,
            rows == magnitude@.rows,
            cols == magnitude@.cols,
            magnitude@.wf(),
            magnitude@.same_shape(angle@),
            magnitude@.area() < i32::MAX,
            scan.magnitude == magnitude@,
            scan.dir == angle@,
            scan.threshold == threshold,
            scan.tol == tolerance,
            clusters@ == scan.after(y * cols).labels,
            cluster_id == scan.after(y * cols).next_id,
        decreases rows - y,
    {
        let mut x: usize = 0;
        while x < cols
            invariant
                0 <= y < rows,
                0 <= x <= cols,
                rows == magnitude@.rows,
                cols == magnitude@.cols,
                magnitude@.wf(),
                magnitude@.same_shape(angle@),
                magnitude@.area() < i32::MAX,
                scan.magnitude == magnitude@,
                scan.dir == angle@,
                scan.threshold == threshold,
                scan.tol == tolerance,
                clusters@ == scan.after(y * cols + x).labels,
                cluster_id == scan.after(y * cols + x).next_id,
            decreases cols - x,
        {
            proof {
                let n = y * cols + x;
                crate::grid::lemma_raster_position(rows as int, cols as int, y as int, x as int);
                crate::grid::lemma_raster_index(cols as int, y as int, x as int);
                scan.lemma_after_shape(n);
                assert(scan.after(n + 1) == if scan.seeds(y as int, x as int) && scan.after(
                    n,
                ).labels.at(y as int, x as int) == 0 {
                    Labelling {
                        labels: scan.growth(scan.after(n), y as int, x as int).result(),
                        next_id: scan.after(n).next_id + 1,
                    }
                } else {
                    scan.after(n)
                });
            }
            if magnitude.cell(y, x) > threshold && clusters.cell(y, x) == 0 {
                cluster_by_gradient_direction_single(angle, &mut clusters, x, y, cluster_id, tolerance);
                cluster_id += 1;
            }
            x += 1;
        }
        proof {
            assert(y * cols + cols == (y + 1) * cols) by (nonlinear_arith);
        }
        y += 1;
    }
    proof {
        assert(rows * cols >= 0) by (nonlinear_arith)
            requires
                rows >= 0,
                cols >= 0,
        ;
        scan.lemma_after_shape(rows * cols);
    }
    (clusters, cluster_id - 1)
}

impl Scan {
    /// The grids of the pass are well formed and of one shape.
    pub open spec fn wf(self) -> bool {
        &&& self.magnitude.wf()
        &&& self.dir.wf()
        &&& self.magnitude.same_shape(self.dir)
    }

    /// Two pixels of one cluster are the same pixel or differ in direction
    /// by at most twice the tolerance.
    pub open spec fn alike(self, labels: GridView, p: (int, int), q: (int, int)) -> bool {
        labels.contains(p.0, p.1) && labels.contains(q.0, q.1) && labels.at(p.0, p.1) != 0
            && labels.at(p.0, p.1) == labels.at(q.0, q.1) ==> p == q || within_tolerance(
            self.dir.at(p.0, p.1),
            self.dir.at(q.0, q.1),
            2 * self.tol,
        )
    }

    /// Two touching pixels of equal direction carry the same label.
    pub open spec fn joined(self, labels: GridView, a: (int, int), b: (int, int)) -> bool {
        labels.contains(a.0, a.1) && labels.contains(b.0, b.1) && adjacent(a, b) && self.dir.at(
            a.0,
            a.1,
        ) == self.dir.at(b.0, b.1) ==> labels.at(a.0, a.1) == labels.at(b.0, b.1)
    }

    /// What one step of the pass does to a single cell.
    proof fn lemma_step(self, n: int, p: (int, int))
        requires
            self.wf(),
            0 < n <= self.magnitude.area(),
            self.magnitude.contains(p.0, p.1),
        ensures
            ({
                let prev = self.after(n - 1);
                let next = self.after(n);
                let y = (n - 1) / self.magnitude.cols;
                let x = (n - 1) % self.magnitude.cols;
                let g = self.growth(prev, y, x);
                &&& self.magnitude.contains(y, x)
                &&& n - 1 == y * self.magnitude.cols + x
                &&& next.labels.same_shape(self.magnitude)
                &&& prev.labels.same_shape(self.magnitude)
                &&& 1 <= prev.next_id <= next.next_id
                &&& if self.seeds(y, x) && prev.labels.at(y, x) == 0 {
                    &&& next.next_id == prev.next_id + 1
                    &&& next.labels.at(p.0, p.1) == (if g.reaches(p) {
                        prev.next_id
                    } else {
                        prev.labels.at(p.0, p.1)
                    })
                    &&& g.reaches((y, x))
                } else {
                    next == prev
                }
            }),
    {
        self.lemma_after_shape(n - 1);
        self.lemma_after_shape(n);
        crate::grid::lemma_raster_cell(self.magnitude.rows, self.magnitude.cols, n - 1);
        let prev = self.after(n - 1);
        let y = (n - 1) / self.magnitude.cols;
        let x = (n - 1) % self.magnitude.cols;
        if self.seeds(y, x) && prev.labels.at(y, x) == 0 {
            self.growth(prev, y, x).lemma_seed_reached();
        }
    }

    /// Ids in use are positive and below the next id.
    pub proof fn lemma_ids_in_range(self, n: int, p: (int, int))
        requires
            self.wf(),
            0 <= n <= self.magnitude.area(),
            self.magnitude.contains(p.0, p.1),
        ensures
            0 <= self.after(n).labels.at(p.0, p.1) < self.after(n).next_id,
        decreases n,
    {
        if n > 0 {
            self.lemma_ids_in_range(n - 1, p);
            self.lemma_step(n, p);
        }
    }

    /// A label, once given, stays.
    pub proof fn lemma_labels_stay(self, m: int, n: int, p: (int, int))
        requires
            self.wf(),
            0 <= m <= n <= self.magnitude.area(),
            self.magnitude.contains(p.0, p.1),
            self.after(m).labels.at(p.0, p.1) != 0,
        ensures
            self.after(n).labels.at(p.0, p.1) == self.after(m).labels.at(p.0, p.1),
        decreases n - m,
    {
        if m < n {
            self.lemma_labels_stay(m, n - 1, p);
            self.lemma_step(n, p);
            let prev = self.after(n - 1);
            let y = (n - 1) / self.magnitude.cols;
            let x = (n - 1) % self.magnitude.cols;
            let g = self.growth(prev, y, x);
            if g.reaches(p) {
                g.lemma_reached_joinable(p);
            }
        }
    }

    /// Every pixel above the threshold belongs to a cluster once the scan has
    /// passed it.
    pub proof fn lemma_seeds_labelled(self, n: int, y: int, x: int)
        requires
            self.wf(),
            self.magnitude.contains(y, x),
            y * self.magnitude.cols + x < n <= self.magnitude.area(),
            self.seeds(y, x),
        ensures
            self.after(n).labels.at(y, x) != 0,
    {
        let i = y * self.magnitude.cols + x;
        crate::grid::lemma_raster_position(self.magnitude.rows, self.magnitude.cols, y, x);
        crate::grid::lemma_raster_index(self.magnitude.cols, y, x);
        self.lemma_step(i + 1, (y, x));
        self.lemma_ids_in_range(i, (y, x));
        self.lemma_labels_stay(i + 1, n, (y, x));
    }

    proof fn lemma_alike(self, n: int, p: (int, int), q: (int, int))
        requires
            self.wf(),
            0 <= n <= self.magnitude.area(),
        ensures
            self.alike(self.after(n).labels, p, q),
        decreases n,
    {
        self.lemma_after_shape(n);
        if n > 0 && self.magnitude.contains(p.0, p.1) && self.magnitude.contains(q.0, q.1) {
            self.lemma_alike(n - 1, p, q);
            self.lemma_step(n, p);
            self.lemma_step(n, q);
            self.lemma_ids_in_range(n - 1, p);
            self.lemma_ids_in_range(n - 1, q);
            let prev = self.after(n - 1);
            let y = (n - 1) / self.magnitude.cols;
            let x = (n - 1) % self.magnitude.cols;
            let g = self.growth(prev, y, x);
            if g.reaches(p) {
                g.lemma_reached_joinable(p);
            }
            if g.reaches(q) {
                g.lemma_reached_joinable(q);
            }
        }
    }

    proof fn lemma_joined(self, n: int, a: (int, int), b: (int, int))
        requires
            self.wf(),
            0 <= self.tol,
            0 <= n <= self.magnitude.area(),
        ensures
            self.joined(self.after(n).labels, a, b),
        decreases n,
    {
        self.lemma_after_shape(n);
        if n > 0 && self.magnitude.contains(a.0, a.1) && self.magnitude.contains(b.0, b.1)
            && adjacent(a, b) && self.dir.at(a.0, a.1) == self.dir.at(b.0, b.1) {
            self.lemma_joined(n - 1, a, b);
            self.lemma_step(n, a);
            self.lemma_step(n, b);
            let prev = self.after(n - 1);
            let y = (n - 1) / self.magnitude.cols;
            let x = (n - 1) % self.magnitude.cols;
            let g = self.growth(prev, y, x);
            if g.reaches(a) {
                g.lemma_reached_joinable(a);
                g.lemma_reach_step(a, b);
            }
            if g.reaches(b) {
                g.lemma_reached_joinable(b);
                g.lemma_reach_step(b, a);
            }
        }
    }

    proof fn lemma_nothing_seeds(self, n: int)
        requires
            self.wf(),
            0 <= n <= self.magnitude.area(),
            forall|y: int, x: int| self.magnitude.contains(y, x) ==> !#[trigger] self.seeds(y, x),
        ensures
            self.after(n) == (Labelling {
                labels: GridView::filled(self.magnitude.rows, self.magnitude.cols, 0),
                next_id: 1,
            }),
        decreases n,
    {
        if n > 0 {
            self.lemma_nothing_seeds(n - 1);
            crate::grid::lemma_raster_cell(self.magnitude.rows, self.magnitude.cols, n - 1);
        }
    }

    /// Connectivity: with a tolerance of zero or more, two touching pixels of
    /// identical direction that are both above the threshold end up in the
    /// same cluster.
    pub proof fn law_touching_equal_directions_share_cluster(self, a: (int, int), b: (int, int))
        requires
            self.wf(),
            0 <= self.tol,
            self.magnitude.contains(a.0, a.1),
            self.magnitude.contains(b.0, b.1),
            adjacent(a, b),
            self.dir.at(a.0, a.1) == self.dir.at(b.0, b.1),
            self.seeds(a.0, a.1),
            self.seeds(b.0, b.1),
        ensures
            self.labels().at(a.0, a.1) == self.labels().at(b.0, b.1),
            1 <= self.labels().at(a.0, a.1) <= self.clusters(),
    {
        let area = self.magnitude.area();
        crate::grid::lemma_raster_position(self.magnitude.rows, self.magnitude.cols, a.0, a.1);
        self.lemma_after_shape(area);
        self.lemma_joined(area, a, b);
        self.lemma_seeds_labelled(area, a.0, a.1);
        self.lemma_ids_in_range(area, a);
    }

    /// The tolerance gate: two distinct pixels of one cluster differ in
    /// direction by at most twice the tolerance, since each is the seed or
    /// within the tolerance of it. With a tolerance of zero, a cluster thus
    /// holds pixels of one identical direction only, and with a negative
    /// tolerance every cluster is a single pixel.
    pub proof fn law_cluster_directions_within_tolerance(self, p: (int, int), q: (int, int))
        requires
            self.wf(),
            self.magnitude.contains(p.0, p.1),
            self.magnitude.contains(q.0, q.1),
            self.labels().at(p.0, p.1) != 0,
            self.labels().at(p.0, p.1) == self.labels().at(q.0, q.1),
        ensures
            p == q || within_tolerance(self.dir.at(p.0, p.1), self.dir.at(q.0, q.1), 2 * self.tol),
            self.tol == 0 ==> self.dir.at(p.0, p.1) == self.dir.at(q.0, q.1),
            self.tol < 0 ==> p == q,
    {
        let area = self.magnitude.area();
        crate::grid::lemma_raster_position(self.magnitude.rows, self.magnitude.cols, p.0, p.1);
        self.lemma_after_shape(area);
        self.lemma_alike(area, p, q);
    }

    /// Where no magnitude exceeds the threshold, the pass labels nothing and
    /// makes no cluster.
    pub proof fn law_no_seed_no_cluster(self)
        requires
            self.wf(),
            forall|y: int, x: int| self.magnitude.contains(y, x) ==> !#[trigger] self.seeds(y, x),
        ensures
            self.labels() == GridView::filled(self.magnitude.rows, self.magnitude.cols, 0),
            self.clusters() == 0,
    {
        assert(self.magnitude.rows * self.magnitude.cols >= 0) by (nonlinear_arith)
            requires
                self.magnitude.rows >= 0,
                self.magnitude.cols >= 0,
        ;
        self.lemma_nothing_seeds(self.magnitude.area());
    }

    /// Raising the threshold never lets a pixel seed that did not seed
    /// before.
    pub proof fn law_seeds_shrink_with_threshold(self, higher: Scan, y: int, x: int)
        requires
            higher.magnitude == self.magnitude,
            self.threshold <= higher.threshold,
            higher.seeds(y, x),
        ensures
            self.seeds(y, x),
    {
    }
}

impl Scan {
    /// How many of the first `n` pixels in raster order are above the
    /// threshold.
    pub open spec fn seed_count(self, n: int) -> nat
        decreases n,
    {
        if n <= 0 {
            0
        } else {
            self.seed_count(n - 1) + if self.seeds(
                (n - 1) / self.magnitude.cols,
                (n - 1) % self.magnitude.cols,
            ) {
                1nat
            } else {
                0nat
            }
        }
    }

    /// Ids are handed out without gaps: each id below the next one labels
    /// at least one pixel, which the lemma returns.
    pub proof fn law_every_id_is_in_use(self, n: int, id: int) -> (p: (int, int))
        requires
            self.wf(),
            0 <= n <= self.magnitude.area(),
            1 <= id < self.after(n).next_id,
        ensures
            self.magnitude.contains(p.0, p.1),
            self.after(n).labels.at(p.0, p.1) == id,
        decreases n,
    {
        let prev = self.after(n - 1);
        let y = (n - 1) / self.magnitude.cols;
        let x = (n - 1) % self.magnitude.cols;
        crate::grid::lemma_raster_cell(self.magnitude.rows, self.magnitude.cols, n - 1);
        self.lemma_step(n, (y, x));
        if id < prev.next_id {
            let p = self.law_every_id_is_in_use(n - 1, id);
            self.lemma_labels_stay(n - 1, n, p);
            p
        } else {
            (y, x)
        }
    }

    /// At most one cluster starts per pixel above the threshold.
    pub proof fn law_clusters_bounded_by_seeds(self, n: int)
        requires
            self.wf(),
            0 <= n <= self.magnitude.area(),
        ensures
            self.after(n).next_id - 1 <= self.seed_count(n),
        decreases n,
    {
        if n > 0 {
            self.law_clusters_bounded_by_seeds(n - 1);
            let y = (n - 1) / self.magnitude.cols;
            let x = (n - 1) % self.magnitude.cols;
            crate::grid::lemma_raster_cell(self.magnitude.rows, self.magnitude.cols, n - 1);
            self.lemma_step(n, (y, x));
        }
    }

    /// Raising the threshold never raises the number of pixels that may
    /// start a cluster, and with it the bound on the number of clusters.
    pub proof fn law_seed_count_shrinks_with_threshold(self, higher: Scan, n: int)
        requires
            higher.magnitude == self.magnitude,
            self.threshold <= higher.threshold,
        ensures
            higher.seed_count(n) <= self.seed_count(n),
        decreases n,
    {
        if n > 0 {
            self.law_seed_count_shrinks_with_threshold(higher, n - 1);
        }
    }
}

} // verus!
