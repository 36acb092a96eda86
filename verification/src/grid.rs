//! A dense two-dimensional grid of `i32` cells.
//!
//! The cells live in an `ndarray::Array2<i32>`. Everything the rest of the
//! crate knows about that array is stated in the four `array_*` functions
//! below, which are believed rather than proved; the public methods of
//! [`Grid`] are verified against them.

use vstd::prelude::*;

verus! {

/// A two-dimensional grid of `i32` cells, addressed by `(row, column)`.
///
/// Label maps, gradient magnitudes, gradient directions and pixel
/// intensities are all held in grids of this type.
#[verifier::external_body]
pub struct Grid {
    cells: ndarray::Array2<i32>,
}

/// The cells of a grid, keyed by `(row, column)`.
pub uninterp spec fn grid_cells(g: Grid) -> Map<(int, int), i32>;

/// The lengths of a grid's two axes: rows first, then columns.
pub uninterp spec fn grid_shape(g: Grid) -> Seq<usize>;

/// The mathematical content of a [`Grid`]: its shape and the value of every
/// cell inside that shape.
#[verifier::ext_equal]
pub struct GridView {
    pub rows: int,
    pub cols: int,
    pub cells: Map<(int, int), int>,
}

impl GridView {
    /// `(y, x)` names a cell of the grid.
    pub open spec fn contains(self, y: int, x: int) -> bool {
        0 <= y < self.rows && 0 <= x < self.cols
    }

    /// The value of cell `(y, x)`.
    pub open spec fn at(self, y: int, x: int) -> int {
        self.cells[(y, x)]
    }

    /// The number of cells.
    pub open spec fn area(self) -> int {
        self.rows * self.cols
    }

    /// The grid of the given shape whose cells all hold `v`.
    pub open spec fn filled(rows: int, cols: int, v: int) -> GridView {
        GridView {
            rows,
            cols,
            cells: Map::new(|k: (int, int)| 0 <= k.0 < rows && 0 <= k.1 < cols, |k: (int, int)| v),
        }
    }

    /// This grid with cell `(y, x)` replaced by `v`.
    pub open spec fn update(self, y: int, x: int, v: int) -> GridView {
        GridView { rows: self.rows, cols: self.cols, cells: self.cells.insert((y, x), v) }
    }

    /// The cells are exactly those inside the shape.
    pub open spec fn wf(self) -> bool {
        &&& 0 <= self.rows
        &&& 0 <= self.cols
        &&& forall|k: (int, int)|
            self.cells.dom().contains(k) <==> (0 <= k.0 < self.rows && 0 <= k.1 < self.cols)
    }

    /// Two grids have the same number of rows and of columns.
    pub open spec fn same_shape(self, other: GridView) -> bool {
        self.rows == other.rows && self.cols == other.cols
    }
}

/// The shape `rows` x `cols` can be allocated: the product of its non-zero
/// axis lengths does not exceed `isize::MAX`.
pub open spec fn axes_fit(rows: int, cols: int) -> bool {
    (if rows == 0 {
        1
    } else {
        rows
    }) * (if cols == 0 {
        1
    } else {
        cols
    }) <= isize::MAX
}

impl View for Grid {
    type V = GridView;

    open spec fn view(&self) -> GridView {
        GridView {
            rows: grid_shape(*self)[0] as int,
            cols: grid_shape(*self)[1] as int,
            cells: Map::new(
                |k: (int, int)|
                    0 <= k.0 < grid_shape(*self)[0] as int && 0 <= k.1 < grid_shape(*self)[1] as int,
                |k: (int, int)| grid_cells(*self)[k] as int,
            ),
        }
    }
}

/// `ndarray::Array2::<i32>::zeros((rows, cols))`: a new array of the given
/// shape, every cell zero. The call panics when the product of the non-zero
/// axis lengths overflows `isize`, which `requires` rules out.
#[verifier::external_body]
pub(crate) fn array_zeros(rows: usize, cols: usize) -> (g: Grid)
    requires
        axes_fit(rows as int, cols as int),
    ensures
        grid_shape(g) == seq![rows, cols],
        forall|y: int, x: int|
            0 <= y < rows && 0 <= x < cols ==> #[trigger] grid_cells(g)[(y, x)] == 0,
{
    Grid { cells: ndarray::Array2::<i32>::zeros((rows, cols)) }
}

/// `ArrayBase::dim` on a two-dimensional array: its `(rows, columns)`. The
/// product of the non-zero axis lengths is within `isize::MAX`: ndarray
/// keeps that for every array it builds, and the arrays held here are built
/// by `zeros` alone, which panics otherwise.
#[verifier::external_body]
pub(crate) fn array_dim(g: &Grid) -> (d: (usize, usize))
    ensures
        grid_shape(*g) == seq![d.0, d.1],
        axes_fit(d.0 as int, d.1 as int),
{
    g.cells.dim()
}

/// Indexing `a[[y, x]]`: the cell in row `y`, column `x`. The index panics
/// unless `y` and `x` are below the respective axis lengths.
#[verifier::external_body]
pub(crate) fn array_index(g: &Grid, y: usize, x: usize) -> (v: i32)
    requires
        y < grid_shape(*g)[0],
        x < grid_shape(*g)[1],
    ensures
        v == grid_cells(*g)[(y as int, x as int)],
{
    g.cells[[y, x]]
}

/// Assignment `a[[y, x]] = v`: cell `(y, x)` becomes `v`, the shape and every
/// other cell stay. The index panics unless `y` and `x` are below the
/// respective axis lengths.
#[verifier::external_body]
pub(crate) fn array_assign(g: &mut Grid, y: usize, x: usize, v: i32)
    requires
        y < grid_shape(*old(g))[0],
        x < grid_shape(*old(g))[1],
    ensures
        grid_shape(*final(g)) == grid_shape(*old(g)),
        grid_cells(*final(g)) == grid_cells(*old(g)).insert((y as int, x as int), v),
{
    g.cells[[y, x]] = v;
}

impl Grid {
    /// A grid of `rows` x `cols` zeros, or `None` when that shape cannot be
    /// allocated.
    pub fn zeros(rows: usize, cols: usize) -> (r: Option<Grid>)
        ensures
            r.is_some() <==> axes_fit(rows as int, cols as int),
            r matches Some(g) ==> g@ == GridView::filled(rows as int, cols as int, 0),
    {
        let r1: usize = if rows == 0 {
            1
        } else {
            rows
        };
        let c1: usize = if cols == 0 {
            1
        } else {
            cols
        };
        match r1.checked_mul(c1) {
            Some(p) => {
                if p <= isize::MAX as usize {
                    let g = array_zeros(rows, cols);
                    assert(g@ =~= GridView::filled(rows as int, cols as int, 0));
                    Some(g)
                } else {
                    None
                }
            },
            None => None,
        }
    }

    /// The shape as `(rows, columns)`.
    pub fn dims(&self) -> (d: (usize, usize))
        ensures
            d.0 == self@.rows,
            d.1 == self@.cols,
            self@.wf(),
            axes_fit(self@.rows, self@.cols),
    {
        array_dim(self)
    }

    /// The number of rows.
    pub fn rows(&self) -> (n: usize)
        ensures
            n == self@.rows,
    {
        array_dim(self).0
    }

    /// The number of columns.
    pub fn cols(&self) -> (n: usize)
        ensures
            n == self@.cols,
    {
        array_dim(self).1
    }

    /// The value of cell `(y, x)`, or `None` outside the grid.
    pub fn get(&self, y: usize, x: usize) -> (r: Option<i32>)
        ensures
            r.is_some() <==> self@.contains(y as int, x as int),
            r matches Some(v) ==> v == self@.at(y as int, x as int),
    {
        let (rows, cols) = array_dim(self);
        if y < rows && x < cols {
            Some(array_index(self, y, x))
        } else {
            None
        }
    }

    /// Writes `v` to cell `(y, x)` and returns `true`; outside the grid
    /// nothing changes and the result is `false`.
    pub fn set(&mut self, y: usize, x: usize, v: i32) -> (done: bool)
        ensures
            done <==> old(self)@.contains(y as int, x as int),
            done ==> final(self)@ == old(self)@.update(y as int, x as int, v as int),
            !done ==> final(self)@ == old(self)@,
    {
        let (rows, cols) = array_dim(self);
        if y < rows && x < cols {
            self.put(y, x, v);
            true
        } else {
            false
        }
    }

    /// The value of a cell known to be inside the grid.
    pub fn cell(&self, y: usize, x: usize) -> (v: i32)
        requires
            self@.contains(y as int, x as int),
        ensures
            v == self@.at(y as int, x as int),
    {
        array_index(self, y, x)
    }

    /// Writes `v` to a cell known to be inside the grid.
    pub fn put(&mut self, y: usize, x: usize, v: i32)
        requires
            old(self)@.contains(y as int, x as int),
        ensures
            final(self)@ == old(self)@.update(y as int, x as int, v as int),
    {
        array_assign(self, y, x, v);
        assert(self@ =~= old(self)@.update(y as int, x as int, v as int));
    }
}

impl GridView {
    /// The value of the `i`-th cell in raster order: rows top to bottom,
    /// each row left to right.
    pub open spec fn nth(self, i: int) -> int {
        self.at(i / self.cols, i % self.cols)
    }

    /// How many of the first `n` cells in raster order hold `v`.
    pub open spec fn count(self, v: int, n: int) -> nat
        decreases n,
    {
        if n <= 0 {
            0
        } else {
            self.count(v, n - 1) + if self.nth(n - 1) == v {
                1nat
            } else {
                0nat
            }
        }
    }
}

/// Cell `(y, x)` of a grid with `cols` columns is cell `y * cols + x` in
/// raster order.
pub proof fn lemma_raster_index(cols: int, y: int, x: int)
    requires
        0 <= x < cols,
    ensures
        (y * cols + x) / cols == y,
        (y * cols + x) % cols == x,
{
    vstd::arithmetic::div_mod::lemma_fundamental_div_mod_converse(y * cols + x, cols, y, x);
}

/// The `i`-th cell in raster order lies inside the grid, and its
/// coordinates give `i` back.
pub proof fn lemma_raster_cell(rows: int, cols: int, i: int)
    requires
        0 <= i < rows * cols,
        0 <= rows,
        0 <= cols,
    ensures
        0 <= i / cols < rows,
        0 <= i % cols < cols,
        i == (i / cols) * cols + i % cols,
{
    assert(cols > 0) by (nonlinear_arith)
        requires
            0 <= i < rows * cols,
            0 <= cols,
    ;
    vstd::arithmetic::div_mod::lemma_fundamental_div_mod(i, cols);
    vstd::arithmetic::div_mod::lemma_mod_bound(i, cols);
    vstd::arithmetic::div_mod::lemma_div_pos_is_pos(i, cols);
    let q = i / cols;
    assert(cols * q == q * cols) by (nonlinear_arith);
    if q >= rows {
        assert(q * cols >= rows * cols) by (nonlinear_arith)
            requires
                q >= rows,
                cols > 0,
        ;
    }
}

/// Raster positions stay inside the area of the grid.
pub proof fn lemma_raster_position(rows: int, cols: int, y: int, x: int)
    requires
        0 <= y < rows,
        0 <= x < cols,
    ensures
        0 <= y * cols + x < rows * cols,
        y * cols + cols <= rows * cols,
{
    assert(y * cols + cols <= rows * cols) by (nonlinear_arith)
        requires
            0 <= y < rows,
            0 <= cols,
    ;
    assert(0 <= y * cols) by (nonlinear_arith)
        requires
            0 <= y,
            0 <= cols,
    ;
}

/// Overwriting a cell that holds `v` with another value lowers the count of
/// `v` by one from that cell's raster position on.
pub proof fn lemma_count_update(g: GridView, y: int, x: int, v: int, w: int, n: int)
    requires
        g.contains(y, x),
        g.at(y, x) == v,
        w != v,
        0 <= n <= g.area(),
    ensures
        g.update(y, x, w).count(v, n) + (if n > y * g.cols + x {
            1int
        } else {
            0int
        }) == g.count(v, n),
    decreases n,
{
    if n > 0 {
        lemma_count_update(g, y, x, v, w, n - 1);
        let i = n - 1;
        lemma_raster_cell(g.rows, g.cols, i);
        lemma_raster_index(g.cols, y, x);
        let h = g.update(y, x, w);
        if i == y * g.cols + x {
            assert(h.nth(i) == w);
            assert(g.nth(i) == v);
        } else {
            assert((i / g.cols, i % g.cols) != (y, x));
            assert(h.nth(i) == g.nth(i));
        }
    }
}

} // verus!
