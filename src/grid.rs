// A two-dimensional array of bytes, kept in an ndarray `Array2`.
use vstd::prelude::*;
use ndarray::Array2;

verus! {

/// A grid of bytes with `rows` rows of `cols` columns each.
#[verifier::external_body]
pub struct Grid {
    cells: Array2<u8>,
}

/// What the grid holds, row by row.
pub uninterp spec fn grid_cells(g: Grid) -> Seq<Seq<u8>>;

/// The number of columns the grid was made with.
pub uninterp spec fn grid_cols(g: Grid) -> nat;

impl View for Grid {
    type V = Seq<Seq<u8>>;

    open spec fn view(&self) -> Seq<Seq<u8>> {
        grid_cells(*self)
    }
}

/// Whether every row of `s` has `cols` entries.
pub open spec fn rows_have(s: Seq<Seq<u8>>, cols: nat) -> bool {
    forall|y: int| 0 <= y < s.len() ==> #[trigger] s[y].len() == cols
}

impl Grid {
    pub open spec fn spec_cols(&self) -> nat {
        grid_cols(*self)
    }

    /// Relies on ndarray's `Array2::default`: a `rows` by `cols` array of zeros.
    /// It panics when the element count overflows `isize`.
    #[verifier::external_body]
    pub(crate) fn zeros(rows: usize, cols: usize) -> (r: Grid)
        requires
            rows <= isize::MAX,
            cols <= isize::MAX,
            rows * cols <= isize::MAX,
        ensures
            grid_cells(r) == Seq::new(rows as nat, |_y: int| Seq::new(cols as nat, |_x: int| 0u8)),
            grid_cols(r) == cols,
    {
        Grid { cells: Array2::default((rows, cols)) }
    }

    /// Relies on ndarray's `Index<(usize, usize)>`: the element at row `y`, column `x`.
    #[verifier::external_body]
    pub(crate) fn get(&self, y: usize, x: usize) -> (r: u8)
        requires
            y < self@.len(),
            x < self.spec_cols(),
            rows_have(self@, self.spec_cols()),
        ensures
            r == grid_cells(*self)[y as int][x as int],
    {
        self.cells[(y, x)]
    }

    /// Relies on ndarray's `IndexMut<(usize, usize)>`: overwrites the element at row `y`,
    /// column `x` and nothing else.
    #[verifier::external_body]
    pub(crate) fn set(&mut self, y: usize, x: usize, v: u8)
        requires
            y < old(self)@.len(),
            x < old(self).spec_cols(),
            rows_have(old(self)@, old(self).spec_cols()),
        ensures
            grid_cells(*final(self)) == grid_cells(*old(self)).update(
                y as int,
                grid_cells(*old(self))[y as int].update(x as int, v),
            ),
            grid_cols(*final(self)) == grid_cols(*old(self)),
    {
        self.cells[(y, x)] = v;
    }

    /// A grid of `rows` rows of `cols` zero bytes.
    pub fn new(rows: usize, cols: usize) -> (r: Grid)
        requires
            rows <= isize::MAX,
            cols <= isize::MAX,
            rows * cols <= isize::MAX,
        ensures
            r@ == Seq::new(rows as nat, |_y: int| Seq::new(cols as nat, |_x: int| 0u8)),
            r.spec_cols() == cols,
            rows_have(r@, cols as nat),
    {
        Grid::zeros(rows, cols)
    }

    /// Writes `v` at column `x`, row `y`; returns `false` and changes nothing when that cell
    /// is outside the grid.
    pub fn put(&mut self, x: usize, y: usize, v: u8) -> (r: bool)
        requires
            rows_have(old(self)@, old(self).spec_cols()),
        ensures
            r == (y < old(self)@.len() && x < old(self).spec_cols()),
            final(self).spec_cols() == old(self).spec_cols(),
            rows_have(final(self)@, final(self).spec_cols()),
            r ==> final(self)@ == old(self)@.update(y as int, old(self)@[y as int].update(x as int, v)),
            !r ==> final(self)@ == old(self)@,
    {
        if y < self.rows() && x < self.cols() {
            self.set(y, x, v);
            true
        } else {
            false
        }
    }

    /// The byte at column `x`, row `y`, or `None` when that cell is outside the grid.
    pub fn cell(&self, x: usize, y: usize) -> (r: Option<u8>)
        requires
            rows_have(self@, self.spec_cols()),
        ensures
            r == (if y < self@.len() && x < self.spec_cols() {
                Some(self@[y as int][x as int])
            } else {
                None::<u8>
            }),
    {
        if y < self.rows() && x < self.cols() {
            Some(self.get(y, x))
        } else {
            None
        }
    }

    /// Relies on ndarray's `nrows`: the number of rows.
    #[verifier::external_body]
    pub(crate) fn rows(&self) -> (r: usize)
        ensures
            r == grid_cells(*self).len(),
    {
        self.cells.nrows()
    }

    /// Relies on ndarray's `ncols`: the number of columns.
    #[verifier::external_body]
    pub(crate) fn cols(&self) -> (r: usize)
        ensures
            r == grid_cols(*self),
    {
        self.cells.ncols()
    }
}

} // verus!
