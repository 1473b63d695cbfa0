//! Grids of iteration counts, stored in a two-dimensional `ndarray` array.
use vstd::prelude::*;

verus! {

/// Iteration counts of a sampled region, addressed `(x, y)` with `x` along the
/// real axis and `y` along the imaginary axis.
///
/// The counts live in an `ndarray::Array2<u16>`. Nothing of that array is
/// visible to the verifier: what it holds is spoken of through [`grid_shape`]
/// and [`grid_cells`]. The field is private and every function that makes or
/// changes the array keeps it non-empty and small enough to allocate.
#[verifier::external_body]
pub struct Grid {
    counts: ndarray::Array2<u16>,
}

/// The lengths of the two axes of the array inside `grid`: width, then height.
pub uninterp spec fn grid_shape(grid: Grid) -> (nat, nat);

/// The counts that the array inside `grid` holds, keyed by `(x, y)`.
pub uninterp spec fn grid_cells(grid: Grid) -> Map<(int, int), u16>;

impl Grid {
    /// What holds of every value of the type.
    #[verifier::type_invariant]
    pub open spec fn well_formed(self) -> bool {
        &&& 1 <= grid_shape(self).0
        &&& 1 <= grid_shape(self).1
        &&& 2 * grid_shape(self).0 * grid_shape(self).1 <= isize::MAX
    }

    /// Number of columns: the extent of `x`.
    pub open spec fn width(&self) -> nat {
        grid_shape(*self).0
    }

    /// Number of rows: the extent of `y`.
    pub open spec fn height(&self) -> nat {
        grid_shape(*self).1
    }

    /// Whether `(x, y)` addresses a cell of the grid.
    pub open spec fn has(&self, x: int, y: int) -> bool {
        0 <= x < self.width() && 0 <= y < self.height()
    }

    /// The count stored at `(x, y)`.
    pub open spec fn at(&self, x: int, y: int) -> u16 {
        grid_cells(*self)[(x, y)]
    }

    /// Trusted: `ndarray::Array2::<u16>::zeros` on the shape `(width, height)`.
    ///
    /// Claims that the array has exactly that shape and that every cell
    /// is zero. The call panics when the element count does not fit `isize`,
    /// and the allocation behind it when the byte count does not: both are
    /// left out.
    #[verifier::external_body]
    pub(crate) fn zeros(width: usize, height: usize) -> (grid: Grid)
        requires
            1 <= width,
            1 <= height,
            2 * width * height <= isize::MAX,
        ensures
            grid_shape(grid) == (width as nat, height as nat),
            forall|x: int, y: int|
                0 <= x < width && 0 <= y < height ==> #[trigger] grid_cells(grid)[(x, y)] == 0,
    {
        Grid { counts: ndarray::Array2::zeros((width, height)) }
    }

    /// Trusted: `ArrayBase::dim` of the array.
    ///
    /// Claims that it returns the two axis lengths.
    #[verifier::external_body]
    pub(crate) fn shape(&self) -> (dim: (usize, usize))
        ensures
            grid_shape(*self) == (dim.0 as nat, dim.1 as nat),
    {
        self.counts.dim()
    }

    /// Trusted: `Index::index` of the array at `(x, y)`.
    ///
    /// Claims that it returns the count stored there. The call panics
    /// on an index outside the shape, which is left out.
    #[verifier::external_body]
    pub(crate) fn fetch(&self, x: usize, y: usize) -> (count: u16)
        requires
            x < grid_shape(*self).0,
            y < grid_shape(*self).1,
        ensures
            count == grid_cells(*self)[(x as int, y as int)],
    {
        self.counts[(x, y)]
    }

    /// Trusted: `IndexMut::index_mut` of the array at `(x, y)`, assigned
    /// `count`.
    ///
    /// Claims that the shape stays, that the cell at `(x, y)` now holds
    /// `count` and that no other cell changes. The call panics on an index
    /// outside the shape, which is left out.
    #[verifier::external_body]
    pub(crate) fn store(&mut self, x: usize, y: usize, count: u16)
        requires
            x < grid_shape(*old(self)).0,
            y < grid_shape(*old(self)).1,
        ensures
            grid_shape(*final(self)) == grid_shape(*old(self)),
            grid_cells(*final(self)) == grid_cells(*old(self)).insert((x as int, y as int), count),
    {
        self.counts[(x, y)] = count;
    }

    /// The width and the height of the grid.
    pub fn dim(&self) -> (dim: (usize, usize))
        ensures
            dim.0 == self.width() >= 1,
            dim.1 == self.height() >= 1,
            2 * dim.0 * dim.1 <= isize::MAX,
    {
        proof {
            use_type_invariant(self);
        }
        self.shape()
    }

    /// The count at `(x, y)`, or `None` where the grid has no such cell.
    pub fn get(&self, x: usize, y: usize) -> (count: Option<u16>)
        ensures
            count == if self.has(x as int, y as int) {
                Some(self.at(x as int, y as int))
            } else {
                None
            },
    {
        let (width, height) = self.shape();
        if x < width && y < height {
            Some(self.fetch(x, y))
        } else {
            None
        }
    }
}

} // verus!
