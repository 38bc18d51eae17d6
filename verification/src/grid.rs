//! The assignment grid: one cluster id per grid element, held in a
//! two-dimensional `ndarray` array.

use ndarray::Array2;
use vstd::prelude::*;

verus! {

/// A grid coordinate `(x, y)`.
pub type Element = (usize, usize);

/// A dense grid of cluster ids. Nothing is known of the array inside but
/// what is stated over `grid_rows`, `grid_cols` and `grid_cells`.
#[verifier::external_body]
pub struct Grid {
    cells: Array2<usize>,
}

/// Extent of the first axis of the array held by a grid.
pub uninterp spec fn grid_rows(grid: Grid) -> nat;

/// Extent of the second axis of the array held by a grid.
pub uninterp spec fn grid_cols(grid: Grid) -> nat;

/// The id stored at each coordinate of the array held by a grid.
pub uninterp spec fn grid_cells(grid: Grid) -> Map<(int, int), usize>;

/// `Array2::zeros`: an array of the given shape with every entry zero.
/// ndarray panics when the product of the non-zero axis lengths exceeds
/// `isize::MAX`; the precondition keeps both axes and their product below it.
#[verifier::external_body]
fn array_zeros(rows: usize, cols: usize) -> (grid: Grid)
    requires
        rows <= isize::MAX,
        cols <= isize::MAX,
        rows * cols <= isize::MAX,
    ensures
        grid_rows(grid) == rows,
        grid_cols(grid) == cols,
        forall|x: int, y: int|
            0 <= x < rows && 0 <= y < cols ==> #[trigger] grid_cells(grid)[(x, y)] == 0,
{
    Grid { cells: Array2::zeros((rows, cols)) }
}

/// `ArrayBase::dim`: the shape of the array as a pair of axis lengths.
#[verifier::external_body]
fn array_dim(grid: &Grid) -> (shape: (usize, usize))
    ensures
        shape.0 == grid_rows(*grid),
        shape.1 == grid_cols(*grid),
{
    grid.cells.dim()
}

/// `Index<(usize, usize)>` of an array: the entry at an in-bounds
/// coordinate. ndarray panics out of bounds, which the precondition excludes.
#[verifier::external_body]
fn array_get(grid: &Grid, x: usize, y: usize) -> (id: usize)
    requires
        x < grid_rows(*grid),
        y < grid_cols(*grid),
    ensures
        id == grid_cells(*grid)[(x as int, y as int)],
{
    grid.cells[(x, y)]
}

/// `IndexMut<(usize, usize)>` of an array: overwrites the entry at an
/// in-bounds coordinate and leaves the shape and every other entry as they
/// were.
#[verifier::external_body]
fn array_set(grid: &mut Grid, x: usize, y: usize, id: usize)
    requires
        x < grid_rows(*old(grid)),
        y < grid_cols(*old(grid)),
    ensures
        grid_rows(*final(grid)) == grid_rows(*old(grid)),
        grid_cols(*final(grid)) == grid_cols(*old(grid)),
        grid_cells(*final(grid)) == grid_cells(*old(grid)).insert((x as int, y as int), id),
{
    grid.cells[(x, y)] = id;
}

/// `Clone::clone` of an array: a second array of the same shape and
/// entries.
#[verifier::external_body]
fn array_clone(grid: &Grid) -> (copy: Grid)
    ensures
        grid_rows(copy) == grid_rows(*grid),
        grid_cols(copy) == grid_cols(*grid),
        grid_cells(copy) == grid_cells(*grid),
{
    Grid { cells: grid.cells.clone() }
}

/// Whether `e` is a coordinate of a `width` by `height` grid.
pub open spec fn in_grid(e: Element, width: nat, height: nat) -> bool {
    e.0 < width && e.1 < height
}

impl Grid {
    /// Number of columns of elements: the range of `x`.
    pub open spec fn width(&self) -> nat {
        grid_rows(*self)
    }

    /// Number of rows of elements: the range of `y`.
    pub open spec fn height(&self) -> nat {
        grid_cols(*self)
    }

    /// The cluster id of element `e`.
    pub open spec fn at(&self, e: Element) -> usize {
        grid_cells(*self)[(e.0 as int, e.1 as int)]
    }

    /// Whether `e` is a coordinate of this grid.
    pub open spec fn has(&self, e: Element) -> bool {
        in_grid(e, self.width(), self.height())
    }

    /// Whether `other` has the same shape and the same id at every element
    /// but `e`, where it holds `id`.
    pub open spec fn updated(&self, other: Grid, e: Element, id: usize) -> bool {
        &&& self.width() == other.width()
        &&& self.height() == other.height()
        &&& grid_cells(*self) == grid_cells(other).insert((e.0 as int, e.1 as int), id)
    }

    /// A grid of `width` by `height` elements, all in cluster 0, or `None`
    /// when a grid of that shape cannot be addressed.
    pub fn zeros(width: usize, height: usize) -> (made: Option<Grid>)
        ensures
            made.is_some() <==> width <= isize::MAX && height <= isize::MAX && width * height
                <= isize::MAX,
            made matches Some(grid) ==> {
                &&& grid.width() == width
                &&& grid.height() == height
                &&& forall|e: Element| grid.has(e) ==> #[trigger] grid.at(e) == 0
            },
    {
        let limit: usize = isize::MAX as usize;
        if width > limit || height > limit {
            return None;
        }
        match width.checked_mul(height) {
            Some(area) => {
                if area > limit {
                    None
                } else {
                    Some(array_zeros(width, height))
                }
            },
            None => None,
        }
    }

    /// The shape `(width, height)`.
    pub fn dim(&self) -> (shape: (usize, usize))
        ensures
            shape.0 == self.width(),
            shape.1 == self.height(),
    {
        array_dim(self)
    }

    /// The cluster id of element `(x, y)`, or `None` outside the grid.
    pub fn get(&self, x: usize, y: usize) -> (id: Option<usize>)
        ensures
            id == if self.has((x, y)) {
                Some(self.at((x, y)))
            } else {
                None
            },
    {
        let (width, height) = array_dim(self);
        if x < width && y < height {
            Some(array_get(self, x, y))
        } else {
            None
        }
    }

    /// Puts element `(x, y)` in cluster `id`. Returns whether the element
    /// lies in the grid; outside it nothing changes.
    pub fn set(&mut self, x: usize, y: usize, id: usize) -> (done: bool)
        ensures
            done == old(self).has((x, y)),
            done ==> final(self).updated(*old(self), (x, y), id),
            !done ==> *final(self) == *old(self),
    {
        let (width, height) = array_dim(self);
        if x < width && y < height {
            array_set(self, x, y, id);
            true
        } else {
            false
        }
    }

    /// A copy of the grid.
    pub fn copy(&self) -> (copy: Grid)
        ensures
            copy.width() == self.width(),
            copy.height() == self.height(),
            grid_cells(copy) == grid_cells(*self),
    {
        array_clone(self)
    }

    /// The cluster id of an element of the grid.
    pub(crate) fn id_of(&self, e: Element) -> (id: usize)
        requires
            self.has(e),
        ensures
            id == self.at(e),
    {
        array_get(self, e.0, e.1)
    }

    /// Puts an element of the grid in cluster `id`.
    pub(crate) fn assign(&mut self, e: Element, id: usize)
        requires
            old(self).has(e),
        ensures
            final(self).updated(*old(self), e, id),
    {
        array_set(self, e.0, e.1, id)
    }
}

} // verus!
