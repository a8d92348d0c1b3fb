use vstd::prelude::*;
use ndarray::Array2;
use crate::world::Cell;

verus! {

/// A two-dimensional `ndarray` array of cells. The array itself is hidden from the
/// verifier; what it holds is described by `grid_cells` and `grid_shape`.
#[verifier::external_body]
pub struct CellGrid {
    array: Array2<Cell>,
}

/// The cells that a grid holds, by index `(i, j)`; the domain is the set of in-bounds indices.
pub uninterp spec fn grid_cells(g: CellGrid) -> Map<(usize, usize), Cell>;

/// The shape `(rows, cols)` that a grid was made with.
pub uninterp spec fn grid_shape(g: CellGrid) -> (usize, usize);

/// The element of `g` at `(i, j)`, or `None` where the index is outside the shape.
pub open spec fn grid_at(g: CellGrid, i: usize, j: usize) -> Option<Cell> {
    if grid_cells(g).contains_key((i, j)) {
        Some(grid_cells(g)[(i, j)])
    } else {
        None
    }
}

/// The map that `from_elem` fills: every index inside the shape holds `value`.
pub open spec fn filled_cells(rows: usize, cols: usize, value: Cell) -> Map<(usize, usize), Cell> {
    Map::new(|k: (usize, usize)| k.0 < rows && k.1 < cols, |_k: (usize, usize)| value)
}

impl CellGrid {
    /// Calls `ndarray::Array2::from_elem((rows, cols), value)`: an array of the given shape
    /// whose every element is `value`. The crate panics when the product of the non-zero axis
    /// lengths overflows `isize`; `requires` bounds each axis and their product by
    /// `isize::MAX`, which rules that out.
    #[verifier::external_body]
    pub(crate) fn filled(rows: usize, cols: usize, value: Cell) -> (g: CellGrid)
        requires
            rows <= isize::MAX,
            cols <= isize::MAX,
            rows * cols <= isize::MAX,
        ensures
            grid_shape(g) == (rows, cols),
            grid_cells(g) == filled_cells(rows, cols, value),
    {
        CellGrid { array: Array2::from_elem((rows, cols), value) }
    }

    /// Calls `ndarray::ArrayBase::get((i, j))` and copies the element out: the element at
    /// `(i, j)`, or `None` when the index is out of bounds.
    #[verifier::external_body]
    pub(crate) fn get_elem(&self, i: usize, j: usize) -> (r: Option<Cell>)
        ensures
            r == grid_at(*self, i, j),
    {
        self.array.get((i, j)).copied()
    }

    /// Calls `ndarray::ArrayBase::get_mut((i, j))` and, when the index is in bounds, writes
    /// `value` there. Returns whether it wrote; the shape and the set of indices never
    /// change and no other element changes.
    #[verifier::external_body]
    pub(crate) fn set_elem(&mut self, i: usize, j: usize, value: Cell) -> (written: bool)
        ensures
            grid_shape(*final(self)) == grid_shape(*old(self)),
            written == grid_cells(*old(self)).contains_key((i, j)),
            written ==> grid_cells(*final(self)) == grid_cells(*old(self)).insert((i, j), value),
            !written ==> grid_cells(*final(self)) == grid_cells(*old(self)),
    {
        match self.array.get_mut((i, j)) {
            Some(cell) => {
                *cell = value;
                true
            },
            None => false,
        }
    }

    /// Calls `ndarray::ArrayBase::dim`: the grid's shape `(rows, cols)`. The in-bounds
    /// indices, those at which `get` finds an element, are exactly the `(i, j)` with
    /// `i < rows` and `j < cols`.
    #[verifier::external_body]
    pub(crate) fn dim_raw(&self) -> (r: (usize, usize))
        ensures
            r == grid_shape(*self),
            grid_cells(*self).dom() == Set::new(|k: (usize, usize)| k.0 < r.0 && k.1 < r.1),
    {
        self.array.dim()
    }

    /// The cell at `(i, j)`, or `None` when the index is outside the grid's shape.
    pub fn cell(&self, i: usize, j: usize) -> (r: Option<Cell>)
        ensures
            r == grid_at(*self, i, j),
    {
        self.get_elem(i, j)
    }

    /// The grid's shape `(rows, cols)`; the grid holds a cell at exactly the indices inside it.
    pub fn shape(&self) -> (r: (usize, usize))
        ensures
            r == grid_shape(*self),
            grid_cells(*self).dom() == Set::new(|k: (usize, usize)| k.0 < r.0 && k.1 < r.1),
    {
        self.dim_raw()
    }
}

} // verus!
