//! The grid snapshot type: per-cell wall flags plus highlighting state.

use vstd::prelude::*;

verus! {

/// One cell of the maze. The first field is true when the wall to the north
/// is open, the second when the wall to the east is open. Walls to the south
/// and west are owned by the neighboring cell's flags.
#[derive(Clone, Copy, Debug, PartialEq, Eq, Structural)]
pub struct GridCell(pub bool, pub bool);

/// An immutable snapshot of the maze: `width * height` cells in row-major
/// order (index `y * width + x`), the index of the cell the generator is
/// currently at, and the indices of cells to draw highlighted.
#[derive(Clone, Debug)]
pub struct Grid {
    pub width: usize,
    pub height: usize,
    pub cells: Vec<GridCell>,
    pub highlights: Vec<usize>,
    pub current_cell_index: usize,
}

impl Grid {
    /// A snapshot is well formed when both dimensions are positive, the cell
    /// array has exactly one cell per grid position, the cursor is at a cell
    /// or one past the last cell (the finished-maze sentinel), and every
    /// highlight names a cell.
    pub open spec fn wf(self) -> bool {
        &&& self.width >= 1
        &&& self.height >= 1
        &&& self.width * self.height <= usize::MAX
        &&& self.cells@.len() == self.width * self.height
        &&& self.current_cell_index <= self.width * self.height
        &&& forall|k: int|
            0 <= k < self.highlights@.len() ==> self.highlights@[k] < self.width * self.height
    }

    /// True when some highlight entry names cell `i`.
    pub open spec fn highlighted(self, i: int) -> bool {
        exists|k: int| 0 <= k < self.highlights@.len() && self.highlights@[k] == i
    }

    pub fn new(
        width: usize,
        height: usize,
        cells: Vec<GridCell>,
        current_cell_index: usize,
        highlights: Vec<usize>,
    ) -> (g: Grid)
        ensures
            g.width == width,
            g.height == height,
            g.cells == cells,
            g.current_cell_index == current_cell_index,
            g.highlights == highlights,
    {
        Grid { width, height, cells, highlights, current_cell_index }
    }

    /// The cell at column `x`, row `y`, or `None` when `y * width + x` is
    /// out of range.
    pub fn at(&self, x: usize, y: usize) -> (r: Option<&GridCell>)
        requires
            y * self.width + x <= usize::MAX,
        ensures
            r matches Some(c) ==> y * self.width + x < self.cells@.len() && *c == self.cells@[y
                * self.width + x],
            r is None ==> y * self.width + x >= self.cells@.len(),
    {
        let idx = y * self.width + x;
        if idx < self.cells.len() {
            Some(&self.cells[idx])
        } else {
            None
        }
    }
}

/// Copies a vector element by element, so a generator can hand out a
/// snapshot while keeping its own working arrays.
pub(crate) fn copy_vec<T: Copy>(v: &Vec<T>) -> (r: Vec<T>)
    ensures
        r@ == v@,
{
    let mut r: Vec<T> = Vec::new();
    let mut k: usize = 0;
    while k < v.len()
        invariant
            k <= v.len(),
            r@ == v@.subrange(0, k as int),
        decreases v.len() - k,
    {
        r.push(v[k]);
        k += 1;
    }
    assert(v@.subrange(0, v@.len() as int) == v@);
    r
}

} // verus!
