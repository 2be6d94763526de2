//! The grid mapper: pure coordinate conversion between continuous world
//! positions and discrete grid cells.

use vstd::prelude::*;

verus! {

/// Side length, in world units, of one grid cell.
pub const CELL_SIZE: u32 = 64;

/// Side length, in cells, of the default navigation field.
pub const GRID_SIZE: usize = 32;

/// Largest side length a field may have.  Keeps every propagated cost
/// strictly below the `u32::MAX` sentinel and every flat index within a
/// 32-bit `usize`.
pub const MAX_SIDE: usize = 0x4000;

/// A continuous world position, given as the unsigned integer coordinates
/// that the grid mapper reads.  The host truncates its floating-point
/// positions to these coordinates at the boundary.
#[derive(Clone, Copy, PartialEq, Eq, Structural, Debug)]
pub struct WorldPos {
    pub x: u32,
    pub y: u32,
}

/// A discrete cell of the navigation grid.
#[derive(Clone, Copy, PartialEq, Eq, Structural, Debug)]
pub struct GridCell {
    pub x: u32,
    pub y: u32,
}

impl View for GridCell {
    type V = (int, int);

    open spec fn view(&self) -> (int, int) {
        (self.x as int, self.y as int)
    }
}

/// The cell that contains a world position: each coordinate divided by the
/// cell size, rounded toward zero.
pub open spec fn cell_of(pos: WorldPos) -> (int, int) {
    (pos.x as int / CELL_SIZE as int, pos.y as int / CELL_SIZE as int)
}

/// Whether a cell lies within a field of side length `n`.
pub open spec fn in_bounds(n: int, c: (int, int)) -> bool {
    0 <= c.0 < n && 0 <= c.1 < n
}

/// The set of cells named by a sequence of grid cells.
pub open spec fn cell_set(s: Seq<GridCell>) -> Set<(int, int)> {
    Set::new(|c: (int, int)| exists|i: int| 0 <= i < s.len() && s[i]@ == c)
}

/// Linear membership test against a list of cells.
pub fn contains_cell(cells: &Vec<GridCell>, c: &GridCell) -> (r: bool)
    ensures
        r == cell_set(cells@).contains(c@),
{
    let mut i: usize = 0;
    while i < cells.len()
        invariant
            i <= cells@.len(),
            forall|j: int| 0 <= j < i ==> cells@[j]@ != c@,
        decreases cells@.len() - i,
    {
        if cells[i].x == c.x && cells[i].y == c.y {
            assert(cell_set(cells@).contains(c@));
            return true;
        }
        i = i + 1;
    }
    assert(!cell_set(cells@).contains(c@));
    false
}

} // verus!
