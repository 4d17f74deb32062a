//! Bounds-checked access to a jagged grid of tile characters.
//!
//! Rows may differ in length, so a column check always consults the specific
//! row's length. A read distinguishes "off the grid" (`None`) from a tile
//! value; a write outside the grid is silently dropped.

use vstd::prelude::*;

verus! {

/// A puzzle level: rows of single-character tiles. Rows may differ in length.
pub type Grid = Vec<Vec<char>>;

/// Whether (row `y`, column `x`) lies on the grid, judged against row `y`'s
/// own length.
pub open spec fn in_bounds(g: Seq<Seq<char>>, y: int, x: int) -> bool {
    0 <= y < g.len() && 0 <= x < g[y].len()
}

/// The tile at (row `y`, column `x`), or `None` when the cell is off the grid.
pub open spec fn tile_at(g: Seq<Seq<char>>, y: int, x: int) -> Option<char> {
    if in_bounds(g, y, x) {
        Some(g[y][x])
    } else {
        None
    }
}

/// The grid with `v` stored at (row `y`, column `x`) when that cell is on the
/// grid; the grid unchanged otherwise.
pub open spec fn grid_set(g: Seq<Seq<char>>, y: int, x: int, v: char) -> Seq<Seq<char>> {
    if in_bounds(g, y, x) {
        g.update(y, g[y].update(x, v))
    } else {
        g
    }
}

/// Total number of cells over all rows.
pub open spec fn cell_count(g: Seq<Seq<char>>) -> nat
    decreases g.len(),
{
    if g.len() == 0 {
        0
    } else {
        cell_count(g.drop_last()) + g.last().len()
    }
}

/// Machine-size bounds that any real `Vec<Vec<char>>` satisfies: the number
/// of rows and each row's length fit in `isize`, and the total number of
/// cells fits in `usize`.
pub open spec fn grid_fits(g: Seq<Seq<char>>) -> bool {
    &&& g.len() <= isize::MAX as int
    &&& forall|y: int| 0 <= y < g.len() ==> (#[trigger] g[y].len()) <= isize::MAX as int
    &&& cell_count(g) <= usize::MAX as int
}

/// Writing a cell never changes the grid's shape: the row count and every
/// row's length are those of the original grid.
pub proof fn lemma_grid_set_shape(g: Seq<Seq<char>>, y: int, x: int, v: char)
    ensures
        grid_set(g, y, x, v).len() == g.len(),
        forall|i: int| 0 <= i < g.len() ==> (#[trigger] grid_set(g, y, x, v)[i].len()) == g[i].len(),
{
}

/// Grids of the same shape have the same number of cells.
pub proof fn lemma_cell_count_same_shape(g1: Seq<Seq<char>>, g2: Seq<Seq<char>>)
    requires
        g1.len() == g2.len(),
        forall|i: int| 0 <= i < g1.len() ==> (#[trigger] g1[i].len()) == g2[i].len(),
    ensures
        cell_count(g1) == cell_count(g2),
    decreases g1.len(),
{
    if g1.len() > 0 {
        lemma_cell_count_same_shape(g1.drop_last(), g2.drop_last());
    }
}

/// Bounds-checked read of the tile at (row `y`, column `x`).
///
/// Returns `None` when either coordinate is negative, the row index is past
/// the last row, or the column index is past the end of that specific row.
pub fn get2d(grid: &Grid, y: isize, x: isize) -> (r: Option<char>)
    ensures
        r == tile_at(grid.deep_view(), y as int, x as int),
{
    if x < 0 || y < 0 {
        return None;
    }
    let yu = y as usize;
    if yu >= grid.len() {
        return None;
    }
    let xu = x as usize;
    if xu >= grid[yu].len() {
        assert(grid.deep_view()[y as int].len() == grid@[y as int]@.len());
        return None;
    }
    let tile = grid[yu][xu];
    assert(grid.deep_view()[y as int][x as int] == grid@[y as int]@[x as int]);
    Some(tile)
}

/// Bounds-checked write of `value` at (row `y`, column `x`): a write outside
/// the grid is silently dropped, never an error.
pub fn set2d(grid: &mut Grid, value: char, y: isize, x: isize)
    ensures
        final(grid).deep_view() == grid_set(old(grid).deep_view(), y as int, x as int, value),
{
    if x < 0 || y < 0 {
        return;
    }
    let yu = y as usize;
    if yu >= grid.len() {
        return;
    }
    let xu = x as usize;
    if xu >= grid[yu].len() {
        assert(grid.deep_view()[y as int].len() == grid@[y as int]@.len());
        return;
    }
    grid[yu][xu] = value;
    assert(grid.deep_view() =~~= grid_set(old(grid).deep_view(), y as int, x as int, value));
}

} // verus!
