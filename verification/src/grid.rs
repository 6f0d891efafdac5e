//! The grid: its dimensions, its cells and the walls between them.

use vstd::prelude::*;

verus! {

/// Number of columns of the grid.
pub const COLS: usize = 30;

/// Number of rows of the grid.
pub const ROWS: usize = 30;

/// Number of cells of the grid.
pub const CELLS: usize = COLS * ROWS;

/// A cell of the grid: its column and its row, both counted from zero.
///
/// This is the mathematical model; executable code writes a cell as a pair
/// `(col, row)` of `usize`, which [`cell_of`] maps to its model.
pub struct Cell {
    pub col: int,
    pub row: int,
}

impl Cell {
    /// The cell one column to the left.
    pub open spec fn left(self) -> Cell {
        Cell { col: self.col - 1, row: self.row }
    }

    /// The cell one column to the right.
    pub open spec fn right(self) -> Cell {
        Cell { col: self.col + 1, row: self.row }
    }

    /// The cell one row up.
    pub open spec fn up(self) -> Cell {
        Cell { col: self.col, row: self.row - 1 }
    }

    /// The cell one row down.
    pub open spec fn down(self) -> Cell {
        Cell { col: self.col, row: self.row + 1 }
    }

    /// Whether `other` is one of the four axis-neighbours of this cell.
    pub open spec fn adjacent(self, other: Cell) -> bool {
        other == self.left() || other == self.right() || other == self.up() || other
            == self.down()
    }
}

/// The cell where generation starts.
pub open spec fn origin() -> Cell {
    Cell { col: 0, row: 0 }
}

/// Whether `c` lies on the grid.
pub open spec fn in_grid(c: Cell) -> bool {
    0 <= c.col < COLS && 0 <= c.row < ROWS
}

/// The set of all cells of the grid.
pub open spec fn grid_cells() -> Set<Cell> {
    Set::new(|c: Cell| in_grid(c))
}

/// The model of the cell that executable code writes as `(col, row)`.
pub open spec fn cell_of(c: (usize, usize)) -> Cell {
    Cell { col: c.0 as int, row: c.1 as int }
}

/// The models of a sequence of cells.
pub open spec fn cells_of(cells: Seq<(usize, usize)>) -> Seq<Cell> {
    Seq::new(cells.len(), |i: int| cell_of(cells[i]))
}

/// The direction in which a wall runs.
///
/// A vertical wall stands between two cells of one row; a horizontal wall
/// lies between two cells of one column.
#[derive(Clone, Copy, Debug, PartialEq, Eq, Hash, Structural)]
pub enum WallOrientation {
    Vertical,
    Horizontal,
}

/// The potential partition between two adjacent cells, named by its
/// orientation and its anchor `(x, y)`: of the two cells, the one with the
/// smaller coordinates.
#[derive(Clone, Copy, Debug, PartialEq, Eq, Hash, Structural)]
pub struct Wall {
    pub orientation: WallOrientation,
    pub x: usize,
    pub y: usize,
}

/// The model of a [`Wall`].
pub struct WallView {
    pub orientation: WallOrientation,
    pub anchor: Cell,
}

impl WallView {
    /// The cell on the other side of the wall from its anchor: the right
    /// neighbour of the anchor for a vertical wall, the lower neighbour for a
    /// horizontal one.
    pub open spec fn far_side(self) -> Cell {
        match self.orientation {
            WallOrientation::Vertical => self.anchor.right(),
            WallOrientation::Horizontal => self.anchor.down(),
        }
    }

    /// Whether this wall is the one between the cells `a` and `b`.
    pub open spec fn separates(self, a: Cell, b: Cell) -> bool {
        (a == self.anchor && b == self.far_side()) || (b == self.anchor && a == self.far_side())
    }
}

impl View for Wall {
    type V = WallView;

    open spec fn view(&self) -> WallView {
        WallView { orientation: self.orientation, anchor: cell_of((self.x, self.y)) }
    }
}

/// The smaller of two integers.
pub open spec fn min(a: int, b: int) -> int {
    if a <= b {
        a
    } else {
        b
    }
}

/// The wall of the given orientation anchored at the coordinate-wise minimum
/// of `a` and `b`.
///
/// For two adjacent cells, with the orientation that fits the way they lie,
/// this is the wall between them: see [`lemma_wall_between_separates`].
pub open spec fn wall_between(a: Cell, b: Cell, orientation: WallOrientation) -> WallView {
    WallView { orientation, anchor: Cell { col: min(a.col, b.col), row: min(a.row, b.row) } }
}

/// The orientation of the wall between a cell and its neighbour `b`, when `a`
/// and `b` are adjacent: vertical for two cells of one row, horizontal for
/// two cells of one column.
pub open spec fn orientation_between(a: Cell, b: Cell) -> WallOrientation {
    if a.row == b.row {
        WallOrientation::Vertical
    } else {
        WallOrientation::Horizontal
    }
}

impl Wall {
    /// The wall of the given orientation anchored at the coordinate-wise
    /// minimum of the cells `a` and `b`.
    pub fn between(a: (usize, usize), b: (usize, usize), orientation: WallOrientation) -> (w:
        Wall)
        ensures
            w@ == wall_between(cell_of(a), cell_of(b), orientation),
    {
        let x: usize = if a.0 <= b.0 {
            a.0
        } else {
            b.0
        };
        let y: usize = if a.1 <= b.1 {
            a.1
        } else {
            b.1
        };
        Wall { orientation, x, y }
    }
}

/// The canonical anchor makes one wall of each pair of adjacent cells: the
/// wall computed for `a` and `b` separates exactly these two cells, which are
/// distinct, and it is the same wall whichever of the two comes first.
pub proof fn lemma_wall_between_separates(a: Cell, b: Cell)
    requires
        a.adjacent(b),
    ensures
        a != b,
        wall_between(a, b, orientation_between(a, b)).separates(a, b),
        wall_between(a, b, orientation_between(a, b)) == wall_between(
            b,
            a,
            orientation_between(b, a),
        ),
{
}

/// A wall stands between two distinct adjacent cells, and it is the wall
/// that the canonical anchor gives for them.
pub proof fn lemma_wall_sides(w: WallView, a: Cell, b: Cell)
    requires
        w.separates(a, b),
    ensures
        a != b,
        a.adjacent(b),
        w == wall_between(a, b, orientation_between(a, b)),
{
}

/// A wall names one pair of cells, in either order, and a pair of cells has
/// one wall.
pub proof fn lemma_wall_names_one_pair(w: WallView, v: WallView, a: Cell, b: Cell, c: Cell, d: Cell)
    requires
        w.separates(a, b),
    ensures
        w.separates(b, a),
        w.separates(c, d) ==> (c == a && d == b) || (c == b && d == a),
        v.separates(a, b) ==> v == w,
{
}

/// The grid has `COLS * ROWS` cells.
pub proof fn lemma_grid_size()
    ensures
        grid_cells().finite(),
        grid_cells().len() == CELLS,
{
    let indices = vstd::set_lib::set_int_range(0, CELLS as int);
    let cell_at = |i: int| Cell { col: i % (COLS as int), row: i / (COLS as int) };
    vstd::set_lib::lemma_int_range(0, CELLS as int);
    assert forall|c: Cell| grid_cells().contains(c) implies indices.map(cell_at).contains(c) by {
        let i: int = c.row * COLS + c.col;
        assert(indices.contains(i));
    }
    assert(indices.map(cell_at) =~= grid_cells());
    vstd::set_lib::lemma_map_size(indices, grid_cells(), cell_at);
}

} // verus!
