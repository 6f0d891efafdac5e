//! The maze under construction, as the program holds it, and the step that
//! advances its generation.

use crate::grid::{
    cell_of, cells_of, in_grid, Cell, Wall, WallOrientation, WallView, CELLS, COLS, ROWS,
};
use crate::laws::{
    lemma_candidates, lemma_initial_valid, lemma_step_counts_down, lemma_step_monotonic,
    lemma_step_valid,
};
use crate::model::{moves_of, MazeState};
use crate::random::random_index;
use vstd::prelude::*;

verus! {

/// Position of `c` in a row-major table of the grid.
spec fn cell_index(c: Cell) -> int {
    c.row * COLS + c.col
}

/// Position of the cell `(col, row)` in a row-major table of the grid.
fn table_index(col: usize, row: usize) -> (i: usize)
    requires
        col < COLS,
        row < ROWS,
    ensures
        i == cell_index(cell_of((col, row))),
        i < CELLS,
{
    row * COLS + col
}

/// No two cells of the grid share a position in the table.
proof fn lemma_cell_index_injective(a: Cell, b: Cell)
    requires
        in_grid(a),
        in_grid(b),
        cell_index(a) == cell_index(b),
    ensures
        a == b,
{
}

/// The maze under construction.
///
/// The visited cells and the removed walls are kept in row-major tables of
/// the grid, one entry for each cell: whether the cell is visited, and
/// whether the vertical and the horizontal wall anchored at it are removed.
#[derive(Debug)]
pub struct World {
    visited: Vec<bool>,
    stack: Vec<(usize, usize)>,
    removed_vertical: Vec<bool>,
    removed_horizontal: Vec<bool>,
}

impl View for World {
    type V = MazeState;

    closed spec fn view(&self) -> MazeState {
        MazeState {
            visited: Set::new(|c: Cell| in_grid(c) && self.visited@[cell_index(c)]),
            frontier: cells_of(self.stack@),
            removed_walls: Set::new(
                |w: WallView|
                    in_grid(w.anchor) && match w.orientation {
                        WallOrientation::Vertical => self.removed_vertical@[cell_index(w.anchor)],
                        WallOrientation::Horizontal => self.removed_horizontal@[cell_index(
                            w.anchor,
                        )],
                    },
            ),
        }
    }
}

impl Clone for World {
    /// A second maze in the same state.
    fn clone(&self) -> (copy: World)
        ensures
            copy@ == self@,
            copy.wf() == self.wf(),
    {
        let mut stack: Vec<(usize, usize)> = Vec::new();
        let mut i: usize = 0;
        while i < self.stack.len()
            invariant
                i <= self.stack@.len(),
                stack@ == self.stack@.take(i as int),
            decreases self.stack@.len() - i,
        {
            stack.push(self.stack[i]);
            i = i + 1;
        }
        let copy = World {
            visited: self.visited.clone(),
            stack,
            removed_vertical: self.removed_vertical.clone(),
            removed_horizontal: self.removed_horizontal.clone(),
        };
        proof {
            assert(copy.stack@ =~= self.stack@);
        }
        copy
    }
}

impl World {
    /// Whether each table has one entry for each cell of the grid.
    pub closed spec fn sized(&self) -> bool {
        &&& self.visited@.len() == CELLS
        &&& self.removed_vertical@.len() == CELLS
        &&& self.removed_horizontal@.len() == CELLS
    }

    /// Whether the tables fit the grid and the state they stand for is valid.
    pub open spec fn wf(&self) -> bool {
        self.sized() && self@.valid()
    }

    /// The maze in which generation starts: only the origin is visited, the
    /// path holds the origin alone, and every wall stands.
    pub fn new() -> (world: World)
        ensures
            world.wf(),
            world@ == MazeState::initial(),
    {
        let mut visited: Vec<bool> = vec![false; CELLS];
        visited[0] = true;
        let mut stack: Vec<(usize, usize)> = Vec::new();
        stack.push((0, 0));
        let world = World {
            visited,
            stack,
            removed_vertical: vec![false; CELLS],
            removed_horizontal: vec![false; CELLS],
        };
        proof {
            let s = MazeState::initial();
            assert(world@.visited =~= s.visited);
            assert(world@.frontier =~= s.frontier);
            assert(world@.removed_walls =~= s.removed_walls);
            lemma_initial_valid();
        }
        world
    }

    /// Whether the cell `(col, row)` has been visited. A cell off the grid
    /// has not.
    pub fn is_visited(&self, col: usize, row: usize) -> (b: bool)
        requires
            self.wf(),
        ensures
            b == self@.visited.contains(cell_of((col, row))),
    {
        col < COLS && row < ROWS && self.visited[table_index(col, row)]
    }

    /// Whether `wall` has been removed. A wall anchored off the grid has
    /// not.
    pub fn is_removed(&self, wall: &Wall) -> (b: bool)
        requires
            self.wf(),
        ensures
            b == self@.removed_walls.contains(wall@),
    {
        if wall.x < COLS && wall.y < ROWS {
            let i: usize = table_index(wall.x, wall.y);
            match wall.orientation {
                WallOrientation::Vertical => self.removed_vertical[i],
                WallOrientation::Horizontal => self.removed_horizontal[i],
            }
        } else {
            false
        }
    }

    /// The path of the search from the origin to its current cell, which is
    /// the last element. It is empty when generation is over.
    pub fn frontier(&self) -> (path: &Vec<(usize, usize)>)
        ensures
            cells_of(path@) == self@.frontier,
    {
        &self.stack
    }

    /// The moves open to the search from its current cell, in the order
    /// left, right, up, down; none when generation is over.
    pub fn candidates(&self) -> (moves: Vec<((usize, usize), WallOrientation)>)
        requires
            self.wf(),
        ensures
            moves_of(moves@) == self@.candidates(),
    {
        let mut moves: Vec<((usize, usize), WallOrientation)> = Vec::new();
        if self.stack.len() == 0 {
            return moves;
        }
        let (x, y): (usize, usize) = self.stack[self.stack.len() - 1];
        assert(cell_of((x, y)) == self@.current());
        assert(in_grid(self@.current()));
        if x > 0 {
            if !self.is_visited(x - 1, y) {
                moves.push(((x - 1, y), WallOrientation::Vertical));
            }
        }
        if x + 1 < COLS {
            if !self.is_visited(x + 1, y) {
                moves.push(((x + 1, y), WallOrientation::Vertical));
            }
        }
        if y > 0 {
            if !self.is_visited(x, y - 1) {
                moves.push(((x, y - 1), WallOrientation::Horizontal));
            }
        }
        if y + 1 < ROWS {
            if !self.is_visited(x, y + 1) {
                moves.push(((x, y + 1), WallOrientation::Horizontal));
            }
        }
        moves
    }

    /// Marks `cell` as visited and puts it on top of the path.
    fn enter(&mut self, cell: (usize, usize))
        requires
            old(self).sized(),
            in_grid(cell_of(cell)),
        ensures
            final(self).sized(),
            final(self)@.visited == old(self)@.visited.insert(cell_of(cell)),
            final(self)@.frontier == old(self)@.frontier.push(cell_of(cell)),
            final(self)@.removed_walls == old(self)@.removed_walls,
    {
        let ghost s = self@;
        self.visited[table_index(cell.0, cell.1)] = true;
        self.stack.push(cell);
        proof {
            assert forall|c: Cell| self@.visited.contains(c) == s.visited.insert(
                cell_of(cell),
            ).contains(c) by {
                if in_grid(c) && cell_index(c) == cell_index(cell_of(cell)) {
                    lemma_cell_index_injective(c, cell_of(cell));
                }
            }
        }
    }

    /// Takes the current cell off the path.
    fn leave(&mut self)
        requires
            old(self).sized(),
            !old(self)@.is_terminal(),
        ensures
            final(self).sized(),
            final(self)@ == old(self)@.backtrack(),
    {
        let ghost s = self@;
        self.stack.pop();
        proof {
            assert(self@.frontier =~= s.frontier.drop_last());
        }
    }

    /// Removes `wall`.
    fn remove(&mut self, wall: Wall)
        requires
            old(self).sized(),
            in_grid(wall@.anchor),
        ensures
            final(self).sized(),
            final(self)@.visited == old(self)@.visited,
            final(self)@.frontier == old(self)@.frontier,
            final(self)@.removed_walls == old(self)@.removed_walls.insert(wall@),
    {
        let ghost s = self@;
        let i: usize = table_index(wall.x, wall.y);
        match wall.orientation {
            WallOrientation::Vertical => {
                self.removed_vertical[i] = true;
            },
            WallOrientation::Horizontal => {
                self.removed_horizontal[i] = true;
            },
        }
        proof {
            assert forall|w: WallView| self@.removed_walls.contains(w) == s.removed_walls.insert(
                wall@,
            ).contains(w) by {
                if in_grid(w.anchor) && cell_index(w.anchor) == cell_index(wall@.anchor) {
                    lemma_cell_index_injective(w.anchor, wall@.anchor);
                }
            }
        }
    }

    /// One step of the search, in which `pick` decides between the moves
    /// that are open: the one at position `pick` modulo their count is made.
    ///
    /// Returns whether the search has entered a new cell, so that the
    /// picture of the maze has changed. When generation is over nothing
    /// changes. Where no move is open the search steps back from its current
    /// cell, and the picture stays as it is.
    pub fn update_with(&mut self, pick: usize) -> (redraw: bool)
        requires
            old(self).wf(),
        ensures
            final(self).wf(),
            final(self)@ == old(self)@.step(pick as int),
            redraw == old(self)@.can_advance(),
            old(self)@.visited.subset_of(final(self)@.visited),
            old(self)@.removed_walls.subset_of(final(self)@.removed_walls),
            !old(self)@.is_terminal() ==> final(self)@.steps_left() == old(self)@.steps_left() - 1,
    {
        let ghost s = self@;
        proof {
            lemma_step_valid(s, pick as int);
            lemma_step_monotonic(s, pick as int);
            lemma_step_counts_down(s, pick as int);
            lemma_candidates(s);
        }
        if self.stack.len() == 0 {
            return false;
        }
        let moves = self.candidates();
        if moves.len() == 0 {
            self.leave();
            return false;
        }
        let k: usize = pick % moves.len();
        let (next, orientation): ((usize, usize), WallOrientation) = moves[k];
        let current: (usize, usize) = self.stack[self.stack.len() - 1];
        let wall = Wall::between(current, next, orientation);
        self.enter(next);
        self.remove(wall);
        true
    }

    /// One step of the search, in which chance decides between the moves
    /// that are open.
    ///
    /// Returns whether the search has entered a new cell, so that the
    /// picture of the maze has changed. When generation is over nothing
    /// changes. Where no move is open the search steps back from its current
    /// cell, and the picture stays as it is.
    pub fn update(&mut self) -> (redraw: bool)
        requires
            old(self).wf(),
        ensures
            final(self).wf(),
            old(self)@.steps_to(final(self)@),
            redraw == old(self)@.can_advance(),
            old(self)@.visited.subset_of(final(self)@.visited),
            old(self)@.removed_walls.subset_of(final(self)@.removed_walls),
            !old(self)@.is_terminal() ==> final(self)@.steps_left() == old(self)@.steps_left() - 1,
    {
        let count: usize = self.candidates().len();
        let pick: usize = if count > 0 {
            random_index(count)
        } else {
            0
        };
        self.update_with(pick)
    }
}

} // verus!
