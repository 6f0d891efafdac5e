//! The mathematical model of the maze under construction and of one step of
//! the depth-first search that builds it.

use crate::grid::{
    cell_of, in_grid, orientation_between, origin, wall_between, Cell, WallOrientation,
    WallView, CELLS,
};
use vstd::prelude::*;

verus! {

/// A move that the search may make from its current cell: the neighbour it
/// enters and the orientation of the wall it knocks down on the way.
pub struct Move {
    pub target: Cell,
    pub orientation: WallOrientation,
}

/// The model of the move that executable code writes as a pair of the
/// target cell and the orientation of the wall.
pub open spec fn move_of(m: ((usize, usize), WallOrientation)) -> Move {
    Move { target: cell_of(m.0), orientation: m.1 }
}

/// The models of a sequence of moves.
pub open spec fn moves_of(moves: Seq<((usize, usize), WallOrientation)>) -> Seq<Move> {
    Seq::new(moves.len(), |i: int| move_of(moves[i]))
}

/// The state of the maze under construction.
pub struct MazeState {
    /// The cells that the search has entered.
    pub visited: Set<Cell>,
    /// The path of the search from the origin to its current cell, which is
    /// the last element. Generation is over when the path is empty.
    pub frontier: Seq<Cell>,
    /// The walls that have been knocked down: the passages of the maze.
    pub removed_walls: Set<WallView>,
}

impl MazeState {
    /// The state in which generation starts: only the origin is visited, the
    /// path holds the origin alone, and every wall stands.
    pub open spec fn initial() -> MazeState {
        MazeState {
            visited: Set::empty().insert(origin()),
            frontier: Seq::empty().push(origin()),
            removed_walls: Set::empty(),
        }
    }

    /// Whether generation is over.
    pub open spec fn is_terminal(self) -> bool {
        self.frontier.len() == 0
    }

    /// The cell at which the search stands. Meaningful unless the state is
    /// terminal.
    pub open spec fn current(self) -> Cell {
        self.frontier.last()
    }

    /// Whether the search may enter `c`: it lies on the grid and has not been
    /// visited.
    pub open spec fn eligible(self, c: Cell) -> bool {
        in_grid(c) && !self.visited.contains(c)
    }

    /// The move into `c` through a wall of the given orientation, if `c` is
    /// eligible, as a sequence of one or no element.
    pub open spec fn move_into(self, c: Cell, orientation: WallOrientation) -> Seq<Move> {
        if self.eligible(c) {
            Seq::empty().push(Move { target: c, orientation })
        } else {
            Seq::empty()
        }
    }

    /// The moves open to the search from its current cell, in the order
    /// left, right, up, down; none in a terminal state. The neighbours to
    /// the left and right lie behind vertical walls, those above and below
    /// behind horizontal ones.
    pub open spec fn candidates(self) -> Seq<Move> {
        if self.is_terminal() {
            Seq::empty()
        } else {
            let c = self.current();
            self.move_into(c.left(), WallOrientation::Vertical) + self.move_into(
                c.right(),
                WallOrientation::Vertical,
            ) + self.move_into(c.up(), WallOrientation::Horizontal) + self.move_into(
                c.down(),
                WallOrientation::Horizontal,
            )
        }
    }

    /// Whether every neighbour of `c` that lies on the grid has been visited.
    pub open spec fn surrounded(self, c: Cell) -> bool {
        &&& !self.eligible(c.left())
        &&& !self.eligible(c.right())
        &&& !self.eligible(c.up())
        &&& !self.eligible(c.down())
    }

    /// Whether the next step enters a new cell, which is when the picture of
    /// the maze changes.
    pub open spec fn can_advance(self) -> bool {
        self.candidates().len() > 0
    }

    /// The state after the search has made the move `m`: its target is
    /// visited and on top of the path, and the wall between the former
    /// current cell and the target is removed.
    pub open spec fn advance(self, m: Move) -> MazeState {
        MazeState {
            visited: self.visited.insert(m.target),
            frontier: self.frontier.push(m.target),
            removed_walls: self.removed_walls.insert(
                wall_between(self.current(), m.target, m.orientation),
            ),
        }
    }

    /// The state after the search has stepped back from its current cell.
    pub open spec fn backtrack(self) -> MazeState {
        MazeState {
            visited: self.visited,
            frontier: self.frontier.drop_last(),
            removed_walls: self.removed_walls,
        }
    }

    /// The move that the number `pick` selects among the candidates: the one
    /// at position `pick` modulo their count. Meaningful when there is a
    /// candidate.
    pub open spec fn choice(self, pick: int) -> Move {
        self.candidates()[pick % (self.candidates().len() as int)]
    }

    /// The state after one step of the search, where `pick` decides between
    /// the candidates if there are several.
    ///
    /// A terminal state stays as it is. Where no move is open, the search
    /// steps back. Otherwise it makes the chosen move.
    pub open spec fn step(self, pick: int) -> MazeState {
        if self.is_terminal() {
            self
        } else if self.candidates().len() == 0 {
            self.backtrack()
        } else {
            self.advance(self.choice(pick))
        }
    }

    /// Whether `next` can follow this state by one step of the search.
    pub open spec fn steps_to(self, next: MazeState) -> bool {
        exists|pick: int| next == #[trigger] self.step(pick)
    }

    /// The state that a generation has reached after one step for each
    /// element of `picks`, in order, from the initial state.
    pub open spec fn after(picks: Seq<int>) -> MazeState
        decreases picks.len(),
    {
        if picks.len() == 0 {
            MazeState::initial()
        } else {
            MazeState::after(picks.drop_last()).step(picks.last())
        }
    }

    /// The number of steps that a generation still takes from this state
    /// until it is over: two for each cell not yet visited, to enter it and
    /// to step back from it, and one to step back from each cell on the path.
    pub open spec fn steps_left(self) -> int {
        2 * (CELLS - self.visited.len()) + self.frontier.len()
    }

    /// Whether `a` and `b` are neighbours and the wall between them has been
    /// removed, so that one can pass from one to the other.
    pub open spec fn open_between(self, a: Cell, b: Cell) -> bool {
        a.adjacent(b) && self.removed_walls.contains(
            wall_between(a, b, orientation_between(a, b)),
        )
    }

    /// Whether one can walk along `route` through the maze: from each of its
    /// cells to the next there is a passage.
    pub open spec fn is_route(self, route: Seq<Cell>) -> bool {
        forall|i: int, j: int|
            0 <= i && j == i + 1 && j < route.len() ==> self.open_between(
                #[trigger] route[i],
                #[trigger] route[j],
            )
    }

    /// Whether `route` is a walk through the maze from `from` to `to`.
    pub open spec fn connects(self, route: Seq<Cell>, from: Cell, to: Cell) -> bool {
        &&& route.len() > 0
        &&& route[0] == from
        &&& route.last() == to
        &&& self.is_route(route)
    }

    /// Whether one can walk through the maze from the origin to `c`.
    pub open spec fn reachable(self, c: Cell) -> bool {
        exists|route: Seq<Cell>| #[trigger] self.connects(route, origin(), c)
    }

    /// Whether the search has left no cell too early: every visited cell
    /// that is not on the path is surrounded.
    #[verifier::opaque]
    pub open spec fn settled(self) -> bool {
        forall|c: Cell| #[trigger]
            self.visited.contains(c) ==> self.frontier.contains(c) || self.surrounded(c)
    }

    /// Whether one can walk through the maze from the origin to every
    /// visited cell.
    #[verifier::opaque]
    pub open spec fn connected(self) -> bool {
        forall|c: Cell| #[trigger] self.visited.contains(c) ==> self.reachable(c)
    }

    /// Whether the state can arise in a generation.
    ///
    /// Visited cells lie on the grid and the origin is among them. The path
    /// is a walk through the maze that starts at the origin and passes no
    /// cell twice, and its cells are visited. A visited cell that is no
    /// longer on the path has no unvisited neighbour left. Every removed wall
    /// stands between two visited cells, every visited cell can be reached
    /// from the origin, and there is one removed wall for each visited cell
    /// but the origin.
    pub open spec fn valid(self) -> bool {
        &&& self.visited.finite()
        &&& self.removed_walls.finite()
        &&& self.visited.contains(origin())
        &&& forall|c: Cell| #[trigger] self.visited.contains(c) ==> in_grid(c)
        &&& forall|i: int|
            0 <= i < self.frontier.len() ==> self.visited.contains(#[trigger] self.frontier[i])
        &&& self.frontier.len() > 0 ==> self.frontier[0] == origin()
        &&& self.frontier.no_duplicates()
        &&& self.is_route(self.frontier)
        &&& self.settled()
        &&& forall|w: WallView| #[trigger]
            self.removed_walls.contains(w) ==> self.visited.contains(w.anchor)
                && self.visited.contains(w.far_side())
        &&& self.connected()
        &&& self.removed_walls.len() + 1 == self.visited.len()
    }
}

} // verus!
