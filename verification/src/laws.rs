//! What holds of every generation: the search never undoes its work, it
//! visits every cell, it leaves a spanning tree of passages, and it is over
//! after a bounded number of steps.

use crate::grid::{
    grid_cells, in_grid, lemma_grid_size, lemma_wall_between_separates, orientation_between,
    origin, wall_between, Cell, WallView, CELLS,
};
use crate::model::{MazeState, Move};
use vstd::prelude::*;

verus! {

/// Every candidate enters an unvisited cell of the grid that is a neighbour
/// of the current cell, through the wall whose orientation fits the way the
/// two cells lie; and there is no candidate exactly when the current cell is
/// surrounded.
pub proof fn lemma_candidates(s: MazeState)
    ensures
        s.candidates().len() <= 4,
        forall|k: int|
            0 <= k < s.candidates().len() ==> s.eligible((#[trigger] s.candidates()[k]).target),
        forall|k: int|
            0 <= k < s.candidates().len() ==> s.current().adjacent(
                (#[trigger] s.candidates()[k]).target,
            ),
        forall|k: int|
            0 <= k < s.candidates().len() ==> (#[trigger] s.candidates()[k]).orientation
                == orientation_between(s.current(), s.candidates()[k].target),
        !s.is_terminal() ==> (s.candidates().len() == 0 <==> s.surrounded(s.current())),
{
}

/// A walk through the maze stays one when more walls are removed.
proof fn lemma_route_persists(s: MazeState, t: MazeState, route: Seq<Cell>)
    requires
        s.removed_walls.subset_of(t.removed_walls),
        s.is_route(route),
    ensures
        t.is_route(route),
{
}

/// The cells that can be reached from the origin stay so when more walls
/// are removed.
proof fn lemma_reachable_persists(s: MazeState, t: MazeState, c: Cell)
    requires
        s.removed_walls.subset_of(t.removed_walls),
        s.reachable(c),
    ensures
        t.reachable(c),
{
    let route = choose|route: Seq<Cell>| #[trigger] s.connects(route, origin(), c);
    lemma_route_persists(s, t, route);
    assert(t.connects(route, origin(), c));
}

/// The state in which generation starts is valid.
pub proof fn lemma_initial_valid()
    ensures
        MazeState::initial().valid(),
        !MazeState::initial().is_terminal(),
{
    let s = MazeState::initial();
    reveal(MazeState::settled);
    reveal(MazeState::connected);
    assert(s.frontier[0] == origin());
    assert(s.connects(s.frontier, origin(), origin()));
}

/// Stepping back from a surrounded cell keeps the state valid.
proof fn lemma_backtrack_valid(s: MazeState)
    requires
        s.valid(),
        !s.is_terminal(),
        s.candidates().len() == 0,
    ensures
        s.backtrack().valid(),
{
    let t = s.backtrack();
    reveal(MazeState::settled);
    reveal(MazeState::connected);
    lemma_candidates(s);
    assert forall|c: Cell| #[trigger] t.visited.contains(c) implies t.frontier.contains(c)
        || t.surrounded(c) by {
        if s.frontier.contains(c) {
            let i: int = choose|i: int| 0 <= i < s.frontier.len() && s.frontier[i] == c;
            if i < s.frontier.len() - 1 {
                assert(t.frontier[i] == c);
            }
        }
    }
    assert forall|c: Cell| #[trigger] t.visited.contains(c) implies t.reachable(c) by {
        lemma_reachable_persists(s, t, c);
    }
}

/// Making a move that is open keeps the state valid.
proof fn lemma_advance_valid(s: MazeState, m: Move)
    requires
        s.valid(),
        !s.is_terminal(),
        s.eligible(m.target),
        s.current().adjacent(m.target),
        m.orientation == orientation_between(s.current(), m.target),
    ensures
        s.advance(m).valid(),
{
    let t = s.advance(m);
    let last: int = s.frontier.len() - 1;
    reveal(MazeState::settled);
    reveal(MazeState::connected);
    lemma_wall_between_separates(s.current(), m.target);
    assert(t.frontier[last + 1] == m.target);
    assert forall|c: Cell| #[trigger] t.visited.contains(c) implies t.frontier.contains(c)
        || t.surrounded(c) by {
        if c != m.target && s.frontier.contains(c) {
            let i: int = choose|i: int| 0 <= i < s.frontier.len() && s.frontier[i] == c;
            assert(t.frontier[i] == c);
        }
    }
    assert forall|c: Cell| #[trigger] t.visited.contains(c) implies t.reachable(c) by {
        if c == m.target {
            assert(t.connects(t.frontier, origin(), c));
        } else {
            lemma_reachable_persists(s, t, c);
        }
    }
}

/// A step keeps the state valid, whatever is picked.
pub proof fn lemma_step_valid(s: MazeState, pick: int)
    requires
        s.valid(),
    ensures
        s.step(pick).valid(),
{
    if !s.is_terminal() {
        lemma_candidates(s);
        if s.candidates().len() == 0 {
            lemma_backtrack_valid(s);
        } else {
            let m = s.choice(pick);
            lemma_advance_valid(s, m);
        }
    }
}

/// A step never takes a cell out of the visited set nor puts a wall back.
pub proof fn lemma_step_monotonic(s: MazeState, pick: int)
    ensures
        s.visited.subset_of(s.step(pick).visited),
        s.removed_walls.subset_of(s.step(pick).removed_walls),
{
}

/// A step from a terminal state changes nothing, and no later step does.
pub proof fn lemma_terminal_is_final(s: MazeState, pick: int)
    requires
        s.is_terminal(),
    ensures
        s.step(pick) == s,
        s.step(pick).is_terminal(),
        !s.can_advance(),
{
}

/// In a valid terminal state, the cell `c` of the grid is visited.
proof fn lemma_terminal_reaches(s: MazeState, c: Cell)
    requires
        s.valid(),
        s.is_terminal(),
        in_grid(c),
    ensures
        s.visited.contains(c),
    decreases c.col + c.row,
{
    reveal(MazeState::settled);
    if c.col > 0 {
        lemma_terminal_reaches(s, c.left());
        assert(s.surrounded(c.left()));
    } else if c.row > 0 {
        lemma_terminal_reaches(s, c.up());
        assert(s.surrounded(c.up()));
    }
}

/// Once generation is over, every cell of the grid has been visited.
pub proof fn lemma_terminal_covers_grid(s: MazeState)
    requires
        s.valid(),
        s.is_terminal(),
    ensures
        s.visited == grid_cells(),
        s.visited.len() == CELLS,
{
    assert forall|c: Cell| in_grid(c) implies s.visited.contains(c) by {
        lemma_terminal_reaches(s, c);
    }
    lemma_grid_size();
}

/// There is one removed wall for each visited cell but the origin, at every
/// moment of a generation; once it is over, the removed walls are one fewer
/// than the cells of the grid.
pub proof fn lemma_wall_count(s: MazeState)
    requires
        s.valid(),
    ensures
        s.removed_walls.len() == s.visited.len() - 1,
        1 <= s.visited.len() <= CELLS,
        s.is_terminal() ==> s.removed_walls.len() == CELLS - 1,
{
    lemma_grid_size();
    vstd::set_lib::lemma_len_subset(s.visited, grid_cells());
    if s.is_terminal() {
        lemma_terminal_covers_grid(s);
    }
}

/// Every removed wall stands between two distinct adjacent cells of the
/// grid, both of them visited.
pub proof fn lemma_removed_wall_joins_visited(s: MazeState, w: WallView)
    requires
        s.valid(),
        s.removed_walls.contains(w),
    ensures
        w.anchor != w.far_side(),
        w.anchor.adjacent(w.far_side()),
        w.separates(w.anchor, w.far_side()),
        in_grid(w.anchor) && in_grid(w.far_side()),
        s.visited.contains(w.anchor) && s.visited.contains(w.far_side()),
{
}

/// A step that advances visits exactly one new cell, a neighbour of the
/// current cell, and removes exactly one wall that stood until then: the
/// wall between the current cell, already visited, and the new one.
pub proof fn lemma_advance_removes_one_wall(s: MazeState, pick: int)
    requires
        s.valid(),
        s.can_advance(),
    ensures
        ({
            let m = s.choice(pick);
            let w = wall_between(s.current(), m.target, m.orientation);
            let t = s.step(pick);
            &&& s.current().adjacent(m.target)
            &&& s.current() != m.target
            &&& w.separates(s.current(), m.target)
            &&& s.visited.contains(s.current())
            &&& !s.visited.contains(m.target)
            &&& !s.removed_walls.contains(w)
            &&& t.visited == s.visited.insert(m.target)
            &&& t.removed_walls == s.removed_walls.insert(w)
            &&& t.frontier == s.frontier.push(m.target)
            &&& t.visited.len() == s.visited.len() + 1
            &&& t.removed_walls.len() == s.removed_walls.len() + 1
        }),
{
    lemma_candidates(s);
    let m = s.choice(pick);
    lemma_wall_between_separates(s.current(), m.target);
}

/// A step that cannot advance only takes the current cell off the path.
pub proof fn lemma_backtrack_keeps_sets(s: MazeState, pick: int)
    requires
        !s.is_terminal(),
        !s.can_advance(),
    ensures
        s.step(pick).visited == s.visited,
        s.step(pick).removed_walls == s.removed_walls,
        s.step(pick).frontier == s.frontier.drop_last(),
{
}

/// While generation goes on, the path is a walk through the maze from the
/// origin to the current cell that passes no cell twice.
pub proof fn lemma_frontier_is_route(s: MazeState)
    requires
        s.valid(),
        !s.is_terminal(),
    ensures
        s.connects(s.frontier, origin(), s.current()),
        s.frontier.no_duplicates(),
{
}

/// One can walk through the maze from the origin to every visited cell.
pub proof fn lemma_visited_is_reachable(s: MazeState, c: Cell)
    requires
        s.valid(),
        s.visited.contains(c),
    ensures
        s.reachable(c),
{
    reveal(MazeState::connected);
}

/// The finished maze is perfect: one can walk from the origin to every cell
/// of the grid, through passages that are one fewer than the cells, which
/// is as few as can join them all.
pub proof fn lemma_finished_maze_is_perfect(s: MazeState, c: Cell)
    requires
        s.valid(),
        s.is_terminal(),
        in_grid(c),
    ensures
        s.reachable(c),
        s.removed_walls.len() == CELLS - 1,
{
    lemma_terminal_covers_grid(s);
    lemma_wall_count(s);
    lemma_visited_is_reachable(s, c);
}

/// Every state of a generation is valid.
pub proof fn lemma_run_valid(picks: Seq<int>)
    ensures
        MazeState::after(picks).valid(),
    decreases picks.len(),
{
    if picks.len() == 0 {
        lemma_initial_valid();
    } else {
        lemma_run_valid(picks.drop_last());
        lemma_step_valid(MazeState::after(picks.drop_last()), picks.last());
    }
}

/// A step from a state of a generation leads to a state of a generation: the
/// one after one more pick.
pub proof fn lemma_step_extends_run(picks: Seq<int>, next: MazeState)
    requires
        MazeState::after(picks).steps_to(next),
    ensures
        exists|pick: int| next == MazeState::after(#[trigger] picks.push(pick)),
{
    let pick: int = choose|pick: int| next == #[trigger] MazeState::after(picks).step(pick);
    assert(picks.push(pick).drop_last() =~= picks);
}

/// Over any number of steps, the visited cells and the removed walls never
/// shrink: what held after the first `n` steps of a generation still holds
/// after all of them.
pub proof fn lemma_run_monotonic(picks: Seq<int>, n: int)
    requires
        0 <= n <= picks.len(),
    ensures
        MazeState::after(picks.take(n)).visited.subset_of(MazeState::after(picks).visited),
        MazeState::after(picks.take(n)).removed_walls.subset_of(
            MazeState::after(picks).removed_walls,
        ),
    decreases picks.len() - n,
{
    if n == picks.len() {
        assert(picks.take(n) =~= picks);
    } else {
        lemma_run_monotonic(picks.drop_last(), n);
        assert(picks.drop_last().take(n) =~= picks.take(n));
        lemma_step_monotonic(MazeState::after(picks.drop_last()), picks.last());
    }
}

/// The count of steps left is never negative, it is zero exactly in a
/// terminal state, and every step from another state lowers it by one.
pub proof fn lemma_step_counts_down(s: MazeState, pick: int)
    requires
        s.valid(),
    ensures
        s.steps_left() >= 0,
        s.steps_left() == 0 <==> s.is_terminal(),
        !s.is_terminal() ==> s.step(pick).steps_left() == s.steps_left() - 1,
{
    lemma_wall_count(s);
    if s.is_terminal() {
        lemma_terminal_covers_grid(s);
    } else if s.can_advance() {
        lemma_advance_removes_one_wall(s, pick);
    }
}

/// A generation takes `2 * CELLS - 1` steps: after fewer it is not over,
/// and from then on it is.
pub proof fn lemma_run_length(picks: Seq<int>)
    ensures
        picks.len() < 2 * CELLS - 1 ==> MazeState::after(picks).steps_left() == 2 * CELLS - 1
            - picks.len(),
        picks.len() >= 2 * CELLS - 1 ==> MazeState::after(picks).steps_left() == 0,
        MazeState::after(picks).is_terminal() <==> picks.len() >= 2 * CELLS - 1,
    decreases picks.len(),
{
    lemma_run_valid(picks);
    lemma_step_counts_down(MazeState::after(picks), 0);
    if picks.len() > 0 {
        let before = MazeState::after(picks.drop_last());
        lemma_run_length(picks.drop_last());
        lemma_run_valid(picks.drop_last());
        lemma_step_counts_down(before, picks.last());
        if before.is_terminal() {
            lemma_terminal_is_final(before, picks.last());
        }
    }
}

/// After at most `2 * CELLS` steps a generation is over: the path is empty,
/// and every further step leaves the state as it is.
pub proof fn lemma_run_terminates(picks: Seq<int>, pick: int)
    requires
        picks.len() >= 2 * CELLS,
    ensures
        MazeState::after(picks).is_terminal(),
        MazeState::after(picks).step(pick) == MazeState::after(picks),
        !MazeState::after(picks).can_advance(),
{
    lemma_run_length(picks);
    lemma_terminal_is_final(MazeState::after(picks), pick);
}

} // verus!
