//! The picture of the maze: the colour of each pixel of the raster, and the
//! painting of a whole frame.

use crate::grid::{Cell, Wall, WallOrientation, WallView, COLS, ROWS};
use crate::laws::lemma_terminal_covers_grid;
use crate::model::MazeState;
use crate::world::World;
use vstd::prelude::*;

verus! {

/// Side of a cell on the raster, in pixels.
pub const CELL_SIZE: usize = 20;

/// Width of the raster, in pixels.
pub const WIDTH: usize = COLS * CELL_SIZE;

/// Height of the raster, in pixels.
pub const HEIGHT: usize = ROWS * CELL_SIZE;

/// Colour of a cell that has not been visited, as red, green, blue, alpha.
pub const CELL_COLOR: [u8; 4] = [0x99, 0x99, 0xff, 0xff];

/// Colour of a visited cell and of a removed wall.
pub const VISITED_COLOR: [u8; 4] = [0xff, 0x99, 0x99, 0xff];

/// Colour of a wall that stands.
pub const WALL_COLOR: [u8; 4] = [0xff, 0xff, 0xff, 0xff];

/// The colour of the pixel in column `x` and row `y` of the raster.
///
/// A pixel whose column is a positive multiple of the cell size lies on the
/// vertical wall to the left of its cell. Any other pixel whose row is a
/// positive multiple of the cell size lies on the horizontal wall above its
/// cell. A wall has the colour of walls while it stands and that of visited
/// cells once it is removed. Every other pixel has the colour of its cell.
/// The first column and the first row of the raster belong to no wall.
pub open spec fn pixel_color(s: MazeState, x: int, y: int) -> [u8; 4] {
    let col: int = x / (CELL_SIZE as int);
    let row: int = y / (CELL_SIZE as int);
    if x > 0 && x % (CELL_SIZE as int) == 0 {
        let wall = WallView {
            orientation: WallOrientation::Vertical,
            anchor: Cell { col: col - 1, row },
        };
        if s.removed_walls.contains(wall) {
            VISITED_COLOR
        } else {
            WALL_COLOR
        }
    } else if y > 0 && y % (CELL_SIZE as int) == 0 {
        let wall = WallView {
            orientation: WallOrientation::Horizontal,
            anchor: Cell { col, row: row - 1 },
        };
        if s.removed_walls.contains(wall) {
            VISITED_COLOR
        } else {
            WALL_COLOR
        }
    } else {
        if s.visited.contains(Cell { col, row }) {
            VISITED_COLOR
        } else {
            CELL_COLOR
        }
    }
}

/// The bytes of a picture of `pixels` pixels: the pixels of the raster row
/// by row, each as the four bytes of its colour.
pub open spec fn picture(s: MazeState, pixels: int) -> Seq<u8> {
    Seq::new(
        (4 * pixels) as nat,
        |i: int| pixel_color(s, (i / 4) % (WIDTH as int), (i / 4) / (WIDTH as int))@[i % 4],
    )
}

/// What a frame holds after the maze has been painted onto it: the picture
/// over all its whole pixels, and after them the bytes that were there, if
/// its length is no multiple of four.
pub open spec fn painted(s: MazeState, frame: Seq<u8>) -> Seq<u8> {
    let pixels: int = frame.len() as int / 4;
    picture(s, pixels) + frame.skip(4 * pixels)
}

impl World {
    /// The colour of the pixel in column `x` and row `y` of the raster.
    pub fn pixel(&self, x: usize, y: usize) -> (rgba: [u8; 4])
        requires
            self.wf(),
        ensures
            rgba == pixel_color(self@, x as int, y as int),
    {
        let col: usize = x / CELL_SIZE;
        let row: usize = y / CELL_SIZE;
        if x > 0 && x % CELL_SIZE == 0 {
            let wall = Wall { orientation: WallOrientation::Vertical, x: col - 1, y: row };
            if self.is_removed(&wall) {
                VISITED_COLOR
            } else {
                WALL_COLOR
            }
        } else if y > 0 && y % CELL_SIZE == 0 {
            let wall = Wall { orientation: WallOrientation::Horizontal, x: col, y: row - 1 };
            if self.is_removed(&wall) {
                VISITED_COLOR
            } else {
                WALL_COLOR
            }
        } else {
            if self.is_visited(col, row) {
                VISITED_COLOR
            } else {
                CELL_COLOR
            }
        }
    }

    /// Paints the maze onto `frame`, a raster of `WIDTH` pixels to the row,
    /// four bytes to the pixel: every whole pixel of the frame is
    /// overwritten with its colour.
    pub fn draw(&self, frame: &mut [u8])
        requires
            self.wf(),
        ensures
            final(frame)@ == painted(self@, old(frame)@),
    {
        let ghost before = frame@;
        let ghost s = self@;
        let len: usize = frame.len();
        let pixels: usize = len / 4;
        let mut p: usize = 0;
        while p < pixels
            invariant
                self.wf(),
                s == self@,
                len == before.len(),
                pixels == len / 4,
                p <= pixels,
                frame@.len() == before.len(),
                forall|i: int| 0 <= i < 4 * p ==> frame@[i] == picture(s, pixels as int)[i],
                forall|i: int| 4 * p <= i < before.len() ==> frame@[i] == before[i],
            decreases pixels - p,
        {
            let rgba = self.pixel(p % WIDTH, p / WIDTH);
            let at: usize = 4 * p;
            frame[at] = rgba[0];
            frame[at + 1] = rgba[1];
            frame[at + 2] = rgba[2];
            frame[at + 3] = rgba[3];
            p = p + 1;
        }
    }
}

/// The picture depends on the maze and on the size of the frame alone: two
/// frames of one length agree on every whole pixel after the same maze has
/// been painted onto each, and altogether where the length is a multiple of
/// four.
pub proof fn lemma_painting_is_deterministic(s: MazeState, a: Seq<u8>, b: Seq<u8>)
    requires
        a.len() == b.len(),
    ensures
        painted(s, a).len() == a.len(),
        painted(s, a).take(4 * (a.len() as int / 4)) == painted(s, b).take(
            4 * (b.len() as int / 4),
        ),
        a.len() % 4 == 0 ==> painted(s, a) == painted(s, b),
{
}

/// Painting the same maze a second time onto a frame changes nothing.
pub proof fn lemma_painting_is_idempotent(s: MazeState, frame: Seq<u8>)
    ensures
        painted(s, painted(s, frame)) == painted(s, frame),
{
}

/// The pixels of a frame stand row by row: the four bytes of the pixel in
/// column `x` and row `y` of the raster start at `4 * (y * WIDTH + x)`.
pub proof fn lemma_pixel_position(s: MazeState, frame: Seq<u8>, x: int, y: int, k: int)
    requires
        0 <= x < WIDTH,
        0 <= y,
        0 <= k < 4,
        4 * (y * WIDTH + x) + 4 <= frame.len(),
    ensures
        painted(s, frame)[4 * (y * WIDTH + x) + k] == pixel_color(s, x, y)@[k],
{
    let p: int = y * WIDTH + x;
    assert(p % (WIDTH as int) == x && p / (WIDTH as int) == y) by (nonlinear_arith)
        requires
            p == y * WIDTH + x,
            0 <= x < WIDTH,
            WIDTH == 600,
    ;
}

/// Every pixel is opaque, and has one of the three colours.
pub proof fn lemma_pixel_colors(s: MazeState, x: int, y: int)
    ensures
        pixel_color(s, x, y)@[3] == 0xff,
        pixel_color(s, x, y) == CELL_COLOR || pixel_color(s, x, y) == VISITED_COLOR
            || pixel_color(s, x, y) == WALL_COLOR,
{
}

/// The picture of a finished maze shows no unvisited cell anywhere on the
/// raster.
pub proof fn lemma_finished_picture(s: MazeState, x: int, y: int)
    requires
        s.valid(),
        s.is_terminal(),
        0 <= x < WIDTH,
        0 <= y < HEIGHT,
    ensures
        pixel_color(s, x, y) != CELL_COLOR,
{
    lemma_terminal_covers_grid(s);
}

} // verus!
