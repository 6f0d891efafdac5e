//! Step-by-step generation of a perfect maze on a fixed rectangular grid by
//! randomized depth-first search, and the painting of its current state onto
//! an RGBA raster.
//!
//! - [`grid`]: the grid, its cells and the walls between them.
//! - [`model`]: the mathematical model of the maze under construction and of
//!   one step of the search.
//! - [`laws`]: what holds of every generation.
//! - [`world`]: the maze as the program holds it, and the step that advances
//!   its generation.
//! - [`render`]: the picture of the maze.

pub mod grid;
pub mod laws;
pub mod model;
mod random;
pub mod render;
pub mod world;
