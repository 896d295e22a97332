//! Shortest paths on a rectangular grid with blocked cells.
//!
//! A [`board::Board`] holds the grid, the blocked cells, a start and a goal.
//! [`board::Board::a_start_find`] searches the cheapest way from the start to
//! the goal by steps to touching cells, where a step along a row or a column
//! costs 10 and a diagonal step 14, and returns it, or the empty path where
//! the goal cannot be reached.
//!
//! - `position`: cells, their distance and their neighbours.
//! - `node`: the search record of a cell.
//! - `terrain`: what a search depends on, walks and their cost.
//! - `search`: the search as a function of the terrain, and the proof that it
//!   finds a cheapest route.
//! - `consistency`: what the search keeps true from one expansion to the next.
//! - `matrix`: the table of records, kept in a matrix of `nalgebra`.
//! - `board`: the board and the executable search.
//! - `laws`: what follows for every board.

pub mod board;
pub mod consistency;
pub mod laws;
mod lists;
pub mod matrix;
pub mod node;
pub mod position;
pub mod search;
pub mod terrain;
