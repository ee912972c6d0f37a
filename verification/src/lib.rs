//! A paint-by-number engine: a picture is cut into regions of one colour,
//! and a fill at any cell of a region reveals the whole region.
//!
//! [`vec_2d`] holds the grid, [`disjoint_set_2d`] the union-find forest that
//! finds the regions, and [`art_board`] the board itself. The board draws
//! nothing: it tells a renderer what to create and what to change, and keeps
//! the handles that the renderer gives back. [`board_view`] describes the
//! board as a mathematical value and states what a fill does to it.

pub mod art_board;
pub mod board_view;
pub mod cell_set;
pub mod connectivity;
pub mod disjoint_set_2d;
pub mod raster;
pub mod vec_2d;
