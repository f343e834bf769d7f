//! Perfect mazes on two- and three-dimensional grids.
//!
//! A maze is a grid of cells whose walls are carved by a randomized
//! edge-contraction (Kruskal) procedure until the open passages form a
//! spanning tree of the grid.  The crate also holds the small geometry
//! helpers a terminal front end needs to lay a maze out on screen.

pub mod dims;
pub mod cell;
pub mod errors;
pub mod graph;
pub mod maze;
pub mod partition;
pub mod walls;
pub mod spanning;
pub mod floors;
pub mod rnd_kruskals;
pub mod helpers;
pub mod ui;
