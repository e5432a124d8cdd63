//! A least-cost route finder on a fixed-extent 2-D terrain grid.
//!
//! Every cell of the grid carries a terrain category; each category maps to an
//! integer traversal cost, with a maximum sentinel for terrain that must never
//! be traversed.  The search seeds an open set with the start cell, repeatedly
//! expands the open cell with the smallest `g + h` score (heuristic `h` is the
//! squared Euclidean distance to the goal, precomputed for the whole grid),
//! and reconstructs the route goal-to-start by walking predecessor links.

pub mod frontier;
pub mod geom;
pub mod grid;
pub mod heuristic;
pub mod neighbors;
pub mod path;
pub mod search;
pub mod terrain;
pub mod tile;
