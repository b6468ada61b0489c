//! Randomized perfect-maze generation and rasterization.
//!
//! Three generators (binary tree, sidewinder, Aldous-Broder) each produce a
//! lazy sequence of immutable [`grid::Grid`] snapshots, ending in a perfect
//! maze: every cell reachable, exactly `width * height - 1` open walls.
//! [`raster::rasterize`] turns one snapshot into a fixed-palette pixel buffer.

pub mod aldousbroder;
pub mod bintree;
pub mod graph;
pub mod grid;
pub mod raster;
mod rng;
pub mod sidewinder;
