//! Core of a multicore software voxel renderer: the sparse voxel store, the
//! chunk mesher, the per-frame work partition and the frame barrier, each with
//! a machine-checked contract.

pub mod barrier;
mod bits;
pub mod grid;
pub mod input;
pub mod march;
pub mod mesher;
pub mod physics;
pub mod raster;
pub mod schedule;
pub mod surface;
pub mod text;
pub mod world;
