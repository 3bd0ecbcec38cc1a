//! A dense 3-D voxel grid whose cells carry tagged block state, together
//! with the compact binary codec that persists a grid to the `.mcrs` byte
//! format and restores it.
//!
//! The codec is specified by the spec functions `spec_encode` and
//! `spec_decode` in [`block`] and by `spec_read` in [`grid`]; the round-trip
//! laws relating them are proved in those modules.

pub mod block;
pub mod grid;
pub mod utils;
