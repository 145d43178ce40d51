//! A deterministic Conway's Game of Life engine on a finite square grid.
//!
//! The board supports two neighbor topologies — edge-clipped (out-of-bounds
//! neighbor positions read as dead) and toroidal (coordinates wrap at the
//! edges) — and is shared behind a reference-counted handle whose advance
//! operation is safe under concurrent readers.

pub mod engine;
pub mod grid;
pub mod rule;

pub use engine::Game;
