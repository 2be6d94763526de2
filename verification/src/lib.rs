//! Grid-based flow-field navigation.
//!
//! The crate computes, caches and serves per-cell movement directions so
//! that many mobile actors can converge on shared destinations through a
//! tile world without each actor running its own pathfinding search.
//!
//! - [`grid`] maps continuous world positions to discrete grid cells.
//! - [`dirs`] encodes and decodes the per-cell direction codes.
//! - [`field`] builds one dense direction field per target cell.
//! - [`reach`] proves that every direction chain descends to the target.
//! - [`cache`] owns the passability set and the built fields.
//! - [`actor`] resolves one steering vector per actor and tick.

pub mod actor;
pub mod cache;
pub mod dirs;
pub mod field;
pub mod grid;
pub mod reach;
