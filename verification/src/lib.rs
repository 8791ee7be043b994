//! A memoized, hash-consed evaluator for square regions of Conway's Game of
//! Life, after Gosper's HashLife scheme.
//!
//! A square pattern of side `2^n` is represented as a [`macro_cell::MacroCell`]
//! tree: a 2x2 leaf of cells at the base, and above it branches whose four
//! children all have the same shape. Branch records are interned in a
//! [`cache::Cache`], so that structurally equal sub-patterns share one
//! canonical handle and the evolved future of each distinct pattern is
//! computed once.

pub mod cache;
pub mod grid;
pub mod macro_cell;
pub mod state_buffer;
