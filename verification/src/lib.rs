//! A rules / move-generation kernel for a hexagonal-tile stacking board game.
//!
//! The board is a hex grid whose cells hold small stacks of pieces. Moves are
//! governed by two structural rules: the occupied cells must always form one
//! connected cluster, and a piece sliding along the surface may not squeeze
//! through a gap flanked by two occupied cells. This crate provides the grid
//! storage and geometry, the connectivity and mobility primitives built on it,
//! and a per-piece-type move generator, together with machine-checked proofs
//! of the central board-game laws.

pub mod connectivity;
pub mod dsl;
pub mod hex_grid;
pub mod laws;
pub mod move_generator;
