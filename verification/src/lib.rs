//! Reversible (second-order, Fredkin) cellular automata over bit-packed grids,
//! and the encryption scheme built on them.
//!
//! The cells of a one-dimensional grid are packed 64 to a `u64` word; every
//! grid operation is specified over the grid's view, the sequence of its cells.

pub mod bits;
pub mod grid;
pub mod rule;
pub mod ca;
pub mod coding;
pub mod grid2d;
pub mod ca2d;
pub mod capi;
pub mod linearity;
pub mod challenge;
pub mod fitness;
pub mod pareto;
pub mod hex;
pub mod genetic;
