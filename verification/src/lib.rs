//! Sliding-tile puzzle solver with machine-checked contracts.
//!
//! A board is a row-major `Vec<i32>` of side `size`; the tile labelled
//! `size * size` stands for the empty slot. The solver is an iterative
//! deepening A* search seeded from a small breadth-first frontier.

pub mod board;
pub mod algo;
pub mod graphics;
