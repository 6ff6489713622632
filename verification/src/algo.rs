//! Move generation, history reconstruction and the search itself.

pub mod graph;
pub mod heuristics;
pub mod model;
pub mod seeds;
pub mod walks;
