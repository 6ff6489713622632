//! Board representation and coordinate arithmetic.

pub mod utils;
