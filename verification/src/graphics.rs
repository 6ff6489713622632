//! What a viewer of a solution shows, as far as it can be computed without a window.

pub mod visual;
