//! Containers used by the flattening solver.

pub mod list;
