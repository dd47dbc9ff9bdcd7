//! Quantization of coordinates to the fixed-point grid.

pub mod grid;
