//! The pieces from which overlays of curved shapes are assembled.

pub mod count;
pub mod fragment;
pub mod segment;
pub mod shapes;
