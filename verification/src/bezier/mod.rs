//! Curves between anchors: their kinds, their evaluation and their
//! flattening to polylines.

pub mod anchor;
pub mod approximation;
pub mod chain;
pub mod iter;
pub mod length;
pub mod path;
pub mod spline;
pub mod spline_cube;
pub mod spline_line;
pub mod spline_quad;
