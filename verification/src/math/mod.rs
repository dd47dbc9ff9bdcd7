//! Fixed-point vector arithmetic.

pub mod arith;
pub mod line;
pub mod offset;
pub mod point;
pub mod rect;
