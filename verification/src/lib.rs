//! Integer-domain Bézier curves and their adaptive flattening.

pub mod bezier;
pub mod convert;
pub mod data;
pub mod editor;
pub mod math;
pub mod overlay;
