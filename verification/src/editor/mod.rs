//! Decisions of a curve editor that need no screen: what a pointer holds,
//! what to show for it, and which curves are in view.

pub mod selection;
pub mod workspace;
