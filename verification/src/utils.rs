//! Small helpers shared by every validator in the crate.

pub mod duped;
