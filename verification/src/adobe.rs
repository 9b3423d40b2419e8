//! Formats published by Adobe.
pub mod ase;
