//! Dissertation formatting compliance checks over an extracted page model.
//!
//! Lengths throughout the library are integers in thousandths of a point
//! (1pt = 1000 units, 1in = 72000 units).
pub mod checkers;
pub mod document;
pub mod engine;
pub mod extract;
pub mod params;
pub mod spec;
pub mod text;
