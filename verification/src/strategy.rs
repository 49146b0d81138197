//! Trading strategies.
pub mod grid;
