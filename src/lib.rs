//! Rules engine and move search for four-in-a-row on a 4×4×4 cube.

pub mod common;
pub mod logic;
