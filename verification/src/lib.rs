//! Re-numbering of the channels of a scattering-parameter matrix.
//!
//! A channel map and a matrix are read from line-oriented text, and the
//! matrix is written out again with its rows and columns permuted by the
//! map. Every function here works on text and values already in memory.

pub mod decimal;
pub mod text;
pub mod records;
pub mod grammar;
pub mod grid;
pub mod error;
pub mod matrix;
pub mod smatrix_utils;
pub mod line_effects;
pub mod roundtrip;
