//! The ways in which parsing and remapping fail.

use vstd::prelude::*;

verus! {

/// Why a text could not be parsed.
#[derive(Clone, Copy, Debug, PartialEq, Eq)]
pub enum ParseError {
    /// A line has the shape the grammar asks for, but one of its numerals
    /// denotes a number that does not fit in 32 bits. `line` counts the
    /// lines of the text from zero.
    MalformedNumericLiteral { line: usize },
}

/// Why a matrix could not be remapped.
#[derive(Clone, Copy, Debug, PartialEq, Eq)]
pub enum RemapError {
    /// The channel map has no entry for `channel`, a channel number
    /// between one and the size of the map.
    MissingMapping { channel: usize },
    /// The matrix has no entry at `(row, col)`, the pair that the channel
    /// map gives for some cell of the output.
    MissingMatrixEntry { row: i32, col: i32 },
}

} // verus!
