use vstd::prelude::*;

verus! {

/// What went wrong while building a board or reading a pattern.
#[derive(Debug, Clone, Copy, PartialEq, Eq, Structural)]
pub enum ShapeError {
    /// The matrix has no row, or its rows have no cell.
    Empty,
    /// Two rows differ in length.
    Ragged,
    /// The pattern data describes more rows or columns than its header declares.
    Overflow,
    /// A side of the board would have more than `u32::MAX` cells.
    TooLarge,
}

/// The closed set of failures of board construction and of the RLE codec.
#[derive(Debug, Clone, Copy, PartialEq, Eq, Structural)]
pub enum LifeError {
    /// No line is left once the comment lines are taken out.
    MissingHeader,
    /// The first non-comment line is not `x = W, y = H[, rule = R]`.
    MalformedHeader,
    /// The data section is empty.
    MissingData,
    /// The data section does not follow the run/line-break grammar.
    MalformedData,
    /// A number of the header or of the data does not fit in 32 bits.
    NumberParseOverflow,
    /// The cells do not form a non-empty rectangle of the declared size.
    InvalidShape(ShapeError),
}

impl LifeError {
    /// A human-readable description of the failure.
    pub fn message(&self) -> (r: &'static str) {
        match self {
            LifeError::MissingHeader => "[RLE decoder] Header line not found",
            LifeError::MalformedHeader => "[RLE decoder] Header line not found or incorrect",
            LifeError::MissingData => "[RLE decoder] Content not found",
            LifeError::MalformedData => "[RLE decoder] Content not found or incorrect.",
            LifeError::NumberParseOverflow => "[RLE decoder] Error while parsing RLE file: Number parsing",
            LifeError::InvalidShape(ShapeError::Empty) => "[CellMap creation] The source can't be empty",
            LifeError::InvalidShape(ShapeError::Ragged) => "[CellMap creation] All rows must have the same size",
            LifeError::InvalidShape(ShapeError::Overflow) => "[RLE decoder] The data does not fit the declared size",
            LifeError::InvalidShape(ShapeError::TooLarge) => "[CellMap] The board is too large to grow",
        }
    }
}

} // verus!
