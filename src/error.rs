use vstd::prelude::*;

verus! {

#[derive(Debug, PartialEq, Eq, Structural, Clone, Copy)]
pub enum SudokuError {
    InvalidDimensions,
    InvalidNumber,
    OutOfBounds,
    UnsatisfiableConstraint,
}

impl SudokuError {
    /// A short description of the error.
    pub fn describe(&self) -> (r: &'static str)
        ensures
            r@ == match self {
                SudokuError::InvalidDimensions => "invalid dimensions"@,
                SudokuError::InvalidNumber => "invalid number"@,
                SudokuError::OutOfBounds => "out of bounds"@,
                SudokuError::UnsatisfiableConstraint => "unsatisfiable constraint"@,
            },
    {
        match self {
            SudokuError::InvalidDimensions => "invalid dimensions",
            SudokuError::InvalidNumber => "invalid number",
            SudokuError::OutOfBounds => "out of bounds",
            SudokuError::UnsatisfiableConstraint => "unsatisfiable constraint",
        }
    }
}

pub type SudokuResult<V> = Result<V, SudokuError>;

#[derive(Debug, PartialEq, Eq, Structural, Clone, Copy)]
pub enum SudokuParseError {
    WrongNumberOfParts,
    WrongNumberOfCells,
    MalformedDimensions,
    InvalidDimensions,
    NumberFormatError,
    InvalidNumber,
}

pub type SudokuParseResult<V> = Result<V, SudokuParseError>;

} // verus!
