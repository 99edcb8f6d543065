//! What can go wrong while learning from an image or generating a grid.

use vstd::prelude::*;

verus! {

/// The ways in which learning or generation can fail.
#[derive(Clone, Copy, Debug, PartialEq, Eq, Structural)]
pub enum WfcError {
    /// The source image has no pixels.
    EmptySource,
    /// The tile size is not positive.
    InvalidTileSize,
    /// The output grid has no cells.
    EmptyGrid,
    /// A size, a count or a table would not fit the machine's integers.
    TooLarge,
    /// A cell of the field was left without a possible tile.
    Contradiction,
}

impl WfcError {
    /// A description of the error for people to read.
    pub fn message(&self) -> (text: String)
        ensures
            text@ == (match *self {
                WfcError::EmptySource => "source image is empty"@,
                WfcError::InvalidTileSize => "tile size must be positive"@,
                WfcError::EmptyGrid => "output grid is empty"@,
                WfcError::TooLarge => "input is too large"@,
                WfcError::Contradiction => "WFC Failed"@,
            }),
    {
        match self {
            WfcError::EmptySource => "source image is empty".to_owned(),
            WfcError::InvalidTileSize => "tile size must be positive".to_owned(),
            WfcError::EmptyGrid => "output grid is empty".to_owned(),
            WfcError::TooLarge => "input is too large".to_owned(),
            WfcError::Contradiction => "WFC Failed".to_owned(),
        }
    }
}

} // verus!
