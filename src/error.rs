use vstd::prelude::*;

verus! {

/// Why an operation on a board was refused.
#[derive(Clone, Copy, Debug, PartialEq, Eq, Structural)]
pub enum PuzzleError {
    /// A zero width or height, more cells than tile ids can name, a state
    /// whose length is not `width * height`, or a cell outside the board.
    InvalidDimensions,
    /// The state is not a permutation of the tiles and the empty marker,
    /// or a looked-up value does not occur in it.
    ValueNotFound,
    /// No sequence of legal moves leads from the state to the solved board.
    NoSolutionFound,
}

} // verus!
