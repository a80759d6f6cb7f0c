use vstd::prelude::*;

verus! {

/// The ways an operation of the engine can fail. All of them are recoverable:
/// they are returned as values, never raised, and the driver decides whether
/// to retry or abandon the game.
#[derive(PartialEq, Eq, Structural, Clone, Copy, Debug)]
pub enum Error {
    /// A coordinate text did not match `<x>,<y>` with both components
    /// signed decimal integers, or a component does not fit the cell type.
    ParseError,
    /// The move names a cell outside the configured bounds.
    OutOfBounds,
    /// The move names a cell that already holds a mark.
    AlreadyOccupied,
}

} // verus!
