//! What the accelerator reports when it is asked for something it cannot do.
use vstd::prelude::*;

verus! {

/// The ways in which a call can be refused.
#[derive(Debug, Clone, Copy, PartialEq, Eq, Structural)]
pub enum AccelError {
    /// The radius given at construction is not strictly positive.
    InvalidRadius,
    /// The index to move is not in the cell of the position it was said to
    /// come from.
    NotInCell,
}

} // verus!
