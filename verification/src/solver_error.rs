use crate::geometry::{Id, Pos};
use vstd::prelude::*;

verus! {

/// Why no solution was found.
#[derive(Clone, Copy, Debug, PartialEq, Eq, Structural)]
pub enum Error {
    /// The factory could not be placed.
    Sim(crate::error::Error),
    /// No path was found from the deposit (its identifier and anchor) to the
    /// factory at the last position.
    NoPath(Id, Pos, Pos),
    /// No deposit could be connected to the factory.
    NoSolution,
}

impl Error {
    /// Wraps a placement error.
    pub fn from_sim(e: crate::error::Error) -> (r: Error)
        ensures
            r == Error::Sim(e),
    {
        Error::Sim(e)
    }
}

} // verus!
