use crate::geometry::Pos;
use vstd::prelude::*;

verus! {

/// A task object whose subtype is outside the range of its kind.
#[derive(Clone, Copy, Debug, PartialEq, Eq, Structural)]
pub enum IoError {
    UnknownDepositSubtype(u8),
    UnknownMineSubtype(u8),
    UnknownConveyorSubtype(u8),
    UnknownCombinerSubtype(u8),
    UnknownFactorySubtype(u8),
    UnknownProductSubtype(u8),
}

/// Why a building cannot be placed.
#[derive(Clone, Copy, Debug, PartialEq, Eq, Structural)]
pub enum Error {
    /// A cell of the footprint lies off the board.
    OutOfBounds(Pos),
    /// A cell of the footprint is taken and is no conveyor crossing.
    Intersection(Pos),
    /// A mine's output touches the input of another mine.
    MineEgress(Pos),
    /// A deposit's output touches the input of something that is no mine.
    DepositEgress(Pos),
    /// The output cell already feeds another input.
    MultipleIngresses(Pos),
    /// The task held an object that does not describe a building.
    Io(IoError),
}

impl Error {
    /// Wraps a task error as a placement error.
    pub fn from_io(e: IoError) -> (r: Error)
        ensures
            r == Error::Io(e),
    {
        Error::Io(e)
    }
}

} // verus!
