//! The errors that construction, moves and the search can report.

use vstd::prelude::*;

verus! {

/// The possible errors of this crate.
#[derive(Copy, Clone, Debug, PartialEq, Eq, Hash, Structural)]
pub enum Error {
    /// The board side is below the minimum of four.
    InvalidSize,
    /// The supplied board is not square.
    InvalidBoard,
    /// A cell is neither zero nor a power of two of at least two.
    InvalidValue,
    /// The requested direction is not currently legal; the state is unchanged.
    InvalidMove,
    /// A search was requested while no direction is legal (the game is over).
    NoValidMove,
}

} // verus!
