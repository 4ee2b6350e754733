//! Why a command was refused.

use vstd::prelude::*;

verus! {

/// The ways a command can fail. None of them is fatal: the state it would
/// have changed is left as it was.
#[derive(Clone, Copy, PartialEq, Eq, Debug, Structural)]
pub enum ReversiError {
    RoomNotFound,
    RoomFull,
    RoomAlreadyExists,
    GameNotStarted,
    WrongTurn,
    CellNotAvailable,
    MalformedCommand,
}

} // verus!
