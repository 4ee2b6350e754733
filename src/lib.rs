//! Server-side core of a two-player Reversi game: the rules engine, the room
//! directory, the session registry and the command router.

pub mod board;
pub mod error;
pub mod game;
pub mod room;
pub mod server;
pub mod command;
