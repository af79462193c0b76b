//! A turn-based multiplayer game server core, with the Hanabi card game as
//! the one game wired into it.
//!
//! The crate is split into the game itself (`cards`, `game`), the room and
//! wire-protocol types (`protocol`), the server state with its action
//! dispatcher (`server`), and command-line argument data (`args`).

pub mod args;
pub mod cards;
pub mod game;
pub mod protocol;
mod rng;
pub mod server;
