//! Session core of a two-player, turn-based connect-four server: the board
//! engine, the game session state machine, lobbies, the lobby registry, the
//! per-connection routing rules, the wire form of durations, and a console
//! game on one board.

pub mod cli;
pub mod game;
pub mod game_config;
pub mod random;
pub mod serde;
pub mod server;
