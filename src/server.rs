//! The session layer: game sessions, lobbies, the lobby registry and the
//! per-connection rules, each a state machine that takes events and returns
//! what its runtime has to do.

pub mod game;
pub mod player;
pub mod lobby;
pub mod lobby_router;
