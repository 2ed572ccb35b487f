//! Core of a chat-bot sound dispatcher: a background-refreshed command
//! catalog cache with exact and unique-prefix lookup, a per-room session
//! registry that enforces at most one concurrent stream per room, and the
//! decision logic of the playback lifecycle.
//!
//! The surrounding process (network transport, voice sessions, the refresh
//! timer) lives outside this crate and talks to it through plain values.

pub mod catalog;
pub mod command_manager;
pub mod player;
pub mod registry;
pub mod text;
