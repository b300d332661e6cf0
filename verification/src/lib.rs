//! A room-based coordinator for a turn-based drawing-and-guessing game.
//!
//! The crate is the game core: a registry that routes typed commands from
//! connections to per-room state machines, and the room state machine itself
//! (lobby, round and winner phases, turn rotation, word-repetition avoidance,
//! draw-history replay and settings validation).  All outbound traffic is
//! returned to the caller as plain event values; delivery, timers and the
//! transport live outside the library.

pub mod events;
pub mod rng;
pub mod room;
pub mod server;
pub mod text;
pub mod word_pack;
