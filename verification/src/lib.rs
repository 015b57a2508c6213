//! The authoritative multiplayer simulation engine behind the demo web
//! server: a fixed-tick world of players and a ball, steered over a
//! many-producer command channel and observed over a broadcast of
//! snapshots, with a correlation-token handshake that assigns each
//! connection a unique, never-reused player id.
//!
//! The engine's whole logic is verified: the fixed-point physics of one
//! tick (`soccer_field`), the per-tick command/event step and the join
//! protocol (`engine`), and the small pieces of computation behind the
//! surrounding endpoints (`blockers`, `chat`, `cpu_loadgen`,
//! `rediskeys`, `text`).  Sleeping, channels, sockets and sampling stay
//! outside; they hand plain values in and take plain values back.

pub mod blockers;
pub mod channel;
pub mod chat;
pub mod cpu_loadgen;
pub mod engine;
pub mod math;
pub mod rediskeys;
pub mod sleeper;
pub mod soccer_field;
pub mod text;
