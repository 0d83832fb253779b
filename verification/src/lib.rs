//! An authoritative realtime multiplayer lobby framework: per-lobby worker
//! loops driving user game logic, a session and subscription fabric fanning
//! state deltas out to connected players, a correlated request/reply
//! registry for the client, and the JSON wire envelope tying them together.
//!
//! Everything here is the framework's decision logic, stated in contracts.
//! Sockets, threads and clocks stay with the embedding, which feeds events
//! in and carries queued bytes out.

pub mod codec;
pub mod context;
pub mod error;
pub mod hooks;
pub mod json;
pub mod message;
pub mod protocol;
pub mod registry;
pub mod reply;
pub mod runtime;
pub mod schema;
pub mod session;
pub mod state;
