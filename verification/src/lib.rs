//! Core of a message-oriented streaming broker and its client runtime.
//!
//! Messages travel as fixed-size frames bearing a stream id.  This crate
//! holds the verified core: the wire codec for frames and message metadata,
//! the per-connection read state machine, whole-message assembly, the
//! broker's subscription resolution and routing decisions, and the client
//! side RPC correlation table.  Sockets, tasks and channels live outside.

pub mod assemble;
pub mod client;
pub mod dto;
pub mod encode;
pub mod err;
pub mod frame;
pub mod json;
pub mod laws;
pub mod meta;
pub mod metajson;
pub mod nums;
pub mod paths;
pub mod readstate;
pub mod server;
pub mod vecs;
