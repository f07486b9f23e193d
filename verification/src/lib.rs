//! Incremental length-prefixed message framing and a broadcast relay.
//!
//! A frame on the wire is an 8-byte little-endian length header followed by
//! that many payload bytes; a zero length is a sentinel that asks for a
//! graceful close.  The decoder reconstructs frames from a stream that may
//! deliver bytes in arbitrary fragments, the handler turns decode outcomes
//! into relay actions, and the hub fans completed messages out to every
//! other registered connection.

pub mod codec;
pub mod decoder;
pub mod handler;
pub mod hub;
