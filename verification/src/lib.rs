//! Peer messaging core: the message model, the newline-framed wire codec,
//! the connection registry and the decision tables of the connection
//! handler and of the dispatch loop.

pub mod buffer;
pub mod codec;
pub mod connection;
pub mod dispatch;
pub mod framing;
pub mod id;
pub mod json;
pub mod message;
pub mod registry;
