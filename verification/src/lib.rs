//! An in-memory key-value server core speaking a Redis-compatible wire
//! protocol: a byte-exact protocol codec, a byte-keyed store with glob-style
//! key search, and the command dispatch that ties the two together.

pub mod glob;
pub mod handler;
pub mod kv;
pub mod resp;
