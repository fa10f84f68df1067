//! A log-structured key-value store: record codec, in-memory index, the
//! engine's bookkeeping over append-only segments, the request/response
//! protocol and the framed connection buffer.
//!
//! The library never touches a file or a socket. Every operation that needs
//! one hands the caller the bytes to store or asks for the bytes that were
//! read, and states in its contract what the caller may rely on.

pub mod client;
pub mod codec;
pub mod compaction;
pub mod connection;
pub mod engine;
pub mod error;
pub mod index;
pub mod kvs;
pub mod log;
pub mod record;
pub mod segment;
pub mod server;
pub mod thread_pool;
