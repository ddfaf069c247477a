//! A persistent key-value store built on an append-only command log.
//!
//! String keys are mapped to string values. Every mutation is appended to a
//! numbered segment as a self-delimiting record; an in-memory index maps
//! each live key to the location of its current record, and compaction
//! rewrites the live records into a fresh segment once enough dead bytes
//! have accumulated. A server speaks the same record framing over a byte
//! stream and dispatches requests to a shared engine handle.

pub mod backend;
pub mod bytes;
pub mod client;
pub mod codec;
pub mod engine;
pub mod errors;
pub mod file;
pub mod index;
pub mod kvstore;
pub mod network;
pub mod replay;
pub mod server;
pub mod store;
