//! Storage core of a persistent, append-only commit log.
//!
//! The engine records a monotonically ordered sequence of opaque
//! byte-payload records and supports random read by logical offset,
//! sequential streaming read, size-based rollover into segments, and
//! truncation of a prefix of the log.
//!
//! Every type here works over plain in-memory byte images of the files
//! it manages; the surrounding program loads those images from disk and
//! persists what the engine hands back.

pub mod config;
pub mod endian;
pub mod error;
pub mod index;
pub mod log;
pub mod store;
pub mod record;
pub mod segment;
pub mod server;
pub mod setup;
