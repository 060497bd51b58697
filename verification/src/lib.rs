//! Verified core of a semantic code-search daemon.
//!
//! The library covers the indexing and retrieval pipeline: a syntax-aware
//! chunker with a line/byte sliding-window fallback, a content-hash manifest,
//! an in-memory vector-record table with per-file atomic replacement, the
//! post-ranking stage of the search engine, the socket wire codec, and the
//! daemon's decision logic (request dispatch, idle shutdown, watcher event
//! coalescing). I/O, threads and the embedding model live outside, in the
//! application shell, which feeds this library plain values.

use vstd::prelude::*;

pub mod anchor;
pub mod bytes;
pub mod daemon;
pub mod config;
pub mod embed;
pub mod error;
pub mod format;
pub mod grammar;
pub mod chunker;
pub mod hash;
pub mod index;
pub mod ipc;
pub mod lines;
pub mod manifest;
pub mod ranking;
pub mod store;
pub mod syntax;

verus! {

/// Newline byte, the line separator every line-oriented function works with.
pub const NEWLINE: u8 = 10;

} // verus!
