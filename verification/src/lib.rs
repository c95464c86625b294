//! A persistent, log-structured key-value store with a verified core:
//! an append-only command log with an in-memory index and threshold-driven
//! compaction, a fixed-header binary wire codec, a connection-handling layer,
//! and a crash-isolating worker-pool state machine.

pub mod concurrency;
pub mod kv_engine;
pub mod kvstore;
pub mod record;
pub mod server;
pub mod wire;
