//! Synchronisation core of an offline-first replication layer: a hybrid
//! logical clock, a merkle trie over quantised time, per-field change
//! messages with last-writer-wins application, and the client/server sync
//! exchange built on them.

pub mod clock;
pub mod error;
pub mod merkle;
pub mod models;
pub mod records;
pub mod server;
pub mod storage;
pub mod syncer;
pub mod text;
pub mod timestamp;
