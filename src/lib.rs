//! A persistent key-value store built on a log-structured storage engine.
//!
//! The library holds the engine's logic: the on-disk record format, the
//! in-memory index, the writer's bookkeeping, recovery, compaction and the
//! line-oriented wire protocol. Reading and writing files and sockets is left
//! to the program around it, which hands the library plain values.
pub mod error;
pub mod codec;
pub mod index;
pub mod store;
pub mod paths;
pub mod protocol;
pub mod engine;
pub mod laws;
