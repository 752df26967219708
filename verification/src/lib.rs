//! An embedded key-value store over an append-only log of records.
//!
//! Every mutation is appended to a log as one length-prefixed record. An index
//! in memory answers reads, and compaction keeps the log from growing without
//! bound by dropping every record that a later record for the same key has
//! superseded.
//!
//! The library never touches a disk. The engine works on an image of the log
//! file and records the writes that it makes to it. The program around the
//! library loads the image from the file when it opens a store. After each
//! change it repeats the write that the engine left open on the file and
//! tells the engine how it went: the engine lets a write that went well
//! stand, has a compaction's write repeated up to three times, and takes a
//! write that failed for good back, with its records back in the buffer.
//!
//! - [`serial`] and [`framing`]: records, and how they are written and read.
//! - [`history`]: what a sequence of records stands for, and why compaction
//!   does not change it.
//! - [`file`]: the image of the log file.
//! - [`persistent`]: the engine that buffers, flushes and compacts.
//! - [`store`]: the index and the operations `get`, `set` and `remove`.

pub mod errors;
pub mod file;
pub mod framing;
pub mod history;
pub mod json;
pub mod persistent;
pub mod serial;
pub mod store;

pub use errors::Result;
pub use store::KvStore;
