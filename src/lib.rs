//! A log-structured key-value store: record codec, key index, segment
//! bookkeeping and compaction, with the file work left to the caller.

pub mod error;
pub mod engine_sel;
pub mod codec;
pub mod index;
pub mod segments;
pub mod store;
pub mod sled_engine;
pub mod protocol;
