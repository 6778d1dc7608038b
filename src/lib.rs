//! An append-only, log-structured key-value store: checksummed records in a
//! single byte log, and an in-memory index from each key to the offset of its
//! latest record.

pub mod bytes;
pub mod codec;
pub mod index;
pub mod engine;
pub mod num;
pub mod ethernet;
pub mod password;

pub use codec::{ByteStr, ByteString, KeyValuePair, KvError};
pub use engine::ActionKV;
