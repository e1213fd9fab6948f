//! An embedded, single-process, persistent key-value store.
//!
//! Keys and values are arbitrary byte strings. Every mutation is serialized
//! as a command record appended to a log segment, while an in-memory index
//! maps each live key to the exact byte range of the record that holds its
//! current value.

pub mod codec;
pub mod counter;
pub mod error;
pub mod index;
pub mod laws;
pub mod store;

pub use codec::Command;
pub use counter::LengthCount;
pub use error::KvsError;
pub use index::ValueIndex;
pub use store::DiskOp;
pub use store::KvStore;
pub use store::SegmentFile;
