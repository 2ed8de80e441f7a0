//! An embedded, on-disk, log-structured key-value storage engine: durable
//! insert, get and delete over text keys and byte values, persisted as a
//! sequence of sorted, size-bounded segments with a write-ahead log for crash
//! durability.  The library holds the engine's entire logic over in-memory
//! models of its files; a thin shell mirrors those models to real storage.

use vstd::prelude::*;

pub mod codec;
pub mod engine;
pub mod keys;
pub mod log;
pub mod segment;
pub mod stream;
pub mod table;
pub mod wire;

verus! {

/// The error kinds the storage engine reports.
#[derive(Clone, Copy, PartialEq, Eq, Debug)]
pub enum StorageError {
    /// A caller-supplied value was malformed: a bad segment file name,
    /// a root that is not a directory, or an out-of-range seek target.
    InvalidInput,
    /// On-disk content could not be decoded: truncated records, a key that
    /// is not UTF-8, or serials that cannot chain (one not matching its
    /// file name, or one carried by two files).
    InvalidData,
}

} // verus!
