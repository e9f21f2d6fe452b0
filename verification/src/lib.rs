//! An embedded, single-writer, persistent key-value store organised as a
//! log-structured merge tree.
//!
//! The store keeps its durable state in three kinds of append-only files: a
//! write-ahead log of mutations, a manifest of catalog deltas, and sorted
//! table files produced by flushing frozen in-memory tables.  This crate
//! holds the verified core: the byte formats, the in-memory tables, the
//! catalog, and the database facade, all expressed over plain byte vectors.
//! The thin shell that touches the file system lives outside the library and
//! hands bytes in and out.

pub mod codec;
pub mod db;
pub mod framed;
pub mod key;
pub mod memtable;
pub mod sstable;
pub mod value;
pub mod wal;

pub use db::Database;
pub use value::Value;

use vstd::prelude::*;

verus! {

/// Errors surfaced by the verified core.  I/O failures are not among them:
/// the core never touches the file system, so every error here is a property
/// of the bytes or values handed in.
#[derive(Debug, Clone, Copy, PartialEq, Eq, Structural)]
pub enum StoreError {
    /// A frame boundary was expected but the input ended inside a frame.
    TruncatedFrame,
    /// The end of the input was reached cleanly, at a frame boundary.
    EndOfInput,
    /// A frame body does not decode as a record of the expected kind.
    CorruptRecord,
    /// A frame body would be longer than a 32-bit length prefix can carry.
    FrameTooLarge,
    /// A size counter or sequence counter would exceed its machine limit.
    LimitExceeded,
    /// A single table entry is too large for the on-disk block format.
    EntryTooLarge,
    /// The catalog pointer file is absent although manifests exist.
    InconsistentState,
}

} // verus!
