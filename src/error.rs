//! Failures that the store reports to its caller.
use vstd::prelude::*;

verus! {

/// What went wrong in a store operation.
#[derive(Clone, Copy, Debug, PartialEq, Eq, Structural)]
pub enum KvError {
    /// A record's stored checksum disagrees with its contents.
    CorruptRecord,
    /// The log ends in the middle of a record.
    UnexpectedEof,
    /// The key is not in the index.
    KeyNotFound,
    /// The key is already in the index.
    KeyExists,
    /// The index points at a record that carries another key, or no value.
    IndexCorruption,
    /// A key or value is longer than the record format can describe, or the log
    /// would outgrow the address space.
    RecordTooLarge,
    /// The index snapshot could not be serialised or deserialised.
    SnapshotEncoding,
}

} // verus!
