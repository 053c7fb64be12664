//! An append-only key-value store: a log of checksummed binary records and an
//! in-memory index from each key to the offset of its latest record. Beside it,
//! `cpu` holds a small processor emulator.

pub mod checksum;
pub mod bytes;
pub mod error;
pub mod record;
pub mod index;
pub mod store;
pub mod snapshot;
pub mod cpu;
