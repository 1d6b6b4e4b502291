//! A persistent, fixed-width record store indexed by a dynamically growing
//! hash table.
//!
//! The crate offers three data structures built on one binary record format
//! (a 4-byte big-endian key followed by a 96-byte value):
//!
//! * [`register::Arquivo`] — a flat file of consecutive fixed-size records
//!   with scan-to-key lookup, append, and delete-by-compaction;
//! * [`dynamic_hash::DynamicHashTable`] — an open-addressed hash index whose
//!   buckets are fixed-size pages mapped onto file offsets, grown by a whole
//!   file rehash-and-rewrite;
//! * [`memory_hash::MemoryHashTable`] — a chained in-memory hash index with
//!   load-factor driven growth and a snapshot encoding.
//!
//! All functions here are pure computations over byte images and in-memory
//! state; opening, reading and writing the backing files is left to the
//! caller, which hands the file contents in and writes the results back out.

use vstd::prelude::*;

pub mod codec;
pub mod dynamic_hash;
pub mod memory_hash;
pub mod register;

verus! {

/// The failure kinds that the store and the two indexes report.
///
/// The `Io*` kinds are reserved for callers that move the byte images of
/// this crate from and to actual files; the computations in this crate
/// themselves only produce `KeyNotFound`, `DecodeFailure` and
/// `GrowthFailure`.
#[derive(Clone, Copy, Debug, PartialEq, Eq, Structural)]
pub enum StoreError {
    /// A backing file could not be opened or created.
    IoOpenFailure,
    /// A read from a backing file failed.
    IoReadFailure,
    /// A write to a backing file failed.
    IoWriteFailure,
    /// A seek in a backing file failed.
    IoSeekFailure,
    /// The requested key is not present.
    KeyNotFound,
    /// A snapshot blob could not be decoded.
    DecodeFailure,
    /// A table could not grow any further.
    GrowthFailure,
}

} // verus!
