//! A persistent, copy-on-write B+tree index from fixed-size keys to
//! fixed-size values: point lookup, ordered range scan, insertion and
//! deletion over a page arena, with snapshot isolation between any number
//! of readers and a single writer, and durability through an explicit
//! checkpoint that atomically republishes the root.

use vstd::prelude::*;

pub mod arrayview;
pub mod backtrack;
pub mod codec;
pub mod btreeindex;
pub mod internal;
pub mod iterator;
pub mod leaf;
pub mod metadata;
pub mod node;
pub mod pages;
pub mod storage;
pub mod version_management;

verus! {

/// Pages are addressed by a 32-bit id; id 0 is reserved as null.
pub type PageId = u32;

/// The single error taxonomy of the store.
#[derive(Clone, Copy, PartialEq, Eq, Structural, Debug)]
pub enum BTreeStoreError {
    /// An insert was attempted on a key that is already present.
    DuplicatedKey,
    /// A page id lies outside the page file.
    PageOutOfBounds,
    /// A page tag is neither the internal nor the leaf tag.
    CorruptedPage,
    /// An internal consistency check failed.
    InvariantViolation,
    /// An underlying file, map or sync failure; surfaced by the store's
    /// callers, never raised by the verified library itself.
    IoError,
}

} // verus!
