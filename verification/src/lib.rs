//! An embeddable similarity-search index.
//!
//! The library stores fixed-dimension points (integer fixed-point coordinates
//! plus optional metadata), answers k-nearest-neighbour queries over them with
//! a KD-tree, and defines an exact binary encoding with which a collection of
//! points round-trips through persistence. Collections can be grouped under
//! string keys. All file-system work stays outside the library: persistence
//! here is a mapping between collections and sequences of byte files.

use vstd::prelude::*;

pub mod codec;
pub mod kd_tree;
pub mod knn;
pub mod kv_vdb;
pub mod vdb;
pub mod vector;

verus! {

/// The failures this library reports. Each is local to the operation that
/// raised it; none is fatal to the caller.
#[derive(Clone, Copy, Debug, PartialEq, Eq, Structural)]
pub enum Error {
    /// A save was attempted on a collection with no points.
    EmptyIndex,
    /// A point was inserted into, or a query was run against, an index whose
    /// points have a different coordinate length.
    DimensionMismatch,
    /// A requested key is absent from a named collection store.
    NotFound,
    /// A file-system operation failed; raised only by unverified callers at
    /// the I/O boundary, never by this library itself.
    IOFailure,
    /// A persisted byte file does not match the expected encoding.
    CorruptData,
}

} // verus!
