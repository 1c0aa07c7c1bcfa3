//! A content-addressable object store in the version-control style:
//! immutable objects (blob, tree, commit, tag) identified by the SHA-1
//! digest of their encoded form, stored zlib-compressed, with canonical
//! tree serialization, commit-graph traversal and tree materialization.

use vstd::prelude::*;

pub mod checkout;
pub mod hexnum;
pub mod kvcodec;
pub mod listing;
pub mod objcodec;
pub mod objects;
pub mod primitives;
pub mod store;
pub mod textenc;
pub mod walk;
pub mod treecodec;

verus! {

/// The error kinds a store or codec operation can surface.
#[derive(Debug, Clone, Copy, PartialEq, Eq, Structural)]
pub enum OzError {
    /// The digest has no entry in the store.
    NotFound,
    /// Decompression of a stored record failed.
    CorruptStorage,
    /// The object framing (type, size, NUL) is structurally invalid.
    MalformedObject,
    /// A tree payload is structurally invalid.
    MalformedTree,
    /// A commit or tag header payload is structurally invalid.
    MalformedCommit,
    /// The declared payload length does not match the actual length.
    SizeMismatch,
    /// The type name in the header is not blob, tree, commit or tag.
    UnknownObjectType,
    /// The graph walk met a non-commit where a commit was expected.
    InconsistentHistory,
}

} // verus!
