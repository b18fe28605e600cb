//! The error kinds surfaced by the store. Every fallible operation of the
//! library returns the most specific kind available; none panics.

use vstd::prelude::*;

verus! {

/// One error kind per way an operation can fail.
#[derive(Clone, Copy, Debug, PartialEq, Eq, Structural)]
pub enum GitError {
    /// `write` or `read` was called before the store was initialized.
    StoreNotInitialized,
    /// `init` was asked to create a store whose root already exists.
    AlreadyExists,
    /// A digest has no object in the store.
    NotFound,
    /// A digest string is malformed or too short to derive a location from.
    InvalidDigest,
    /// An object's `<kind> <len>\0` header (or a tree entry's header) is malformed.
    MalformedHeader,
    /// A tree payload ends in the middle of an entry.
    TruncatedEntry,
    /// Bytes read back from the store are not a valid compressed stream.
    CorruptStream,
    /// An object header names a kind other than blob or tree.
    UnsupportedKind,
    /// An underlying filesystem operation failed.
    Io,
}

impl GitError {
    /// A short human-readable description of the error kind.
    pub fn message(&self) -> (r: &'static str)
        ensures
            r@.len() > 0,
    {
        let m = match self {
            GitError::StoreNotInitialized => "store is not initialized",
            GitError::AlreadyExists => "store root already exists",
            GitError::NotFound => "object not found",
            GitError::InvalidDigest => "invalid object digest",
            GitError::MalformedHeader => "malformed object header",
            GitError::TruncatedEntry => "truncated tree entry",
            GitError::CorruptStream => "corrupt compressed stream",
            GitError::UnsupportedKind => "unsupported object kind",
            GitError::Io => "filesystem error",
        };
        proof {
            reveal_strlit("store is not initialized");
            reveal_strlit("store root already exists");
            reveal_strlit("object not found");
            reveal_strlit("invalid object digest");
            reveal_strlit("malformed object header");
            reveal_strlit("truncated tree entry");
            reveal_strlit("corrupt compressed stream");
            reveal_strlit("unsupported object kind");
            reveal_strlit("filesystem error");
        }
        m
    }
}

} // verus!
