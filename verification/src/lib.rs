//! A content-addressable object store in the style of a version-control
//! system's object database: blobs and trees are serialized to a canonical
//! byte encoding, addressed by a 160-bit content digest, compressed, and
//! laid out in a two-level directory structure.

pub mod bytes;
pub mod codec;
pub mod digest;
pub mod errors;
pub mod store;
pub mod tree;
pub mod zlib;

pub use codec::{GitObject, ObjectKind};
pub use errors::GitError;
pub use store::{GitRepo, InitPlan, ObjectLocation, WritePlan};
pub use tree::TreeEntry;
