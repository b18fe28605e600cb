//! The object store: the location an object lives at under the store's
//! root, and the write, read, and initialization pipelines, each split into
//! the part that computes (here, verified) and the part that touches the
//! filesystem (left to the caller, which hands bytes in and takes plans
//! out).

use vstd::prelude::*;
use vstd::string::{StrSliceExecFns, StringExecFns};
use crate::codec::{decode_spec, encode_object, encode_spec, GitObject, ObjectKind};
use crate::digest::{
    check_digest, hex_lower_of, lemma_hex_lower_len, lemma_hex_lower_valid,
    lemma_valid_digest_ascii, sha1_digest, sha1_of, valid_digest,
};
use crate::errors::GitError;
use crate::tree::{entry_le_fn, models, tree_payload_spec, TreeEntry};
use crate::zlib::{deflate_of, inflate_of, zlib_compress, zlib_decompress};

verus! {

/// The digest that addresses an object: the lowercase hex rendering of the
/// SHA-1 digest of the object's canonical encoding.
pub open spec fn digest_chars(k: ObjectKind, p: Seq<u8>) -> Seq<char> {
    hex_lower_of(sha1_of(encode_spec(k, p)))
}

/// The subdirectory an object lives in: the store root, `objects`, and the
/// digest's first two characters.
pub open spec fn loc_dir_spec(root: Seq<char>, digest: Seq<char>) -> Seq<char> {
    root + "/objects/"@ + digest.take(2)
}

/// The file an object lives in: its subdirectory and the digest's
/// remaining characters.
pub open spec fn loc_file_spec(root: Seq<char>, digest: Seq<char>) -> Seq<char> {
    loc_dir_spec(root, digest) + "/"@ + digest.skip(2)
}

/// The bytes a read may have found, as an optional byte sequence.
pub open spec fn opt_bytes(file: Option<&Vec<u8>>) -> Option<Seq<u8>> {
    match file {
        Some(v) => Some(v@),
        None => None,
    }
}

/// What reading a digest from a store yields, as a function of the store's
/// state, the digest, and the bytes found at the derived location (`None`
/// when no file is there): the store must be initialized, the digest must
/// be valid before any file is considered, the bytes must inflate, and the
/// result must decode.
pub open spec fn read_outcome(
    initialized: bool,
    digest: Seq<char>,
    file: Option<Seq<u8>>,
) -> Result<(ObjectKind, Seq<u8>), GitError> {
    if !initialized {
        Err(GitError::StoreNotInitialized)
    } else if !valid_digest(digest) {
        Err(GitError::InvalidDigest)
    } else {
        match file {
            None => Err(GitError::NotFound),
            Some(data) => match inflate_of(data) {
                None => Err(GitError::CorruptStream),
                Some(raw) => decode_spec(raw),
            },
        }
    }
}

/// A handle on one store: its root path and whether it is known to be
/// initialized.
#[derive(Debug)]
pub struct GitRepo {
    pub path: String,
    pub initialized: bool,
}

/// The location an object is persisted at, relative to the process's
/// working directory.
#[derive(Debug)]
pub struct ObjectLocation {
    pub dir: String,
    pub file: String,
}

/// Everything a caller needs to persist one object: its digest, the
/// directory to create, the file to write, and the compressed bytes to put
/// there.
#[derive(Debug)]
pub struct WritePlan {
    pub digest: String,
    pub dir: String,
    pub file: String,
    pub bytes: Vec<u8>,
}

/// Everything a caller needs to lay out a fresh store.
#[derive(Debug)]
pub struct InitPlan {
    pub root_dir: String,
    pub objects_dir: String,
    pub refs_dir: String,
    pub head_file: String,
    pub head_content: String,
}

impl GitRepo {
    /// A handle on the store under `.git`, not yet known to be initialized.
    pub fn new() -> (r: GitRepo)
        ensures
            r.path@ == ".git"@,
            !r.initialized,
    {
        GitRepo { path: String::from_str(".git"), initialized: false }
    }

    /// A handle on the store under an explicit root path.
    pub fn with_root(path: String) -> (r: GitRepo)
        ensures
            r.path@ == path@,
            !r.initialized,
    {
        GitRepo { path, initialized: false }
    }

    /// Records whether the store's root exists, as the caller found it on
    /// disk; `write` and `read` refuse to run before this says it does.
    pub fn attach(&mut self, root_exists: bool)
        ensures
            final(self).path == old(self).path,
            final(self).initialized == root_exists,
    {
        self.initialized = root_exists;
    }

    /// Decides an initialization request. When the root already exists (or
    /// this handle already initialized it), that is an error; otherwise the
    /// returned plan lists the directories to create and the head file to
    /// write, and the handle counts as initialized.
    pub fn init(&mut self, root_exists: bool) -> (r: Result<InitPlan, GitError>)
        ensures
            final(self).path == old(self).path,
            old(self).initialized || root_exists ==> {
                &&& r matches Err(e) && e == GitError::AlreadyExists
                &&& final(self).initialized == old(self).initialized
            },
            !(old(self).initialized || root_exists) ==> {
                &&& final(self).initialized
                &&& r matches Ok(p) && p.root_dir@ == old(self).path@ && p.objects_dir@ == old(
                    self,
                ).path@ + "/objects"@ && p.refs_dir@ == old(self).path@ + "/refs"@
                    && p.head_file@ == old(self).path@ + "/HEAD"@ && p.head_content@
                    == "ref: refs/heads/main\n"@
            },
    {
        if self.initialized || root_exists {
            return Err(GitError::AlreadyExists);
        }
        self.initialized = true;
        Ok(
            InitPlan {
                root_dir: self.path.clone(),
                objects_dir: self.path.clone().concat("/objects"),
                refs_dir: self.path.clone().concat("/refs"),
                head_file: self.path.clone().concat("/HEAD"),
                head_content: String::from_str("ref: refs/heads/main\n"),
            },
        )
    }

    /// Derives the location a digest addresses: the digest's first two
    /// characters name the subdirectory, the rest name the file.
    pub fn object_path(&self, hash: &str) -> (r: Result<ObjectLocation, GitError>)
        ensures
            match r {
                Ok(loc) => {
                    &&& self.initialized
                    &&& valid_digest(hash@)
                    &&& loc.dir@ == loc_dir_spec(self.path@, hash@)
                    &&& loc.file@ == loc_file_spec(self.path@, hash@)
                },
                Err(e) => {
                    ||| (e == GitError::StoreNotInitialized && !self.initialized)
                    ||| (e == GitError::InvalidDigest && self.initialized && !valid_digest(
                        hash@,
                    ))
                },
            },
    {
        if !self.initialized {
            return Err(GitError::StoreNotInitialized);
        }
        if !check_digest(hash) {
            return Err(GitError::InvalidDigest);
        }
        proof {
            lemma_valid_digest_ascii(hash@);
        }
        let len = hash.unicode_len();
        let prefix = hash.substring_ascii(0, 2);
        let rest = hash.substring_ascii(2, len);
        let dir = self.path.clone().concat("/objects/").concat(prefix);
        let file = dir.clone().concat("/").concat(rest);
        proof {
            assert(dir@ =~= loc_dir_spec(self.path@, hash@));
            assert(file@ =~= loc_file_spec(self.path@, hash@));
        }
        Ok(ObjectLocation { dir, file })
    }

    /// Interprets what a read found: decompresses the bytes found at the
    /// digest's location and decodes the object, surfacing the most
    /// specific error; `file` is `None` when no file was there.
    pub fn read_object(&self, hash: &str, file: Option<&Vec<u8>>) -> (r: Result<
        GitObject,
        GitError,
    >)
        ensures
            match read_outcome(self.initialized, hash@, opt_bytes(file)) {
                Ok(kp) => {
                    &&& r matches Ok(o)
                    &&& o.kind == kp.0
                    &&& o.payload@ == kp.1
                    &&& o.size == kp.1.len()
                    &&& o.wf()
                },
                Err(e) => r matches Err(e2) && e2 == e,
            },
    {
        if !self.initialized {
            return Err(GitError::StoreNotInitialized);
        }
        if !check_digest(hash) {
            return Err(GitError::InvalidDigest);
        }
        let data = match file {
            Some(data) => data,
            None => {
                return Err(GitError::NotFound);
            },
        };
        let raw = match zlib_decompress(data.as_slice()) {
            Ok(raw) => raw,
            Err(e) => {
                return Err(e);
            },
        };
        GitObject::from_raw(raw)
    }

    /// Compresses an encoded object for persistence.
    pub fn compress_content(&self, byte_sequence: &Vec<u8>) -> (r: Result<Vec<u8>, GitError>)
        ensures
            r matches Ok(v) && v@ == deflate_of(byte_sequence@),
            r matches Ok(v) && inflate_of(v@) == Some(byte_sequence@),
    {
        Ok(zlib_compress(byte_sequence))
    }

    /// Decompresses bytes read back from the store.
    pub fn decompress_object(&self, data: &[u8]) -> (r: Result<Vec<u8>, GitError>)
        ensures
            match r {
                Ok(v) => inflate_of(data@) == Some(v@),
                Err(e) => e == GitError::CorruptStream && inflate_of(data@) is None,
            },
    {
        zlib_decompress(data)
    }

    /// Computes the digest that addresses an object: the hash runs over the
    /// canonical encoding of the kind and payload.
    pub fn hash_object(&self, object_byte_sequence: &Vec<u8>, object_type: ObjectKind) -> (r:
        Result<String, GitError>)
        ensures
            r matches Ok(h) && h@ == digest_chars(object_type, object_byte_sequence@),
            r matches Ok(h) && h@.len() == 40,
            r matches Ok(h) && valid_digest(h@),
    {
        let encoded = encode_object(object_type, object_byte_sequence);
        let raw = sha1_digest(encoded.as_slice());
        let hex = crate::digest::to_hex_lower(raw.as_slice());
        proof {
            lemma_hex_lower_len(raw@);
            lemma_hex_lower_valid(raw@);
        }
        Ok(hex)
    }

    /// Prepares the persistence of an already-encoded object under a given
    /// digest: compresses the bytes and derives the location.
    pub fn write_object(&self, hash: &str, byte_sequence: &Vec<u8>) -> (r: Result<
        WritePlan,
        GitError,
    >)
        ensures
            match r {
                Ok(p) => {
                    &&& self.initialized
                    &&& valid_digest(hash@)
                    &&& p.digest@ == hash@
                    &&& p.dir@ == loc_dir_spec(self.path@, hash@)
                    &&& p.file@ == loc_file_spec(self.path@, hash@)
                    &&& p.bytes@ == deflate_of(byte_sequence@)
                    &&& inflate_of(p.bytes@) == Some(byte_sequence@)
                },
                Err(e) => {
                    ||| (e == GitError::StoreNotInitialized && !self.initialized)
                    ||| (e == GitError::InvalidDigest && self.initialized && !valid_digest(
                        hash@,
                    ))
                },
            },
    {
        let loc = match self.object_path(hash) {
            Ok(loc) => loc,
            Err(e) => {
                return Err(e);
            },
        };
        let bytes = zlib_compress(byte_sequence);
        Ok(WritePlan { digest: String::from_str(hash), dir: loc.dir, file: loc.file, bytes })
    }

    /// Prepares the persistence of an object from its kind and payload:
    /// encode, digest, compress, and derive the location from the digest.
    pub fn write(&self, kind: ObjectKind, payload: &Vec<u8>) -> (r: Result<WritePlan, GitError>)
        ensures
            match r {
                Ok(p) => {
                    &&& self.initialized
                    &&& p.digest@ == digest_chars(kind, payload@)
                    &&& valid_digest(p.digest@)
                    &&& p.dir@ == loc_dir_spec(self.path@, p.digest@)
                    &&& p.file@ == loc_file_spec(self.path@, p.digest@)
                    &&& p.bytes@ == deflate_of(encode_spec(kind, payload@))
                    &&& inflate_of(p.bytes@) == Some(encode_spec(kind, payload@))
                },
                Err(e) => e == GitError::StoreNotInitialized && !self.initialized,
            },
    {
        if !self.initialized {
            return Err(GitError::StoreNotInitialized);
        }
        let hash = match self.hash_object(payload, kind) {
            Ok(h) => h,
            Err(e) => {
                return Err(e);
            },
        };
        let encoded = encode_object(kind, payload);
        self.write_object(hash.as_str(), &encoded)
    }

    /// Interprets what a read of a tree-ish digest found and lists the
    /// tree's entry names; an object of another kind is refused.
    pub fn ls_tree(&self, tree_ish: &str, file: Option<&Vec<u8>>) -> (r: Result<Vec<u8>, GitError>)
        ensures
            match read_outcome(self.initialized, tree_ish@, opt_bytes(file)) {
                Ok(kp) => {
                    if kp.0 == ObjectKind::Tree {
                        match crate::tree::parse_tree_spec(kp.1) {
                            Ok(es) => r matches Ok(v) && v@ == crate::tree::names_listing(es),
                            Err(e) => r matches Err(e2) && e2 == e,
                        }
                    } else {
                        r matches Err(e2) && e2 == GitError::UnsupportedKind
                    }
                },
                Err(e) => r matches Err(e2) && e2 == e,
            },
    {
        let obj = match self.read_object(tree_ish, file) {
            Ok(o) => o,
            Err(e) => {
                return Err(e);
            },
        };
        match obj.kind {
            ObjectKind::Tree => crate::tree::read_tree_object(&obj.payload),
            ObjectKind::Blob => Err(GitError::UnsupportedKind),
        }
    }

    /// Prepares the persistence of one directory snapshot: sorts the
    /// entries into the canonical order, encodes the tree payload, and
    /// runs the ordinary write pipeline on it.
    pub fn write_tree(&self, entries: Vec<TreeEntry>) -> (r: Result<WritePlan, GitError>)
        ensures
            match r {
                Ok(p) => {
                    &&& self.initialized
                    &&& p.digest@ == digest_chars(
                        ObjectKind::Tree,
                        tree_payload_spec(models(entries@).sort_by(entry_le_fn())),
                    )
                    &&& valid_digest(p.digest@)
                    &&& p.dir@ == loc_dir_spec(self.path@, p.digest@)
                    &&& p.file@ == loc_file_spec(self.path@, p.digest@)
                    &&& p.bytes@ == deflate_of(
                        encode_spec(
                            ObjectKind::Tree,
                            tree_payload_spec(models(entries@).sort_by(entry_le_fn())),
                        ),
                    )
                    &&& inflate_of(p.bytes@) == Some(
                        encode_spec(
                            ObjectKind::Tree,
                            tree_payload_spec(models(entries@).sort_by(entry_le_fn())),
                        ),
                    )
                },
                Err(e) => e == GitError::StoreNotInitialized && !self.initialized,
            },
    {
        if !self.initialized {
            return Err(GitError::StoreNotInitialized);
        }
        let payload = crate::tree::encode_tree(entries);
        self.write(ObjectKind::Tree, &payload)
    }
}

/// Writing then reading the same digest returns the object written: bytes
/// that inflate to the canonical encoding of a kind and payload read back
/// as exactly that kind and payload.
pub proof fn lemma_write_read_roundtrip(
    digest: Seq<char>,
    k: ObjectKind,
    p: Seq<u8>,
    stored: Seq<u8>,
)
    requires
        valid_digest(digest),
        inflate_of(stored) == Some(encode_spec(k, p)),
    ensures
        read_outcome(true, digest, Some(stored)) == Ok::<(ObjectKind, Seq<u8>), GitError>((k, p)),
{
    crate::codec::lemma_decode_encode(k, p);
}

/// Reading a digest that no object is stored under fails with `NotFound`.
pub proof fn lemma_read_missing_not_found(digest: Seq<char>)
    requires
        valid_digest(digest),
    ensures
        read_outcome(true, digest, None) == Err::<(ObjectKind, Seq<u8>), GitError>(
            GitError::NotFound,
        ),
{
}

/// Reading a malformed digest fails with `InvalidDigest`, whatever bytes
/// the store may hold: the digest is refused before any file is looked at.
pub proof fn lemma_read_invalid_digest(digest: Seq<char>, file: Option<Seq<u8>>)
    requires
        !valid_digest(digest),
    ensures
        read_outcome(true, digest, file) == Err::<(ObjectKind, Seq<u8>), GitError>(
            GitError::InvalidDigest,
        ),
{
}

/// Two directories with the same children — the same multiset of entries,
/// in whatever enumeration orders — produce the same tree payload and so
/// the same tree digest.
pub proof fn lemma_tree_digest_order_independent(
    m1: Seq<crate::tree::EntryModel>,
    m2: Seq<crate::tree::EntryModel>,
)
    requires
        m1.to_multiset() == m2.to_multiset(),
    ensures
        digest_chars(ObjectKind::Tree, tree_payload_spec(m1.sort_by(entry_le_fn())))
            == digest_chars(ObjectKind::Tree, tree_payload_spec(m2.sort_by(entry_le_fn()))),
{
    crate::tree::lemma_sort_order_independent(m1, m2);
}

/// The digest depends on the object's content alone: equal kinds and
/// payloads give equal digests, in whatever call and whatever process.
pub proof fn lemma_digest_deterministic(k1: ObjectKind, p1: Seq<u8>, k2: ObjectKind, p2: Seq<u8>)
    requires
        k1 == k2,
        p1 == p2,
    ensures
        digest_chars(k1, p1) == digest_chars(k2, p2),
{
}

} // verus!
