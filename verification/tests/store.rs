use minigit::{GitError, GitRepo, ObjectKind, TreeEntry};

const HELLO_DIGEST: &str = "ce013625030ba8dba906f756967f9e9ca394464a";

fn attached_repo() -> GitRepo {
    let mut repo = GitRepo::new();
    repo.attach(true);
    repo
}

#[test]
fn compression_round_trips() {
    let repo = attached_repo();
    let data = b"some bytes to squeeze, repeated: some bytes to squeeze".to_vec();
    let compressed = repo.compress_content(&data).unwrap();
    let restored = repo.decompress_object(&compressed).unwrap();
    assert_eq!(restored, data);
}

#[test]
fn compression_round_trips_on_empty_input() {
    let repo = attached_repo();
    let compressed = repo.compress_content(&Vec::new()).unwrap();
    let restored = repo.decompress_object(&compressed).unwrap();
    assert_eq!(restored, Vec::<u8>::new());
}

#[test]
fn garbage_fails_with_corrupt_stream() {
    let repo = attached_repo();
    let r = repo.decompress_object(b"definitely not a zlib stream");
    assert_eq!(r.unwrap_err(), GitError::CorruptStream);
}

#[test]
fn truncated_stream_fails_with_corrupt_stream() {
    let repo = attached_repo();
    let data = b"some bytes to squeeze, repeated: some bytes to squeeze".to_vec();
    let compressed = repo.compress_content(&data).unwrap();
    let truncated = compressed[..compressed.len() / 2].to_vec();
    let r = repo.decompress_object(&truncated);
    assert_eq!(r.unwrap_err(), GitError::CorruptStream);
}

#[test]
fn digest_of_hello_blob_matches_known_value() {
    let repo = attached_repo();
    let digest = repo.hash_object(&b"hello\n".to_vec(), ObjectKind::Blob).unwrap();
    assert_eq!(digest, HELLO_DIGEST);
}

#[test]
fn digest_is_stable_across_calls() {
    let repo = attached_repo();
    let payload = b"stable content".to_vec();
    let first = repo.hash_object(&payload, ObjectKind::Blob).unwrap();
    let second = repo.hash_object(&payload, ObjectKind::Blob).unwrap();
    assert_eq!(first, second);
}

#[test]
fn digest_distinguishes_kind_and_content() {
    let repo = attached_repo();
    let payload = b"content".to_vec();
    let other = b"content!".to_vec();
    let as_blob = repo.hash_object(&payload, ObjectKind::Blob).unwrap();
    let as_tree = repo.hash_object(&payload, ObjectKind::Tree).unwrap();
    let other_blob = repo.hash_object(&other, ObjectKind::Blob).unwrap();
    assert_ne!(as_blob, as_tree);
    assert_ne!(as_blob, other_blob);
}

#[test]
fn write_then_read_returns_the_object_written() {
    let repo = attached_repo();
    let payload = b"hello\n".to_vec();
    let plan = repo.write(ObjectKind::Blob, &payload).unwrap();
    assert_eq!(plan.digest, HELLO_DIGEST);
    assert_eq!(plan.dir, ".git/objects/ce");
    assert_eq!(plan.file, ".git/objects/ce/013625030ba8dba906f756967f9e9ca394464a");
    let obj = repo.read_object(&plan.digest, Some(&plan.bytes)).unwrap();
    assert_eq!(obj.kind, ObjectKind::Blob);
    assert_eq!(obj.payload, payload);
    assert_eq!(obj.size, 6);
}

#[test]
fn read_of_missing_object_fails_with_not_found() {
    let repo = attached_repo();
    let r = repo.read_object(HELLO_DIGEST, None);
    assert_eq!(r.unwrap_err(), GitError::NotFound);
}

#[test]
fn read_of_one_character_digest_fails_before_any_file_is_read() {
    let repo = attached_repo();
    // Even with bytes in hand, the digest is refused first.
    let r = repo.read_object("a", Some(&b"anything".to_vec()));
    assert_eq!(r.unwrap_err(), GitError::InvalidDigest);
    let r2 = repo.read_object("a", None);
    assert_eq!(r2.unwrap_err(), GitError::InvalidDigest);
}

#[test]
fn read_of_non_hex_digest_fails_with_invalid_digest() {
    let repo = attached_repo();
    let r = repo.read_object("zz013625030ba8dba906f756967f9e9ca394464a", None);
    assert_eq!(r.unwrap_err(), GitError::InvalidDigest);
}

#[test]
fn read_before_initialization_fails() {
    let repo = GitRepo::new();
    let r = repo.read_object(HELLO_DIGEST, None);
    assert_eq!(r.unwrap_err(), GitError::StoreNotInitialized);
}

#[test]
fn write_before_initialization_fails() {
    let repo = GitRepo::new();
    let r = repo.write(ObjectKind::Blob, &b"x".to_vec());
    assert_eq!(r.unwrap_err(), GitError::StoreNotInitialized);
}

#[test]
fn init_lays_out_the_store_once() {
    let mut repo = GitRepo::new();
    let plan = repo.init(false).unwrap();
    assert_eq!(plan.root_dir, ".git");
    assert_eq!(plan.objects_dir, ".git/objects");
    assert_eq!(plan.refs_dir, ".git/refs");
    assert_eq!(plan.head_file, ".git/HEAD");
    assert_eq!(plan.head_content, "ref: refs/heads/main\n");
    let again = repo.init(false);
    assert_eq!(again.unwrap_err(), GitError::AlreadyExists);
}

#[test]
fn init_refuses_an_existing_root() {
    let mut repo = GitRepo::new();
    let r = repo.init(true);
    assert_eq!(r.unwrap_err(), GitError::AlreadyExists);
}

#[test]
fn object_path_splits_the_digest() {
    let repo = attached_repo();
    let loc = repo.object_path(HELLO_DIGEST).unwrap();
    assert_eq!(loc.dir, ".git/objects/ce");
    assert_eq!(loc.file, ".git/objects/ce/013625030ba8dba906f756967f9e9ca394464a");
}

#[test]
fn write_object_refuses_a_short_digest() {
    let repo = attached_repo();
    let r = repo.write_object("c", &b"blob 1\0x".to_vec());
    assert_eq!(r.unwrap_err(), GitError::InvalidDigest);
}

fn entry(mode: &str, name: &str, digest: &str) -> TreeEntry {
    TreeEntry::new(mode.as_bytes().to_vec(), name.as_bytes().to_vec(), digest).unwrap()
}

#[test]
fn identical_directories_get_identical_tree_digests() {
    let d_file = "0123456789abcdef0123456789abcdef01234567";
    let d_dir = "aaaaaaaaaaaaaaaaaaaaaaaaaaaaaaaaaaaaaaaa";
    let repo = attached_repo();
    // The same three children, enumerated in two different orders.
    let one = vec![
        entry("100644", "readme", d_file),
        entry("40000", "src", d_dir),
        entry("100644", "notes", d_file),
    ];
    let two = vec![
        entry("100644", "notes", d_file),
        entry("100644", "readme", d_file),
        entry("40000", "src", d_dir),
    ];
    let plan_one = repo.write_tree(one).unwrap();
    let plan_two = repo.write_tree(two).unwrap();
    assert_eq!(plan_one.digest, plan_two.digest);
    assert_eq!(plan_one.bytes, plan_two.bytes);
}

#[test]
fn tree_written_lists_its_names_back() {
    let d = "0123456789abcdef0123456789abcdef01234567";
    let repo = attached_repo();
    let entries = vec![entry("100644", "b.txt", d), entry("100644", "a.txt", d)];
    let plan = repo.write_tree(entries).unwrap();
    let listing = repo.ls_tree(&plan.digest, Some(&plan.bytes)).unwrap();
    assert_eq!(listing, b"a.txt\nb.txt".to_vec());
}

#[test]
fn ls_tree_refuses_a_blob() {
    let repo = attached_repo();
    let plan = repo.write(ObjectKind::Blob, &b"hello\n".to_vec()).unwrap();
    let r = repo.ls_tree(&plan.digest, Some(&plan.bytes));
    assert_eq!(r.unwrap_err(), GitError::UnsupportedKind);
}

#[test]
fn read_of_garbage_bytes_fails_with_corrupt_stream() {
    let repo = attached_repo();
    let r = repo.read_object(HELLO_DIGEST, Some(&b"not compressed at all".to_vec()));
    assert_eq!(r.unwrap_err(), GitError::CorruptStream);
}

#[test]
fn ls_tree_surfaces_a_truncated_entry() {
    let repo = attached_repo();
    // A tree object whose payload stops 5 bytes into the digest field.
    let mut payload = b"100644 a\0".to_vec();
    payload.extend_from_slice(&[1, 2, 3, 4, 5]);
    let plan = repo.write(ObjectKind::Tree, &payload).unwrap();
    let r = repo.ls_tree(&plan.digest, Some(&plan.bytes));
    assert_eq!(r.unwrap_err(), GitError::TruncatedEntry);
}

#[test]
fn ls_tree_on_missing_object_fails_with_not_found() {
    let repo = attached_repo();
    let r = repo.ls_tree(HELLO_DIGEST, None);
    assert_eq!(r.unwrap_err(), GitError::NotFound);
}
