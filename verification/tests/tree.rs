use minigit::tree::{encode_tree, read_tree_object};
use minigit::{GitError, TreeEntry};

const D1: &str = "ce013625030ba8dba906f756967f9e9ca394464a";
const D2: &str = "0123456789abcdef0123456789abcdef01234567";
const D3: &str = "aaaaaaaaaaaaaaaaaaaaaaaaaaaaaaaaaaaaaaaa";

fn entry(mode: &str, name: &str, digest: &str) -> TreeEntry {
    TreeEntry::new(mode.as_bytes().to_vec(), name.as_bytes().to_vec(), digest).unwrap()
}

#[test]
fn entries_are_ordered_bytewise_by_name() {
    // "B" (0x42) sorts before "a" (0x61), which sorts before "ab".
    let entries = vec![
        entry("100644", "a", D1),
        entry("100644", "B", D2),
        entry("100644", "ab", D3),
    ];
    let payload = encode_tree(entries);
    let mut expected = Vec::new();
    expected.extend_from_slice(b"100644 B\0");
    expected.extend_from_slice(&hex::decode(D2).unwrap());
    expected.extend_from_slice(b"100644 a\0");
    expected.extend_from_slice(&hex::decode(D1).unwrap());
    expected.extend_from_slice(b"100644 ab\0");
    expected.extend_from_slice(&hex::decode(D3).unwrap());
    assert_eq!(payload, expected);
}

#[test]
fn encoding_does_not_depend_on_input_order() {
    let one = vec![
        entry("100644", "beta", D1),
        entry("40000", "alpha", D2),
        entry("100644", "gamma", D3),
    ];
    let two = vec![
        entry("100644", "gamma", D3),
        entry("100644", "beta", D1),
        entry("40000", "alpha", D2),
    ];
    assert_eq!(encode_tree(one), encode_tree(two));
}

#[test]
fn listing_names_follows_payload_order() {
    let entries = vec![entry("100644", "b", D1), entry("100644", "a", D2)];
    let payload = encode_tree(entries);
    let listing = read_tree_object(&payload).unwrap();
    assert_eq!(listing, b"a\nb".to_vec());
}

#[test]
fn listing_of_empty_tree_is_empty() {
    let listing = read_tree_object(&Vec::new()).unwrap();
    assert_eq!(listing, Vec::<u8>::new());
}

#[test]
fn truncated_digest_fails_with_truncated_entry() {
    // An entry header followed by only 5 of the 20 digest bytes.
    let mut payload = b"100644 a\0".to_vec();
    payload.extend_from_slice(&[1, 2, 3, 4, 5]);
    let r = read_tree_object(&payload);
    assert_eq!(r.unwrap_err(), GitError::TruncatedEntry);
}

#[test]
fn entry_without_nul_fails_with_malformed_header() {
    let payload = b"100644 a".to_vec();
    let r = read_tree_object(&payload);
    assert_eq!(r.unwrap_err(), GitError::MalformedHeader);
}

#[test]
fn entry_without_space_fails_with_malformed_header() {
    let mut payload = b"100644a\0".to_vec();
    payload.extend_from_slice(&[0x11; 20]);
    let r = read_tree_object(&payload);
    assert_eq!(r.unwrap_err(), GitError::MalformedHeader);
}

#[test]
fn entry_name_with_slash_is_refused() {
    let r = TreeEntry::new(b"100644".to_vec(), b"a/b".to_vec(), D1);
    assert_eq!(r.unwrap_err(), GitError::MalformedHeader);
}

#[test]
fn entry_mode_with_space_is_refused() {
    let r = TreeEntry::new(b"100 644".to_vec(), b"a".to_vec(), D1);
    assert_eq!(r.unwrap_err(), GitError::MalformedHeader);
}

#[test]
fn short_child_digest_is_refused() {
    let r = TreeEntry::new(b"100644".to_vec(), b"a".to_vec(), "ce0136");
    assert_eq!(r.unwrap_err(), GitError::InvalidDigest);
}

#[test]
fn uppercase_child_digest_is_refused() {
    let upper = "CE013625030BA8DBA906F756967F9E9CA394464A";
    let r = TreeEntry::new(b"100644".to_vec(), b"a".to_vec(), upper);
    assert_eq!(r.unwrap_err(), GitError::InvalidDigest);
}
