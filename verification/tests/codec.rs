use minigit::codec::encode_object;
use minigit::{GitError, GitObject, ObjectKind};

#[test]
fn blob_hello_encodes_to_exact_bytes() {
    let payload = b"hello\n".to_vec();
    let encoded = encode_object(ObjectKind::Blob, &payload);
    assert_eq!(encoded, b"blob 6\0hello\n".to_vec());
}

#[test]
fn empty_blob_encodes_to_exact_bytes() {
    let encoded = encode_object(ObjectKind::Blob, &Vec::new());
    assert_eq!(encoded, b"blob 0\0".to_vec());
}

#[test]
fn decode_inverts_encode_for_blobs() {
    let payload = b"some file content, with bytes \x01\x02\xff".to_vec();
    let encoded = encode_object(ObjectKind::Blob, &payload);
    let obj = GitObject::from_raw(encoded).unwrap();
    assert_eq!(obj.kind, ObjectKind::Blob);
    assert_eq!(obj.payload, payload);
    assert_eq!(obj.size, payload.len());
}

#[test]
fn decode_inverts_encode_for_trees() {
    let payload = b"arbitrary tree payload".to_vec();
    let encoded = encode_object(ObjectKind::Tree, &payload);
    let obj = GitObject::from_raw(encoded).unwrap();
    assert_eq!(obj.kind, ObjectKind::Tree);
    assert_eq!(obj.payload, payload);
}

#[test]
fn decode_inverts_encode_for_empty_payload() {
    let encoded = encode_object(ObjectKind::Blob, &Vec::new());
    let obj = GitObject::from_raw(encoded).unwrap();
    assert_eq!(obj.kind, ObjectKind::Blob);
    assert_eq!(obj.payload, Vec::<u8>::new());
    assert_eq!(obj.size, 0);
}

#[test]
fn missing_nul_fails_with_malformed_header() {
    let r = GitObject::from_raw(b"blob 6hello!".to_vec());
    assert_eq!(r.unwrap_err(), GitError::MalformedHeader);
}

#[test]
fn empty_input_fails_with_malformed_header() {
    let r = GitObject::from_raw(Vec::new());
    assert_eq!(r.unwrap_err(), GitError::MalformedHeader);
}

#[test]
fn header_without_space_fails_with_malformed_header() {
    let r = GitObject::from_raw(b"blob6\0hello!".to_vec());
    assert_eq!(r.unwrap_err(), GitError::MalformedHeader);
}

#[test]
fn non_decimal_length_fails_with_malformed_header() {
    let r = GitObject::from_raw(b"blob six\0hello!".to_vec());
    assert_eq!(r.unwrap_err(), GitError::MalformedHeader);
}

#[test]
fn mismatched_length_fails_with_malformed_header() {
    let r = GitObject::from_raw(b"blob 7\0hello\n".to_vec());
    assert_eq!(r.unwrap_err(), GitError::MalformedHeader);
}

#[test]
fn unknown_kind_fails_with_unsupported_kind() {
    let r = GitObject::from_raw(b"commit 5\0abcde".to_vec());
    assert_eq!(r.unwrap_err(), GitError::UnsupportedKind);
}
