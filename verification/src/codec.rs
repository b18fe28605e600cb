//! The codec: the canonical `"<kind> <len>\0<payload>"` byte encoding of an
//! object, and its inverse.

use vstd::prelude::*;
use crate::bytes::{
    dec_bytes, dec_digits, digits_val, find_byte, find_byte_in, is_digits, lemma_dec_digits,
    lemma_find_byte_at, parse_decimal,
};
use crate::errors::GitError;

verus! {

/// The two kinds of object the store holds.
#[derive(Clone, Copy, Debug, PartialEq, Eq, Structural)]
pub enum ObjectKind {
    Blob,
    Tree,
}

/// The ASCII name of a kind, as it stands in an object header.
pub open spec fn kind_bytes(k: ObjectKind) -> Seq<u8> {
    match k {
        ObjectKind::Blob => seq![98u8, 108u8, 111u8, 98u8],
        ObjectKind::Tree => seq![116u8, 114u8, 101u8, 101u8],
    }
}

/// The canonical encoding: `"<kind> <len>\0<payload>"`, the length in
/// decimal ASCII.
pub open spec fn encode_spec(k: ObjectKind, p: Seq<u8>) -> Seq<u8> {
    kind_bytes(k) + seq![32u8] + dec_digits(p.len()) + seq![0u8] + p
}

/// What decoding a raw byte sequence yields: the kind and payload, or the
/// most specific error. The header must end in a NUL, split on a single
/// space into a kind token and a decimal length token, and the declared
/// length must equal the payload's length.
pub open spec fn decode_spec(raw: Seq<u8>) -> Result<(ObjectKind, Seq<u8>), GitError> {
    match find_byte(raw, 0) {
        None => Err(GitError::MalformedHeader),
        Some(n) => {
            let header = raw.take(n as int);
            let payload = raw.skip(n as int + 1);
            match find_byte(header, 32) {
                None => Err(GitError::MalformedHeader),
                Some(sp) => {
                    let ktok = header.take(sp as int);
                    let ltok = header.skip(sp as int + 1);
                    if !(is_digits(ltok) && digits_val(ltok) == payload.len()) {
                        Err(GitError::MalformedHeader)
                    } else if ktok == kind_bytes(ObjectKind::Blob) {
                        Ok((ObjectKind::Blob, payload))
                    } else if ktok == kind_bytes(ObjectKind::Tree) {
                        Ok((ObjectKind::Tree, payload))
                    } else {
                        Err(GitError::UnsupportedKind)
                    }
                },
            }
        },
    }
}

/// An object held in memory: its kind, its raw payload bytes, and the
/// payload's length.
#[derive(Debug)]
pub struct GitObject {
    pub kind: ObjectKind,
    pub payload: Vec<u8>,
    pub size: usize,
}

impl GitObject {
    /// The recorded size is the payload's length.
    pub open spec fn wf(&self) -> bool {
        self.size == self.payload@.len()
    }

    /// Decodes an object from its raw (decompressed) bytes.
    pub fn from_raw(raw_bytes: Vec<u8>) -> (r: Result<GitObject, GitError>)
        ensures
            match decode_spec(raw_bytes@) {
                Ok(kp) => {
                    &&& r matches Ok(o)
                    &&& o.kind == kp.0
                    &&& o.payload@ == kp.1
                    &&& o.size == kp.1.len()
                    &&& o.wf()
                },
                Err(e) => r matches Err(e2) && e2 == e,
            },
    {
        let mut raw_bytes = raw_bytes;
        let len = raw_bytes.len();
        let n = match find_byte_in(raw_bytes.as_slice(), 0, len, 0) {
            Some(n) => n,
            None => {
                proof {
                    assert(raw_bytes@.subrange(0, len as int) =~= raw_bytes@);
                }
                return Err(GitError::MalformedHeader);
            },
        };
        proof {
            assert(raw_bytes@.subrange(0, len as int) =~= raw_bytes@);
        }
        let sp = match find_byte_in(raw_bytes.as_slice(), 0, n, 32) {
            Some(sp) => sp,
            None => {
                proof {
                    assert(raw_bytes@.subrange(0, n as int) =~= raw_bytes@.take(n as int));
                }
                return Err(GitError::MalformedHeader);
            },
        };
        proof {
            assert(raw_bytes@.subrange(0, n as int) =~= raw_bytes@.take(n as int));
            assert(raw_bytes@.take(n as int).take(sp as int) =~= raw_bytes@.subrange(
                0,
                sp as int,
            ));
            assert(raw_bytes@.take(n as int).skip(sp + 1) =~= raw_bytes@.subrange(
                sp + 1,
                n as int,
            ));
        }
        let declared = match parse_decimal(raw_bytes.as_slice(), sp + 1, n) {
            Some(v) => v,
            None => {
                return Err(GitError::MalformedHeader);
            },
        };
        if declared != len - (n + 1) {
            proof {
                assert(raw_bytes@.skip(n + 1).len() == len - (n + 1));
            }
            return Err(GitError::MalformedHeader);
        }
        let ghost ktok = raw_bytes@.take(n as int).take(sp as int);
        let is_blob = sp == 4 && raw_bytes[0] == 98 && raw_bytes[1] == 108 && raw_bytes[2] == 111
            && raw_bytes[3] == 98;
        let is_tree = sp == 4 && raw_bytes[0] == 116 && raw_bytes[1] == 114 && raw_bytes[2] == 101
            && raw_bytes[3] == 101;
        proof {
            if is_blob {
                assert(ktok =~= kind_bytes(ObjectKind::Blob));
            } else {
                assert(ktok != kind_bytes(ObjectKind::Blob));
            }
            if is_tree {
                assert(ktok =~= kind_bytes(ObjectKind::Tree));
            } else {
                assert(ktok != kind_bytes(ObjectKind::Tree));
            }
        }
        if !is_blob && !is_tree {
            return Err(GitError::UnsupportedKind);
        }
        let kind = if is_blob {
            ObjectKind::Blob
        } else {
            ObjectKind::Tree
        };
        let ghost orig = raw_bytes@;
        let payload = raw_bytes.split_off(n + 1);
        proof {
            assert(payload@ =~= orig.skip(n as int + 1));
        }
        let size = payload.len();
        Ok(GitObject { kind, payload, size })
    }
}

/// Encodes an object's kind and payload into the canonical byte encoding.
pub fn encode_object(kind: ObjectKind, payload: &Vec<u8>) -> (r: Vec<u8>)
    ensures
        r@ == encode_spec(kind, payload@),
{
    let mut out: Vec<u8> = Vec::new();
    match kind {
        ObjectKind::Blob => {
            out.push(98);
            out.push(108);
            out.push(111);
            out.push(98);
        },
        ObjectKind::Tree => {
            out.push(116);
            out.push(114);
            out.push(101);
            out.push(101);
        },
    }
    out.push(32);
    let mut digits = dec_bytes(payload.len());
    out.append(&mut digits);
    out.push(0);
    let mut tail = payload.clone();
    out.append(&mut tail);
    proof {
        assert(out@ =~= encode_spec(kind, payload@));
    }
    out
}

/// Decoding inverts encoding: for every kind and payload, the canonical
/// encoding decodes back to exactly that kind and payload.
pub proof fn lemma_decode_encode(k: ObjectKind, p: Seq<u8>)
    ensures
        decode_spec(encode_spec(k, p)) == Ok::<(ObjectKind, Seq<u8>), GitError>((k, p)),
{
    let e = encode_spec(k, p);
    let kb = kind_bytes(k);
    let dd = dec_digits(p.len());
    lemma_dec_digits(p.len());
    let hl = 5 + dd.len() as int;
    assert(e.len() == hl + 1 + p.len());
    assert forall|j: int| 0 <= j < hl implies e[j] != 0 by {
        if j < 4 {
            assert(e[j] == kb[j]);
        } else if j == 4 {
            assert(e[j] == 32);
        } else {
            assert(e[j] == dd[j - 5]);
            assert(48 <= dd[j - 5] <= 57);
        }
    }
    assert(e[hl] == 0);
    lemma_find_byte_at(e, 0, hl);
    let header = e.take(hl);
    let payload = e.skip(hl + 1);
    assert(payload =~= p);
    assert forall|j: int| 0 <= j < 4 implies header[j] != 32 by {
        assert(header[j] == kb[j]);
    }
    assert(header[4] == 32);
    lemma_find_byte_at(header, 32, 4);
    let ktok = header.take(4);
    let ltok = header.skip(5);
    assert(ktok =~= kb);
    assert(ltok =~= dd);
    assert(is_digits(ltok) && digits_val(ltok) == payload.len());
    match k {
        ObjectKind::Blob => {
            assert(ktok == kind_bytes(ObjectKind::Blob));
        },
        ObjectKind::Tree => {
            assert(ktok != kind_bytes(ObjectKind::Blob));
            assert(ktok == kind_bytes(ObjectKind::Tree));
        },
    }
}

/// The canonical encoding is injective: equal encodings come from equal
/// kinds and equal payloads.
pub proof fn lemma_encode_injective(k1: ObjectKind, p1: Seq<u8>, k2: ObjectKind, p2: Seq<u8>)
    requires
        encode_spec(k1, p1) == encode_spec(k2, p2),
    ensures
        k1 == k2,
        p1 == p2,
{
    lemma_decode_encode(k1, p1);
    lemma_decode_encode(k2, p2);
}

} // verus!
