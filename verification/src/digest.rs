//! The digest engine: a 160-bit content hash over the canonical encoding,
//! rendered as 40 lowercase hexadecimal characters.

use vstd::prelude::*;
use vstd::string::StrSliceExecFns;
use vstd::string::StringExecFns;
use sha1::Digest;

verus! {

/// The SHA-1 digest of a byte sequence; a function of the bytes alone,
/// named but not written out here.
pub uninterp spec fn sha1_of(bytes: Seq<u8>) -> Seq<u8>;

/// Relies on `sha1::Sha1` (through the `Digest` trait): the 20-byte SHA-1
/// digest of the input, which depends on the input bytes alone.
#[verifier::external_body]
pub(crate) fn sha1_digest(bytes: &[u8]) -> (r: Vec<u8>)
    ensures
        r@ == sha1_of(bytes@),
        r@.len() == 20,
{
    let mut hasher = sha1::Sha1::new();
    hasher.update(bytes);
    hasher.finalize().to_vec()
}

/// The lowercase hexadecimal digit for a value below 16.
pub open spec fn hex_digit_char(d: int) -> char {
    if d == 0 {
        '0'
    } else if d == 1 {
        '1'
    } else if d == 2 {
        '2'
    } else if d == 3 {
        '3'
    } else if d == 4 {
        '4'
    } else if d == 5 {
        '5'
    } else if d == 6 {
        '6'
    } else if d == 7 {
        '7'
    } else if d == 8 {
        '8'
    } else if d == 9 {
        '9'
    } else if d == 10 {
        'a'
    } else if d == 11 {
        'b'
    } else if d == 12 {
        'c'
    } else if d == 13 {
        'd'
    } else if d == 14 {
        'e'
    } else {
        'f'
    }
}

/// The lowercase hexadecimal rendering of a byte sequence, two digits per
/// byte, high nibble first.
pub open spec fn hex_lower_of(bytes: Seq<u8>) -> Seq<char>
    decreases bytes.len(),
{
    if bytes.len() == 0 {
        Seq::empty()
    } else {
        seq![
            hex_digit_char(bytes[0] as int / 16),
            hex_digit_char(bytes[0] as int % 16),
        ] + hex_lower_of(bytes.skip(1))
    }
}

/// A lowercase hexadecimal digit.
pub open spec fn is_hex_char(c: char) -> bool {
    ('0' <= c && c <= '9') || ('a' <= c && c <= 'f')
}

/// The hex rendering is twice as long as the bytes rendered.
pub proof fn lemma_hex_lower_len(bytes: Seq<u8>)
    ensures
        hex_lower_of(bytes).len() == 2 * bytes.len(),
    decreases bytes.len(),
{
    if bytes.len() > 0 {
        lemma_hex_lower_len(bytes.skip(1));
    }
}

/// Every value renders to a lowercase hex digit.
pub proof fn lemma_hex_digit_char(d: int)
    ensures
        is_hex_char(hex_digit_char(d)),
{
}

/// Every character of a hex rendering is a lowercase hex digit.
pub proof fn lemma_hex_lower_valid(bytes: Seq<u8>)
    ensures
        forall|i: int|
            0 <= i < hex_lower_of(bytes).len() ==> is_hex_char(#[trigger] hex_lower_of(bytes)[i]),
    decreases bytes.len(),
{
    if bytes.len() > 0 {
        lemma_hex_lower_valid(bytes.skip(1));
        assert forall|i: int|
            0 <= i < hex_lower_of(bytes).len() implies is_hex_char(
            #[trigger] hex_lower_of(bytes)[i],
        ) by {
            if i == 0 {
                lemma_hex_digit_char(bytes[0] as int / 16);
            } else if i == 1 {
                lemma_hex_digit_char(bytes[0] as int % 16);
            } else {
                assert(hex_lower_of(bytes)[i] == hex_lower_of(bytes.skip(1))[i - 2]);
            }
        }
    }
}

/// Rendering one more byte appends its two digits.
pub proof fn lemma_hex_lower_push(bytes: Seq<u8>, x: u8)
    ensures
        hex_lower_of(bytes.push(x)) == hex_lower_of(bytes) + seq![
            hex_digit_char(x as int / 16),
            hex_digit_char(x as int % 16),
        ],
    decreases bytes.len(),
{
    if bytes.len() == 0 {
        assert(bytes.push(x)[0] == x);
        assert(bytes.push(x).skip(1) =~= Seq::<u8>::empty());
        assert(hex_lower_of(Seq::<u8>::empty()) == Seq::<char>::empty());
        assert(hex_lower_of(bytes.push(x)) =~= hex_lower_of(bytes) + seq![
            hex_digit_char(x as int / 16),
            hex_digit_char(x as int % 16),
        ]);
    } else {
        lemma_hex_lower_push(bytes.skip(1), x);
        assert(bytes.push(x).skip(1) =~= bytes.skip(1).push(x));
        assert(bytes.push(x)[0] == bytes[0]);
        assert(hex_lower_of(bytes.push(x)) =~= hex_lower_of(bytes) + seq![
            hex_digit_char(x as int / 16),
            hex_digit_char(x as int % 16),
        ]);
    }
}

/// The one-character string for a hex digit value.
fn hex_char_str(d: u8) -> (r: &'static str)
    requires
        d < 16,
    ensures
        r@ == seq![hex_digit_char(d as int)],
{
    match d {
        0 => {
            proof {
                reveal_strlit("0");
            }
            "0"
        },
        1 => {
            proof {
                reveal_strlit("1");
            }
            "1"
        },
        2 => {
            proof {
                reveal_strlit("2");
            }
            "2"
        },
        3 => {
            proof {
                reveal_strlit("3");
            }
            "3"
        },
        4 => {
            proof {
                reveal_strlit("4");
            }
            "4"
        },
        5 => {
            proof {
                reveal_strlit("5");
            }
            "5"
        },
        6 => {
            proof {
                reveal_strlit("6");
            }
            "6"
        },
        7 => {
            proof {
                reveal_strlit("7");
            }
            "7"
        },
        8 => {
            proof {
                reveal_strlit("8");
            }
            "8"
        },
        9 => {
            proof {
                reveal_strlit("9");
            }
            "9"
        },
        10 => {
            proof {
                reveal_strlit("a");
            }
            "a"
        },
        11 => {
            proof {
                reveal_strlit("b");
            }
            "b"
        },
        12 => {
            proof {
                reveal_strlit("c");
            }
            "c"
        },
        13 => {
            proof {
                reveal_strlit("d");
            }
            "d"
        },
        14 => {
            proof {
                reveal_strlit("e");
            }
            "e"
        },
        _ => {
            proof {
                reveal_strlit("f");
            }
            "f"
        },
    }
}

/// Renders bytes as lowercase hexadecimal.
pub fn to_hex_lower(bytes: &[u8]) -> (r: String)
    ensures
        r@ == hex_lower_of(bytes@),
{
    let len = bytes.len();
    let mut out = String::new();
    let mut i: usize = 0;
    proof {
        assert(bytes@.take(0) =~= Seq::<u8>::empty());
    }
    while i < len
        invariant
            i <= len,
            len == bytes@.len(),
            out@ == hex_lower_of(bytes@.take(i as int)),
        decreases len - i,
    {
        let x = bytes[i];
        out.append(hex_char_str(x / 16));
        out.append(hex_char_str(x % 16));
        proof {
            lemma_hex_lower_push(bytes@.take(i as int), x);
            assert(bytes@.take(i as int).push(x) =~= bytes@.take(i + 1));
        }
        i += 1;
    }
    proof {
        assert(bytes@.take(len as int) =~= bytes@);
    }
    out
}

/// Relies on `hex::decode`: on an even-length string of lowercase hex digits
/// it returns the byte sequence whose lowercase hex rendering is that string.
#[verifier::external_body]
pub(crate) fn hex_decode(s: &str) -> (r: Vec<u8>)
    requires
        s@.len() % 2 == 0,
        forall|i: int| 0 <= i < s@.len() ==> is_hex_char(s@[i]),
    ensures
        hex_lower_of(r@) == s@,
{
    hex::decode(s).unwrap_or_default()
}

/// A digest string usable as a store address: at least two characters, all
/// of them lowercase hex digits.
pub open spec fn valid_digest(s: Seq<char>) -> bool {
    s.len() >= 2 && forall|i: int| 0 <= i < s.len() ==> is_hex_char(#[trigger] s[i])
}

/// A valid digest holds ASCII characters only.
pub proof fn lemma_valid_digest_ascii(s: Seq<char>)
    requires
        valid_digest(s),
    ensures
        vstd::utf8::is_ascii_chars(s),
{
    assert forall|i: int| 0 <= i < s.len() implies '\0' <= #[trigger] s[i] <= '\u{7f}' by {
        assert(is_hex_char(s[i]));
    }
}

/// Decides whether a string is a valid digest.
pub fn check_digest(s: &str) -> (r: bool)
    ensures
        r == valid_digest(s@),
{
    let len = s.unicode_len();
    if len < 2 {
        return false;
    }
    let mut i: usize = 0;
    while i < len
        invariant
            i <= len,
            len == s@.len(),
            forall|j: int| 0 <= j < i ==> is_hex_char(#[trigger] s@[j]),
        decreases len - i,
    {
        let c = s.get_char(i);
        if !(('0' <= c && c <= '9') || ('a' <= c && c <= 'f')) {
            return false;
        }
        i += 1;
    }
    true
}

} // verus!
