//! Byte-sequence utilities shared by the codec and the tree encoder:
//! locating a byte, byte-wise lexicographic ordering, and the decimal
//! ASCII rendering of a length.

use vstd::prelude::*;

verus! {

/// The position of the first occurrence of `b` in `data`, if any.
pub open spec fn find_byte(data: Seq<u8>, b: u8) -> Option<nat>
    decreases data.len(),
{
    if data.len() == 0 {
        None
    } else if data[0] == b {
        Some(0)
    } else {
        match find_byte(data.skip(1), b) {
            Some(i) => Some((i + 1) as nat),
            None => None,
        }
    }
}

/// What `find_byte` returns: the first position holding `b`, or `None`
/// when `b` does not occur.
pub proof fn lemma_find_byte(data: Seq<u8>, b: u8)
    ensures
        match find_byte(data, b) {
            Some(i) => {
                &&& i < data.len()
                &&& data[i as int] == b
                &&& forall|j: int| 0 <= j < i ==> data[j] != b
            },
            None => forall|j: int| 0 <= j < data.len() ==> data[j] != b,
        },
    decreases data.len(),
{
    if data.len() == 0 {
    } else if data[0] == b {
    } else {
        lemma_find_byte(data.skip(1), b);
        match find_byte(data.skip(1), b) {
            Some(i) => {
                assert(data[i as int + 1] == data.skip(1)[i as int]);
                assert(forall|j: int| 1 <= j < i + 1 ==> data[j] == data.skip(1)[j - 1]);
            },
            None => {
                assert(forall|j: int| 1 <= j < data.len() ==> data[j] == data.skip(1)[j - 1]);
            },
        }
    }
}

/// `find_byte` finds `i` exactly when `b` stands at `i` and nowhere earlier.
pub proof fn lemma_find_byte_at(data: Seq<u8>, b: u8, i: int)
    requires
        0 <= i < data.len(),
        data[i] == b,
        forall|j: int| 0 <= j < i ==> data[j] != b,
    ensures
        find_byte(data, b) == Some(i as nat),
{
    lemma_find_byte(data, b);
    match find_byte(data, b) {
        Some(k) => {
            if k < i {
                assert(data[k as int] == b);
            } else if i < k {
                assert(data[i] != b);
            }
        },
        None => {
            assert(data[i] == b);
        },
    }
}

/// Finds the first occurrence of `b` within `data[start..end]`.
pub fn find_byte_in(data: &[u8], start: usize, end: usize, b: u8) -> (r: Option<usize>)
    requires
        start <= end <= data@.len(),
    ensures
        match r {
            Some(i) => {
                &&& start <= i < end
                &&& data@[i as int] == b
                &&& forall|j: int| start <= j < i ==> data@[j] != b
                &&& find_byte(data@.subrange(start as int, end as int), b) == Some(
                    (i - start) as nat,
                )
            },
            None => {
                &&& forall|j: int| start <= j < end ==> data@[j] != b
                &&& find_byte(data@.subrange(start as int, end as int), b) is None
            },
        },
{
    let ghost win = data@.subrange(start as int, end as int);
    let mut i = start;
    while i < end
        invariant
            start <= i <= end <= data@.len(),
            win == data@.subrange(start as int, end as int),
            forall|j: int| start <= j < i ==> data@[j] != b,
        decreases end - i,
    {
        if data[i] == b {
            proof {
                assert(win[i - start] == b);
                assert(forall|j: int| 0 <= j < i - start ==> win[j] == data@[j + start]);
                lemma_find_byte_at(win, b, i - start);
            }
            return Some(i);
        }
        i += 1;
    }
    proof {
        assert(forall|j: int| 0 <= j < win.len() ==> win[j] == data@[j + start]);
        lemma_find_byte(win, b);
        if find_byte(win, b) is Some {
            let k = find_byte(win, b)->Some_0;
            assert(data@[k + start] == b);
        }
    }
    None
}

/// Byte-wise lexicographic "less than or equal" on byte sequences.
pub open spec fn lex_le(a: Seq<u8>, b: Seq<u8>) -> bool
    decreases a.len(),
{
    if a.len() == 0 {
        true
    } else if b.len() == 0 {
        false
    } else if a[0] < b[0] {
        true
    } else if a[0] > b[0] {
        false
    } else {
        lex_le(a.skip(1), b.skip(1))
    }
}

/// Any two byte sequences are comparable under `lex_le`.
pub proof fn lemma_lex_le_total(a: Seq<u8>, b: Seq<u8>)
    ensures
        lex_le(a, b) || lex_le(b, a),
    decreases a.len(),
{
    if a.len() == 0 || b.len() == 0 {
    } else if a[0] == b[0] {
        lemma_lex_le_total(a.skip(1), b.skip(1));
    }
}

/// `lex_le` both ways means the sequences are equal.
pub proof fn lemma_lex_le_antisymmetric(a: Seq<u8>, b: Seq<u8>)
    requires
        lex_le(a, b),
        lex_le(b, a),
    ensures
        a == b,
    decreases a.len(),
{
    if a.len() == 0 {
        assert(b.len() == 0);
        assert(a =~= b);
    } else {
        assert(b.len() > 0);
        assert(a[0] == b[0]);
        lemma_lex_le_antisymmetric(a.skip(1), b.skip(1));
        assert(a =~= seq![a[0]] + a.skip(1));
        assert(b =~= seq![b[0]] + b.skip(1));
    }
}

/// `lex_le` is transitive.
pub proof fn lemma_lex_le_transitive(a: Seq<u8>, b: Seq<u8>, c: Seq<u8>)
    requires
        lex_le(a, b),
        lex_le(b, c),
    ensures
        lex_le(a, c),
    decreases a.len(),
{
    if a.len() == 0 || b.len() == 0 || c.len() == 0 {
    } else if a[0] == b[0] && b[0] == c[0] {
        lemma_lex_le_transitive(a.skip(1), b.skip(1), c.skip(1));
    }
}

/// Compares two byte strings in byte-wise lexicographic order.
pub fn bytes_le(a: &Vec<u8>, b: &Vec<u8>) -> (r: bool)
    ensures
        r == lex_le(a@, b@),
{
    let a_len = a.len();
    let b_len = b.len();
    let mut i: usize = 0;
    proof {
        assert(a@.skip(0) =~= a@);
        assert(b@.skip(0) =~= b@);
    }
    while i < a_len && i < b_len
        invariant
            i <= a_len,
            i <= b_len,
            a_len == a@.len(),
            b_len == b@.len(),
            lex_le(a@, b@) == lex_le(a@.skip(i as int), b@.skip(i as int)),
            forall|j: int| 0 <= j < i ==> a@[j] == b@[j],
        decreases a_len - i,
    {
        let x = a[i];
        let y = b[i];
        proof {
            assert(a@.skip(i as int)[0] == a@[i as int]);
            assert(b@.skip(i as int)[0] == b@[i as int]);
            assert(a@.skip(i as int).skip(1) =~= a@.skip(i + 1));
            assert(b@.skip(i as int).skip(1) =~= b@.skip(i + 1));
        }
        if x < y {
            return true;
        }
        if x > y {
            return false;
        }
        i += 1;
    }
    proof {
        if i >= a_len {
            assert(a@.skip(i as int).len() == 0);
        } else {
            assert(b@.skip(i as int).len() == 0);
            assert(a@.skip(i as int).len() > 0);
        }
    }
    i >= a_len
}

/// The decimal ASCII digits of `n`, most significant first, no sign and no
/// leading zero (save for `n == 0` itself).
pub open spec fn dec_digits(n: nat) -> Seq<u8>
    decreases n,
{
    if n < 10 {
        seq![(48 + n) as u8]
    } else {
        dec_digits(n / 10).push((48 + n % 10) as u8)
    }
}

/// The value of a run of decimal ASCII digits, most significant first.
pub open spec fn digits_val(s: Seq<u8>) -> nat
    decreases s.len(),
{
    if s.len() == 0 {
        0
    } else {
        digits_val(s.drop_last()) * 10 + (if s.last() >= 48 {
            (s.last() - 48) as nat
        } else {
            0
        })
    }
}

/// A non-empty run of decimal ASCII digits.
pub open spec fn is_digits(s: Seq<u8>) -> bool {
    s.len() > 0 && forall|i: int| 0 <= i < s.len() ==> 48 <= #[trigger] s[i] <= 57
}

/// `dec_digits` renders digits whose value is the number rendered.
pub proof fn lemma_dec_digits(n: nat)
    ensures
        is_digits(dec_digits(n)),
        digits_val(dec_digits(n)) == n,
    decreases n,
{
    if n < 10 {
        assert(dec_digits(n).drop_last() =~= Seq::<u8>::empty());
        assert(((48 + n) as u8) == 48 + n);
        assert(dec_digits(n).last() == (48 + n) as u8);
        assert(digits_val(dec_digits(n)) == digits_val(dec_digits(n).drop_last()) * 10 + (
        dec_digits(n).last() - 48));
        assert(digits_val(dec_digits(n)) == n);
    } else {
        lemma_dec_digits(n / 10);
        assert(dec_digits(n).drop_last() =~= dec_digits(n / 10));
        assert(((48 + n % 10) as u8) == 48 + n % 10);
        assert(dec_digits(n).last() == (48 + n % 10) as u8);
        assert(n / 10 * 10 + n % 10 == n) by (nonlinear_arith);
        assert(digits_val(dec_digits(n)) == digits_val(dec_digits(n).drop_last()) * 10 + (
        dec_digits(n).last() - 48));
        assert(digits_val(dec_digits(n)) == n);
    }
}

/// Extending a digit run on the right can only grow its value.
pub proof fn lemma_digits_val_prefix_le(s: Seq<u8>, i: int)
    requires
        0 <= i <= s.len(),
    ensures
        digits_val(s.take(i)) <= digits_val(s),
    decreases s.len() - i,
{
    if i < s.len() {
        lemma_digits_val_prefix_le(s, i + 1);
        assert(s.take(i + 1).drop_last() =~= s.take(i));
        assert(digits_val(s.take(i)) <= digits_val(s.take(i + 1)));
    } else {
        assert(s.take(i) =~= s);
    }
}

/// Renders `n` as decimal ASCII digits.
pub fn dec_bytes(n: usize) -> (r: Vec<u8>)
    ensures
        r@ == dec_digits(n as nat),
    decreases n,
{
    if n < 10 {
        let mut v: Vec<u8> = Vec::new();
        v.push(48 + (n as u8));
        proof {
            assert(v@ =~= dec_digits(n as nat));
        }
        v
    } else {
        let mut v = dec_bytes(n / 10);
        v.push(48 + ((n % 10) as u8));
        proof {
            assert(v@ =~= dec_digits(n as nat));
        }
        v
    }
}

/// Parses the decimal digit run `s[from..to]`; `None` when the range is not
/// a digit run or its value does not fit a `usize`.
pub fn parse_decimal(s: &[u8], from: usize, to: usize) -> (r: Option<usize>)
    requires
        from <= to <= s@.len(),
    ensures
        match r {
            Some(v) => {
                &&& is_digits(s@.subrange(from as int, to as int))
                &&& v == digits_val(s@.subrange(from as int, to as int))
            },
            None => {
                ||| !is_digits(s@.subrange(from as int, to as int))
                ||| digits_val(s@.subrange(from as int, to as int)) > usize::MAX
            },
        },
{
    let ghost tok = s@.subrange(from as int, to as int);
    if from == to {
        return None;
    }
    let mut acc: u128 = 0;
    let mut i = from;
    while i < to
        invariant
            from <= i <= to <= s@.len(),
            tok == s@.subrange(from as int, to as int),
            acc <= usize::MAX,
            acc == digits_val(tok.take(i - from)),
            forall|j: int| 0 <= j < i - from ==> 48 <= #[trigger] tok[j] <= 57,
        decreases to - i,
    {
        let c = s[i];
        if c < 48 || c > 57 {
            proof {
                assert(tok[i - from] == c);
            }
            return None;
        }
        let d = (c - 48) as u128;
        let next: u128 = acc * 10 + d;
        proof {
            assert(tok.take(i - from + 1).drop_last() =~= tok.take(i - from));
            assert(tok.take(i - from + 1).last() == tok[i - from]);
            assert(tok[i - from] == c);
        }
        if next > (usize::MAX as u128) {
            proof {
                assert(digits_val(tok.take(i - from + 1)) == next);
                lemma_digits_val_prefix_le(tok, i - from + 1);
            }
            return None;
        }
        acc = next;
        i += 1;
    }
    proof {
        assert(tok.take(to - from) =~= tok);
    }
    Some(acc as usize)
}

} // verus!
