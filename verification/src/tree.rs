//! Tree objects: the entries of one directory snapshot, their canonical
//! order, and the tree payload sub-encoding
//! `"<mode> <name>\0" + <20 raw digest bytes>` per entry.

use vstd::prelude::*;
use vstd::relations::{sorted_by, total_ordering};
use vstd::seq_lib::lemma_sorted_unique;
use crate::bytes::{bytes_le, lex_le, lemma_lex_le_antisymmetric, lemma_lex_le_total,
    lemma_lex_le_transitive};
use crate::digest::{check_digest, hex_decode, hex_lower_of, is_hex_char, lemma_hex_lower_len};
use crate::errors::GitError;
use vstd::string::StrSliceExecFns;

verus! {

/// The mathematical view of one tree entry: its mode token, its name, and
/// the 20 raw bytes of the child's digest.
#[verifier::ext_equal]
pub struct EntryModel {
    pub mode: Seq<u8>,
    pub name: Seq<u8>,
    pub digest: Seq<u8>,
}

/// One child reference inside a tree object's payload.
#[derive(Debug)]
pub struct TreeEntry {
    pub(crate) mode: Vec<u8>,
    pub(crate) name: Vec<u8>,
    pub(crate) digest: Vec<u8>,
}

impl View for TreeEntry {
    type V = EntryModel;

    closed spec fn view(&self) -> EntryModel {
        EntryModel { mode: self.mode@, name: self.name@, digest: self.digest@ }
    }
}

/// The views of a run of entries.
pub open spec fn models(s: Seq<TreeEntry>) -> Seq<EntryModel> {
    s.map_values(|e: TreeEntry| e@)
}

/// A well-formed entry: a non-empty mode without NUL or space, a name
/// without NUL or slash, and a 20-byte digest.
pub open spec fn entry_wf(e: EntryModel) -> bool {
    &&& e.mode.len() > 0
    &&& forall|i: int| 0 <= i < e.mode.len() ==> #[trigger] e.mode[i] != 0 && e.mode[i] != 32
    &&& forall|i: int| 0 <= i < e.name.len() ==> #[trigger] e.name[i] != 0 && e.name[i] != 47
    &&& e.digest.len() == 20
}

/// The canonical order of tree entries: by name in byte-wise order, ties
/// broken by mode and then digest so that the order is total.
pub open spec fn entry_le(a: EntryModel, b: EntryModel) -> bool {
    if a.name == b.name {
        if a.mode == b.mode {
            lex_le(a.digest, b.digest)
        } else {
            lex_le(a.mode, b.mode)
        }
    } else {
        lex_le(a.name, b.name)
    }
}

/// `entry_le` as a relation value, for use with the sequence-sorting
/// library.
pub open spec fn entry_le_fn() -> spec_fn(EntryModel, EntryModel) -> bool {
    |a: EntryModel, b: EntryModel| entry_le(a, b)
}

/// Any two entries are comparable under `entry_le`.
pub proof fn lemma_entry_le_total(a: EntryModel, b: EntryModel)
    ensures
        entry_le(a, b) || entry_le(b, a),
{
    lemma_lex_le_total(a.name, b.name);
    lemma_lex_le_total(a.mode, b.mode);
    lemma_lex_le_total(a.digest, b.digest);
}

/// `entry_le` both ways means the entries are equal.
pub proof fn lemma_entry_le_antisymmetric(a: EntryModel, b: EntryModel)
    requires
        entry_le(a, b),
        entry_le(b, a),
    ensures
        a == b,
{
    if a.name == b.name {
        if a.mode == b.mode {
            lemma_lex_le_antisymmetric(a.digest, b.digest);
            assert(a =~= b);
        } else {
            lemma_lex_le_antisymmetric(a.mode, b.mode);
        }
    } else {
        lemma_lex_le_antisymmetric(a.name, b.name);
    }
}

/// `entry_le` is transitive.
pub proof fn lemma_entry_le_transitive(a: EntryModel, b: EntryModel, c: EntryModel)
    requires
        entry_le(a, b),
        entry_le(b, c),
    ensures
        entry_le(a, c),
{
    if a.name == b.name && b.name == c.name {
        if a.mode == b.mode && b.mode == c.mode {
            lemma_lex_le_transitive(a.digest, b.digest, c.digest);
        } else if a.mode == b.mode {
            // mode tie with b, then a strict mode step to c
        } else if b.mode == c.mode {
        } else {
            lemma_lex_le_transitive(a.mode, b.mode, c.mode);
            if a.mode == c.mode {
                lemma_lex_le_antisymmetric(a.mode, b.mode);
            }
        }
    } else if a.name == b.name {
        // the step from b to c is a strict name step
    } else if b.name == c.name {
    } else {
        lemma_lex_le_transitive(a.name, b.name, c.name);
        if a.name == c.name {
            lemma_lex_le_antisymmetric(a.name, b.name);
        }
    }
}

/// `entry_le` is a total ordering in the library's sense.
pub proof fn lemma_entry_le_total_ordering()
    ensures
        total_ordering(entry_le_fn()),
{
    let r = entry_le_fn();
    assert forall|x: EntryModel| #[trigger] r(x, x) by {
        lemma_entry_le_total(x, x);
    }
    assert forall|x: EntryModel, y: EntryModel| #[trigger] r(x, y) && #[trigger] r(y, x)
        implies x == y by {
        lemma_entry_le_antisymmetric(x, y);
    }
    assert forall|x: EntryModel, y: EntryModel, z: EntryModel|
        #[trigger] r(x, y) && #[trigger] r(y, z) implies r(x, z) by {
        lemma_entry_le_transitive(x, y, z);
    }
    assert forall|x: EntryModel, y: EntryModel| #[trigger] r(x, y) || #[trigger] r(y, x) by {
        lemma_entry_le_total(x, y);
    }
}

/// Compares two entries in the canonical order.
fn entry_le_exec(a: &TreeEntry, b: &TreeEntry) -> (r: bool)
    ensures
        r == entry_le(a@, b@),
{
    proof {
        lemma_lex_le_total(a.name@, b.name@);
        lemma_lex_le_total(a.mode@, b.mode@);
    }
    let name_le_ab = bytes_le(&a.name, &b.name);
    let name_le_ba = bytes_le(&b.name, &a.name);
    if name_le_ab && name_le_ba {
        proof {
            lemma_lex_le_antisymmetric(a.name@, b.name@);
        }
        let mode_le_ab = bytes_le(&a.mode, &b.mode);
        let mode_le_ba = bytes_le(&b.mode, &a.mode);
        if mode_le_ab && mode_le_ba {
            proof {
                lemma_lex_le_antisymmetric(a.mode@, b.mode@);
            }
            bytes_le(&a.digest, &b.digest)
        } else {
            mode_le_ab
        }
    } else {
        name_le_ab
    }
}

/// Inserts an entry into a run that is already in canonical order, keeping
/// the order.
fn insert_sorted(out: &mut Vec<TreeEntry>, e: TreeEntry)
    requires
        sorted_by(models(old(out)@), entry_le_fn()),
    ensures
        sorted_by(models(final(out)@), entry_le_fn()),
        models(final(out)@).to_multiset() == models(old(out)@).to_multiset().insert(e@),
{
    broadcast use vstd::seq_lib::group_to_multiset_ensures;

    let len = out.len();
    let mut pos: usize = 0;
    while pos < len && !entry_le_exec(&e, &out[pos])
        invariant
            pos <= len,
            len == out@.len(),
            out == old(out),
            forall|j: int| 0 <= j < pos ==> entry_le(#[trigger] models(out@)[j], e@),
        decreases len - pos,
    {
        proof {
            lemma_entry_le_total(e@, out@[pos as int]@);
        }
        pos += 1;
    }
    let ghost s = models(out@);
    out.insert(pos, e);
    proof {
        let t = models(out@);
        assert(t =~= s.insert(pos as int, e@));
        assert forall|i: int, j: int| 0 <= i < j < s.len() implies entry_le(
            #[trigger] s[i],
            #[trigger] s[j],
        ) by {
            assert(entry_le_fn()(s[i], s[j]));
        }
        assert forall|i: int, j: int| 0 <= i < j < t.len() implies #[trigger] entry_le_fn()(
            t[i],
            t[j],
        ) by {
            if j < pos {
                assert(entry_le(s[i], s[j]));
            } else if i < pos && j == pos {
                assert(entry_le(s[i], e@));
            } else if i < pos && j > pos {
                assert(entry_le(s[i], s[j - 1]));
            } else if i == pos {
                assert(pos < s.len());
                assert(entry_le(e@, s[pos as int]));
                if j > pos + 1 {
                    assert(entry_le(s[pos as int], s[j - 1]));
                    lemma_entry_le_transitive(e@, s[pos as int], s[j - 1]);
                }
            } else {
                assert(entry_le(s[i - 1], s[j - 1]));
            }
        }
    }
}

/// Sorts entries into the canonical order; the result is the
/// library-defined sort of the input's views.
pub fn sort_entries(entries: Vec<TreeEntry>) -> (r: Vec<TreeEntry>)
    ensures
        models(r@) == models(entries@).sort_by(entry_le_fn()),
{
    broadcast use vstd::seq_lib::group_to_multiset_ensures;
    broadcast use vstd::multiset::group_multiset_axioms;

    let mut rest = entries;
    let mut out: Vec<TreeEntry> = Vec::new();
    proof {
        assert(models(out@) =~= Seq::<EntryModel>::empty());
        assert(models(out@).to_multiset().add(models(rest@).to_multiset()) =~= models(
            rest@,
        ).to_multiset());
    }
    while rest.len() > 0
        invariant
            sorted_by(models(out@), entry_le_fn()),
            models(out@).to_multiset().add(models(rest@).to_multiset()) == models(
                entries@,
            ).to_multiset(),
        decreases rest.len(),
    {
        let ghost rest_before = models(rest@);
        let ghost out_before = models(out@);
        let e = rest.pop().unwrap();
        proof {
            assert(rest_before =~= models(rest@).push(e@));
            vstd::seq_lib::to_multiset_build(models(rest@), e@);
        }
        insert_sorted(&mut out, e);
        proof {
            assert(models(out@).to_multiset().add(models(rest@).to_multiset()) =~= out_before
                .to_multiset().add(rest_before.to_multiset()));
        }
    }
    proof {
        assert(models(rest@) =~= Seq::<EntryModel>::empty());
        assert(models(out@).to_multiset() =~= models(entries@).to_multiset());
        lemma_entry_le_total_ordering();
        models(entries@).lemma_sort_by_ensures(entry_le_fn());
        lemma_sorted_unique(
            models(out@),
            models(entries@).sort_by(entry_le_fn()),
            entry_le_fn(),
        );
    }
    out
}

/// The encoding of one entry: `"<mode> <name>\0"` followed by the 20 raw
/// digest bytes.
pub open spec fn entry_bytes(e: EntryModel) -> Seq<u8> {
    e.mode + seq![32u8] + e.name + seq![0u8] + e.digest
}

/// A tree object's payload: the concatenated encodings of its entries, in
/// the order given.
pub open spec fn tree_payload_spec(entries: Seq<EntryModel>) -> Seq<u8>
    decreases entries.len(),
{
    if entries.len() == 0 {
        Seq::empty()
    } else {
        entry_bytes(entries[0]) + tree_payload_spec(entries.skip(1))
    }
}

/// Encoding one more entry appends its bytes.
pub proof fn lemma_tree_payload_push(entries: Seq<EntryModel>, e: EntryModel)
    ensures
        tree_payload_spec(entries.push(e)) == tree_payload_spec(entries) + entry_bytes(e),
    decreases entries.len(),
{
    if entries.len() == 0 {
        assert(entries.push(e)[0] == e);
        assert(entries.push(e).skip(1) =~= Seq::<EntryModel>::empty());
        assert(tree_payload_spec(entries.push(e)) == entry_bytes(e) + tree_payload_spec(
            entries.push(e).skip(1),
        ));
        assert(tree_payload_spec(entries.push(e).skip(1)) == Seq::<u8>::empty());
        assert(tree_payload_spec(entries) == Seq::<u8>::empty());
        assert(entry_bytes(e) + Seq::<u8>::empty() =~= Seq::<u8>::empty() + entry_bytes(e));
    } else {
        lemma_tree_payload_push(entries.skip(1), e);
        assert(entries.push(e).skip(1) =~= entries.skip(1).push(e));
        assert(entries.push(e)[0] == entries[0]);
        assert(tree_payload_spec(entries.push(e)) == entry_bytes(entries[0]) + tree_payload_spec(
            entries.skip(1).push(e),
        ));
        assert(tree_payload_spec(entries) == entry_bytes(entries[0]) + tree_payload_spec(
            entries.skip(1),
        ));
        assert(entry_bytes(entries[0]) + (tree_payload_spec(entries.skip(1)) + entry_bytes(e))
            =~= (entry_bytes(entries[0]) + tree_payload_spec(entries.skip(1))) + entry_bytes(e));
    }
}

/// What parsing a tree payload yields: its entries, or the most specific
/// error. Each entry's header runs to a NUL and splits on the first space;
/// exactly 20 digest bytes must follow.
pub open spec fn parse_tree_spec(data: Seq<u8>) -> Result<Seq<EntryModel>, GitError>
    decreases data.len(),
{
    if data.len() == 0 {
        Ok(Seq::empty())
    } else {
        match crate::bytes::find_byte(data, 0) {
            None => Err(GitError::MalformedHeader),
            Some(n) => match crate::bytes::find_byte(data.take(n as int), 32) {
                None => Err(GitError::MalformedHeader),
                Some(sp) => {
                    if data.len() < n + 21 {
                        Err(GitError::TruncatedEntry)
                    } else {
                        let e = EntryModel {
                            mode: data.subrange(0, sp as int),
                            name: data.subrange(sp as int + 1, n as int),
                            digest: data.subrange(n as int + 1, n as int + 21),
                        };
                        match parse_tree_spec(data.skip(n as int + 21)) {
                            Ok(rest) => Ok(seq![e] + rest),
                            Err(err) => Err(err),
                        }
                    }
                },
            },
        }
    }
}

/// The names of a run of entries, joined by a newline, no trailing newline.
pub open spec fn names_listing(entries: Seq<EntryModel>) -> Seq<u8>
    decreases entries.len(),
{
    if entries.len() == 0 {
        Seq::empty()
    } else if entries.len() == 1 {
        entries[0].name
    } else {
        entries[0].name + seq![10u8] + names_listing(entries.skip(1))
    }
}

/// Listing one more entry appends a newline and its name, save for the
/// first.
pub proof fn lemma_names_listing_push(entries: Seq<EntryModel>, e: EntryModel)
    ensures
        names_listing(entries.push(e)) == if entries.len() == 0 {
            e.name
        } else {
            names_listing(entries) + seq![10u8] + e.name
        },
    decreases entries.len(),
{
    if entries.len() == 0 {
        assert(entries.push(e)[0] == e);
        assert(names_listing(entries.push(e)) =~= e.name);
    } else if entries.len() == 1 {
        assert(entries.push(e)[0] == entries[0]);
        assert(entries.push(e).skip(1) =~= Seq::<EntryModel>::empty().push(e));
        assert(names_listing(entries.push(e)) == entries[0].name + seq![10u8] + names_listing(
            entries.push(e).skip(1),
        ));
        assert(entries.push(e).skip(1)[0] == e);
        assert(names_listing(entries.push(e).skip(1)) == e.name);
        assert(names_listing(entries) == entries[0].name);
    } else {
        lemma_names_listing_push(entries.skip(1), e);
        assert(entries.push(e).skip(1) =~= entries.skip(1).push(e));
        assert(entries.push(e)[0] == entries[0]);
        assert(names_listing(entries.push(e)) == entries[0].name + seq![10u8] + names_listing(
            entries.skip(1).push(e),
        ));
        assert(names_listing(entries) == entries[0].name + seq![10u8] + names_listing(
            entries.skip(1),
        ));
        assert(entries[0].name + seq![10u8] + (names_listing(entries.skip(1)) + seq![10u8]
            + e.name) =~= (entries[0].name + seq![10u8] + names_listing(entries.skip(1)))
            + seq![10u8] + e.name);
    }
}

/// Appends `data[from..to]` to `out`.
pub(crate) fn append_range(out: &mut Vec<u8>, data: &[u8], from: usize, to: usize)
    requires
        from <= to <= data@.len(),
    ensures
        final(out)@ == old(out)@ + data@.subrange(from as int, to as int),
{
    let mut k = from;
    proof {
        assert(out@ =~= out@ + data@.subrange(from as int, from as int));
    }
    while k < to
        invariant
            from <= k <= to <= data@.len(),
            out@ == old(out)@ + data@.subrange(from as int, k as int),
        decreases to - k,
    {
        out.push(data[k]);
        proof {
            assert(old(out)@ + data@.subrange(from as int, k + 1) =~= (old(out)@ + data@.subrange(
                from as int,
                k as int,
            )).push(data@[k as int]));
        }
        k += 1;
    }
    proof {
        assert(out@ =~= old(out)@ + data@.subrange(from as int, to as int));
    }
}

/// Parses a tree payload and lists its entry names, one per line.
pub fn read_tree_object(data: &Vec<u8>) -> (r: Result<Vec<u8>, GitError>)
    ensures
        match parse_tree_spec(data@) {
            Ok(es) => r matches Ok(v) && v@ == names_listing(es),
            Err(e) => r matches Err(e2) && e2 == e,
        },
{
    let len = data.len();
    let mut out: Vec<u8> = Vec::new();
    let mut pos: usize = 0;
    let ghost mut acc: Seq<EntryModel> = Seq::empty();
    let mut first = true;
    proof {
        assert(data@.skip(0) =~= data@);
    }
    while pos < len
        invariant
            pos <= len,
            len == data@.len(),
            first <==> acc.len() == 0,
            out@ == names_listing(acc),
            match parse_tree_spec(data@.skip(pos as int)) {
                Ok(rest) => parse_tree_spec(data@) == Ok::<Seq<EntryModel>, GitError>(acc + rest),
                Err(e) => parse_tree_spec(data@) == Err::<Seq<EntryModel>, GitError>(e),
            },
        decreases len - pos,
    {
        let ghost win = data@.skip(pos as int);
        let n_abs = match crate::bytes::find_byte_in(data.as_slice(), pos, len, 0) {
            Some(n) => n,
            None => {
                proof {
                    assert(win =~= data@.subrange(pos as int, len as int));
                }
                return Err(GitError::MalformedHeader);
            },
        };
        proof {
            assert(win =~= data@.subrange(pos as int, len as int));
        }
        let sp_abs = match crate::bytes::find_byte_in(data.as_slice(), pos, n_abs, 32) {
            Some(sp) => sp,
            None => {
                proof {
                    assert(win.take(n_abs - pos) =~= data@.subrange(pos as int, n_abs as int));
                }
                return Err(GitError::MalformedHeader);
            },
        };
        proof {
            assert(win.take(n_abs - pos) =~= data@.subrange(pos as int, n_abs as int));
        }
        if len - n_abs - 1 < 20 {
            return Err(GitError::TruncatedEntry);
        }
        let ghost e = EntryModel {
            mode: win.subrange(0, sp_abs - pos),
            name: win.subrange(sp_abs - pos + 1, n_abs - pos),
            digest: win.subrange(n_abs - pos + 1, n_abs - pos + 21),
        };
        if !first {
            out.push(10);
        }
        append_range(&mut out, data.as_slice(), sp_abs + 1, n_abs);
        proof {
            assert(e.name =~= data@.subrange(sp_abs as int + 1, n_abs as int));
            lemma_names_listing_push(acc, e);
            if acc.len() == 0 {
                assert(out@ =~= names_listing(acc.push(e)));
            } else {
                assert(out@ =~= names_listing(acc) + seq![10u8] + e.name);
                assert(out@ =~= names_listing(acc.push(e)));
            }
            assert(win.skip(n_abs - pos + 21) =~= data@.skip(n_abs as int + 21));
            match parse_tree_spec(data@.skip(n_abs as int + 21)) {
                Ok(rest) => {
                    assert(parse_tree_spec(win) == Ok::<Seq<EntryModel>, GitError>(
                        seq![e] + rest,
                    ));
                    assert(acc + (seq![e] + rest) =~= acc.push(e) + rest);
                },
                Err(err) => {},
            }
            acc = acc.push(e);
        }
        first = false;
        pos = n_abs + 21;
    }
    proof {
        assert(data@.skip(pos as int) =~= Seq::<u8>::empty());
        assert(parse_tree_spec(data@.skip(pos as int)) == Ok::<Seq<EntryModel>, GitError>(
            Seq::empty(),
        ));
        match parse_tree_spec(data@) {
            Ok(es) => {
                assert(acc + Seq::<EntryModel>::empty() =~= acc);
            },
            Err(e) => {},
        }
    }
    Ok(out)
}

/// Parsing inverts the tree payload encoding: a payload built from
/// well-formed entries parses back to exactly those entries.
pub proof fn lemma_parse_tree_encode(es: Seq<EntryModel>)
    requires
        forall|i: int| 0 <= i < es.len() ==> entry_wf(#[trigger] es[i]),
    ensures
        parse_tree_spec(tree_payload_spec(es)) == Ok::<Seq<EntryModel>, GitError>(es),
    decreases es.len(),
{
    if es.len() == 0 {
        assert(es =~= Seq::<EntryModel>::empty());
        assert(tree_payload_spec(es).len() == 0);
    } else {
        let e = es[0];
        assert(entry_wf(es[0]));
        let data = tree_payload_spec(es);
        let eb = entry_bytes(e);
        let rest = tree_payload_spec(es.skip(1));
        assert(data == eb + rest);
        let m = e.mode.len() as int;
        let nm = e.name.len() as int;
        let n = m + 1 + nm;
        assert(eb.len() == n + 1 + 20);
        assert forall|j: int| 0 <= j < n implies data[j] != 0 by {
            if j < m {
                assert(data[j] == e.mode[j]);
            } else if j == m {
                assert(data[j] == 32);
            } else {
                assert(data[j] == e.name[j - m - 1]);
            }
        }
        assert(data[n] == 0);
        crate::bytes::lemma_find_byte_at(data, 0, n);
        let header = data.take(n);
        assert forall|j: int| 0 <= j < m implies header[j] != 32 by {
            assert(header[j] == data[j]);
            assert(data[j] == e.mode[j]);
        }
        assert(header[m] == 32);
        crate::bytes::lemma_find_byte_at(header, 32, m);
        assert(data.len() >= n + 21);
        assert(data.subrange(0, m) =~= e.mode);
        assert(data.subrange(m + 1, n) =~= e.name);
        assert(data.subrange(n + 1, n + 21) =~= e.digest);
        let pe = EntryModel {
            mode: data.subrange(0, m),
            name: data.subrange(m + 1, n),
            digest: data.subrange(n + 1, n + 21),
        };
        assert(pe =~= e);
        assert(data.skip(n + 21) =~= rest);
        assert forall|i: int| 0 <= i < es.skip(1).len() implies entry_wf(
            #[trigger] es.skip(1)[i],
        ) by {
            assert(es.skip(1)[i] == es[i + 1]);
            assert(entry_wf(es[i + 1]));
        }
        lemma_parse_tree_encode(es.skip(1));
        assert(seq![pe] + es.skip(1) =~= es);
    }
}

/// A usable mode token: non-empty, without NUL or space.
pub open spec fn mode_ok(m: Seq<u8>) -> bool {
    m.len() > 0 && forall|i: int| 0 <= i < m.len() ==> #[trigger] m[i] != 0 && m[i] != 32
}

/// A usable entry name: without NUL or forward slash.
pub open spec fn name_ok(n: Seq<u8>) -> bool {
    forall|i: int| 0 <= i < n.len() ==> #[trigger] n[i] != 0 && n[i] != 47
}

/// A usable child digest: 40 lowercase hex characters.
pub open spec fn digest_hex_ok(s: Seq<char>) -> bool {
    s.len() == 40 && forall|i: int| 0 <= i < s.len() ==> is_hex_char(#[trigger] s[i])
}

impl TreeEntry {
    /// Builds a well-formed entry from a mode token, a name, and the
    /// child's digest in lowercase hex; rejects a mode or name that the
    /// encoding could not round-trip, and a digest that is not 40 lowercase
    /// hex characters.
    pub fn new(mode: Vec<u8>, name: Vec<u8>, digest_hex: &str) -> (r: Result<TreeEntry, GitError>)
        ensures
            match r {
                Ok(e) => {
                    &&& mode_ok(mode@)
                    &&& name_ok(name@)
                    &&& digest_hex_ok(digest_hex@)
                    &&& e@.mode == mode@
                    &&& e@.name == name@
                    &&& hex_lower_of(e@.digest) == digest_hex@
                    &&& entry_wf(e@)
                },
                Err(err) => {
                    &&& !(mode_ok(mode@) && name_ok(name@) && digest_hex_ok(digest_hex@))
                    &&& err == if !(mode_ok(mode@) && name_ok(name@)) {
                        GitError::MalformedHeader
                    } else {
                        GitError::InvalidDigest
                    }
                },
            },
    {
        if mode.len() == 0 {
            return Err(GitError::MalformedHeader);
        }
        let mode_len = mode.len();
        let mut i: usize = 0;
        while i < mode_len
            invariant
                i <= mode_len,
                mode_len == mode@.len(),
                forall|j: int| 0 <= j < i ==> #[trigger] mode@[j] != 0 && mode@[j] != 32,
            decreases mode_len - i,
        {
            if mode[i] == 0 || mode[i] == 32 {
                return Err(GitError::MalformedHeader);
            }
            i += 1;
        }
        let name_len = name.len();
        let mut k: usize = 0;
        while k < name_len
            invariant
                k <= name_len,
                name_len == name@.len(),
                forall|j: int| 0 <= j < k ==> #[trigger] name@[j] != 0 && name@[j] != 47,
            decreases name_len - k,
        {
            if name[k] == 0 || name[k] == 47 {
                return Err(GitError::MalformedHeader);
            }
            k += 1;
        }
        if digest_hex.unicode_len() != 40 || !check_digest(digest_hex) {
            return Err(GitError::InvalidDigest);
        }
        let digest = hex_decode(digest_hex);
        proof {
            lemma_hex_lower_len(digest@);
        }
        Ok(TreeEntry { mode, name, digest })
    }
}

/// Sorts the entries into the canonical order and encodes them as a tree
/// object's payload.
pub fn encode_tree(entries: Vec<TreeEntry>) -> (r: Vec<u8>)
    ensures
        r@ == tree_payload_spec(models(entries@).sort_by(entry_le_fn())),
{
    let sorted = sort_entries(entries);
    let len = sorted.len();
    let mut out: Vec<u8> = Vec::new();
    let mut i: usize = 0;
    proof {
        assert(models(sorted@).take(0) =~= Seq::<EntryModel>::empty());
    }
    while i < len
        invariant
            i <= len,
            len == sorted@.len(),
            out@ == tree_payload_spec(models(sorted@).take(i as int)),
        decreases len - i,
    {
        let ghost before = out@;
        let e = &sorted[i];
        append_range(&mut out, e.mode.as_slice(), 0, e.mode.len());
        out.push(32);
        append_range(&mut out, e.name.as_slice(), 0, e.name.len());
        out.push(0);
        append_range(&mut out, e.digest.as_slice(), 0, e.digest.len());
        proof {
            assert(e.mode@.subrange(0, e.mode@.len() as int) =~= e.mode@);
            assert(e.name@.subrange(0, e.name@.len() as int) =~= e.name@);
            assert(e.digest@.subrange(0, e.digest@.len() as int) =~= e.digest@);
            lemma_tree_payload_push(models(sorted@).take(i as int), e@);
            assert(models(sorted@).take(i as int).push(e@) =~= models(sorted@).take(i + 1));
            assert(out@ =~= before + entry_bytes(e@));
        }
        i += 1;
    }
    proof {
        assert(models(sorted@).take(len as int) =~= models(sorted@));
    }
    out
}

/// Two runs of entries that hold the same entries, in whatever orders,
/// sort to the same run: a directory's tree object does not depend on the
/// order in which the directory was enumerated.
pub proof fn lemma_sort_order_independent(m1: Seq<EntryModel>, m2: Seq<EntryModel>)
    requires
        m1.to_multiset() == m2.to_multiset(),
    ensures
        m1.sort_by(entry_le_fn()) == m2.sort_by(entry_le_fn()),
{
    lemma_entry_le_total_ordering();
    m1.lemma_sort_by_ensures(entry_le_fn());
    m2.lemma_sort_by_ensures(entry_le_fn());
    lemma_sorted_unique(m1.sort_by(entry_le_fn()), m2.sort_by(entry_le_fn()), entry_le_fn());
}

} // verus!
