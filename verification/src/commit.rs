//! Commits and their serialized form. A commit is the metadata of one
//! revision together with a snapshot: the (path, content-hash) pairs staged
//! at that point in history. Commits are stored as byte objects; the encoding
//! here is length-prefixed and proved to round-trip exactly.
use crate::RepoError;
use vstd::bytes::{
    lemma_auto_spec_u32_to_from_le_bytes, spec_u32_from_le_bytes, spec_u32_to_le_bytes,
    u32_from_le_bytes, u32_to_le_bytes,
};
use vstd::prelude::*;
use vstd::slice::{slice_subrange, slice_to_vec};
use vstd::string::StrSliceExecFns;
use vstd::utf8::{
    decode_utf8, encode_scalar, encode_utf8, encode_utf8_decode_utf8, encode_utf8_valid_utf8,
    valid_utf8,
};

verus! {

/// Provenance of one revision: who made it, why, when, and on top of which
/// earlier revision (absent for the root commit).
pub struct CommitMetadata {
    pub author: String,
    pub message: String,
    pub timestamp: String,
    pub parent: Option<crate::Hash>,
}

/// The mathematical value of a `CommitMetadata`.
#[verifier::ext_equal]
pub struct MetaView {
    pub author: Seq<char>,
    pub message: Seq<char>,
    pub timestamp: Seq<char>,
    pub parent: Option<Seq<char>>,
}

impl View for CommitMetadata {
    type V = MetaView;

    open spec fn view(&self) -> MetaView {
        MetaView {
            author: self.author@,
            message: self.message@,
            timestamp: self.timestamp@,
            parent: match self.parent {
                Some(h) => Some(h@),
                None => None,
            },
        }
    }
}

/// One staged file of a snapshot: its path and the digest of its content.
pub struct SnapshotEntry {
    pub path: String,
    pub hash: crate::Hash,
}

/// The mathematical value of a `SnapshotEntry`.
#[verifier::ext_equal]
pub struct EntryView {
    pub path: Seq<char>,
    pub hash: Seq<char>,
}

impl View for SnapshotEntry {
    type V = EntryView;

    open spec fn view(&self) -> EntryView {
        EntryView { path: self.path@, hash: self.hash@ }
    }
}

/// A commit: metadata plus the snapshot it records.
pub struct Commit {
    pub metadata: CommitMetadata,
    pub snapshot: Vec<SnapshotEntry>,
}

/// The mathematical value of a `Commit`.
#[verifier::ext_equal]
pub struct CommitView {
    pub metadata: MetaView,
    pub snapshot: Seq<EntryView>,
}

impl View for Commit {
    type V = CommitView;

    open spec fn view(&self) -> CommitView {
        CommitView {
            metadata: self.metadata@,
            snapshot: self.snapshot@.map_values(|e: SnapshotEntry| e@),
        }
    }
}

// ---------------------------------------------------------------------------
// The encoding: each string is its UTF-8 bytes prefixed by their count as
// four little-endian bytes; an optional string is a one-byte tag (0 absent,
// 1 present); a commit is metadata, then the entry count, then the entries.
// ---------------------------------------------------------------------------

/// The UTF-8 encoding of a string takes at most four bytes per character.
pub proof fn lemma_encode_utf8_len(s: Seq<char>)
    ensures
        encode_utf8(s).len() <= 4 * s.len(),
    decreases s.len(),
{
    if s.len() > 0 {
        lemma_encode_utf8_len(s.drop_first());
        assert(encode_scalar(s[0] as u32).len() <= 4);
    }
}

/// A string short enough for its length prefix.
pub open spec fn str_ok(s: Seq<char>) -> bool {
    encode_utf8(s).len() <= u32::MAX
}

/// The encoding of one string.
pub open spec fn enc_str(s: Seq<char>) -> Seq<u8> {
    spec_u32_to_le_bytes(encode_utf8(s).len() as u32) + encode_utf8(s)
}

/// The encoding of an optional string.
pub open spec fn enc_opt_str(p: Option<Seq<char>>) -> Seq<u8> {
    match p {
        Some(h) => seq![1u8] + enc_str(h),
        None => seq![0u8],
    }
}

pub open spec fn opt_str_ok(p: Option<Seq<char>>) -> bool {
    match p {
        Some(h) => str_ok(h),
        None => true,
    }
}

/// The encoding of commit metadata.
pub open spec fn enc_meta(m: MetaView) -> Seq<u8> {
    enc_str(m.author) + enc_str(m.message) + enc_str(m.timestamp) + enc_opt_str(m.parent)
}

pub open spec fn meta_ok(m: MetaView) -> bool {
    str_ok(m.author) && str_ok(m.message) && str_ok(m.timestamp) && opt_str_ok(m.parent)
}

/// The encoding of one snapshot entry.
pub open spec fn enc_entry(e: EntryView) -> Seq<u8> {
    enc_str(e.path) + enc_str(e.hash)
}

pub open spec fn entry_ok(e: EntryView) -> bool {
    str_ok(e.path) && str_ok(e.hash)
}

/// The encoding of a snapshot, entry by entry.
pub open spec fn enc_entries(es: Seq<EntryView>) -> Seq<u8>
    decreases es.len(),
{
    if es.len() == 0 {
        Seq::empty()
    } else {
        enc_entries(es.drop_last()) + enc_entry(es.last())
    }
}

/// The encoding of a whole commit.
pub open spec fn enc_commit(c: CommitView) -> Seq<u8> {
    enc_meta(c.metadata) + spec_u32_to_le_bytes(c.snapshot.len() as u32) + enc_entries(c.snapshot)
}

pub open spec fn commit_ok(c: CommitView) -> bool {
    &&& meta_ok(c.metadata)
    &&& c.snapshot.len() <= u32::MAX
    &&& forall|i: int| 0 <= i < c.snapshot.len() ==> entry_ok(#[trigger] c.snapshot[i])
}

// ---------------------------------------------------------------------------
// The decoding, as spec functions over the bytes with a read position.
// ---------------------------------------------------------------------------

pub open spec fn rd_u32(b: Seq<u8>, p: int) -> Option<(u32, int)> {
    if 0 <= p && p + 4 <= b.len() {
        Some((spec_u32_from_le_bytes(b.subrange(p, p + 4)), p + 4))
    } else {
        None
    }
}

pub open spec fn rd_str(b: Seq<u8>, p: int) -> Option<(Seq<char>, int)> {
    match rd_u32(b, p) {
        Some((n, p1)) => {
            if p1 + n <= b.len() && valid_utf8(b.subrange(p1, p1 + n)) {
                Some((decode_utf8(b.subrange(p1, p1 + n)), p1 + n))
            } else {
                None
            }
        },
        None => None,
    }
}

pub open spec fn rd_opt_str(b: Seq<u8>, p: int) -> Option<(Option<Seq<char>>, int)> {
    if 0 <= p && p < b.len() {
        if b[p] == 0u8 {
            Some((None, p + 1))
        } else if b[p] == 1u8 {
            match rd_str(b, p + 1) {
                Some((s, p1)) => Some((Some(s), p1)),
                None => None,
            }
        } else {
            None
        }
    } else {
        None
    }
}

pub open spec fn rd_meta(b: Seq<u8>, p: int) -> Option<(MetaView, int)> {
    match rd_str(b, p) {
        Some((author, p1)) => match rd_str(b, p1) {
            Some((message, p2)) => match rd_str(b, p2) {
                Some((timestamp, p3)) => match rd_opt_str(b, p3) {
                    Some((parent, p4)) => Some(
                        (MetaView { author, message, timestamp, parent }, p4),
                    ),
                    None => None,
                },
                None => None,
            },
            None => None,
        },
        None => None,
    }
}

pub open spec fn rd_entry(b: Seq<u8>, p: int) -> Option<(EntryView, int)> {
    match rd_str(b, p) {
        Some((path, p1)) => match rd_str(b, p1) {
            Some((hash, p2)) => Some((EntryView { path, hash }, p2)),
            None => None,
        },
        None => None,
    }
}

pub open spec fn rd_entries(b: Seq<u8>, p: int, n: nat) -> Option<(Seq<EntryView>, int)>
    decreases n,
{
    if n == 0 {
        Some((Seq::empty(), p))
    } else {
        match rd_entries(b, p, (n - 1) as nat) {
            Some((es, p1)) => match rd_entry(b, p1) {
                Some((e, p2)) => Some((es.push(e), p2)),
                None => None,
            },
            None => None,
        }
    }
}

/// What metadata a byte sequence decodes to, if any: the fields must parse
/// and the bytes must hold nothing further.
pub open spec fn dec_meta(b: Seq<u8>) -> Option<MetaView> {
    match rd_meta(b, 0) {
        Some((m, p)) => if p == b.len() {
            Some(m)
        } else {
            None
        },
        None => None,
    }
}

/// What commit a byte sequence decodes to, if any.
pub open spec fn dec_commit(b: Seq<u8>) -> Option<CommitView> {
    match rd_meta(b, 0) {
        Some((m, p)) => match rd_u32(b, p) {
            Some((n, p1)) => match rd_entries(b, p1, n as nat) {
                Some((es, p2)) => if p2 == b.len() {
                    Some(CommitView { metadata: m, snapshot: es })
                } else {
                    None
                },
                None => None,
            },
            None => None,
        },
        None => None,
    }
}

// ---------------------------------------------------------------------------
// Round trip: decoding an encoding yields exactly what was encoded.
// ---------------------------------------------------------------------------

proof fn lemma_rd_u32_at(b: Seq<u8>, p: int, x: u32)
    requires
        0 <= p,
        p + 4 <= b.len(),
        b.subrange(p, p + 4) == spec_u32_to_le_bytes(x),
    ensures
        rd_u32(b, p) == Some((x, p + 4)),
{
    lemma_auto_spec_u32_to_from_le_bytes();
    assert(spec_u32_to_le_bytes(x).len() == 4);
    assert(spec_u32_from_le_bytes(spec_u32_to_le_bytes(x)) == x);
}

proof fn lemma_rd_str_at(b: Seq<u8>, p: int, s: Seq<char>)
    requires
        str_ok(s),
        0 <= p,
        p + enc_str(s).len() <= b.len(),
        b.subrange(p, p + enc_str(s).len()) == enc_str(s),
    ensures
        rd_str(b, p) == Some((s, p + enc_str(s).len())),
{
    let eb = encode_utf8(s);
    let lb = spec_u32_to_le_bytes(eb.len() as u32);
    lemma_auto_spec_u32_to_from_le_bytes();
    let whole = b.subrange(p, p + enc_str(s).len());
    assert(b.subrange(p, p + 4) =~= lb) by {
        assert forall|j: int| 0 <= j < 4 implies b.subrange(p, p + 4)[j] == lb[j] by {
            assert(whole[j] == lb[j]);
        }
    }
    lemma_rd_u32_at(b, p, eb.len() as u32);
    assert(b.subrange(p + 4, p + 4 + eb.len()) =~= eb) by {
        assert forall|j: int| 0 <= j < eb.len() implies b.subrange(p + 4, p + 4 + eb.len())[j]
            == eb[j] by {
            assert(whole[j + 4] == eb[j]);
        }
    }
    encode_utf8_valid_utf8(s);
    encode_utf8_decode_utf8(s);
}

proof fn lemma_rd_opt_str_at(b: Seq<u8>, p: int, o: Option<Seq<char>>)
    requires
        opt_str_ok(o),
        0 <= p,
        p + enc_opt_str(o).len() <= b.len(),
        b.subrange(p, p + enc_opt_str(o).len()) == enc_opt_str(o),
    ensures
        rd_opt_str(b, p) == Some((o, p + enc_opt_str(o).len())),
{
    let whole = b.subrange(p, p + enc_opt_str(o).len());
    match o {
        None => {
            assert(b[p] == whole[0]);
        },
        Some(s) => {
            assert(b[p] == whole[0]);
            assert(b.subrange(p + 1, p + 1 + enc_str(s).len()) =~= enc_str(s)) by {
                assert forall|j: int|
                    0 <= j < enc_str(s).len() implies b.subrange(
                    p + 1,
                    p + 1 + enc_str(s).len(),
                )[j] == enc_str(s)[j] by {
                    assert(whole[j + 1] == enc_str(s)[j]);
                }
            }
            lemma_rd_str_at(b, p + 1, s);
        },
    }
}

/// A part of a larger piece that is laid down inside `b` is itself laid down
/// inside `b`: restrict the known subrange equality to a sub-interval.
proof fn lemma_sub_piece(b: Seq<u8>, p: int, whole: Seq<u8>, lo: int, hi: int)
    requires
        0 <= p,
        p + whole.len() <= b.len(),
        b.subrange(p, p + whole.len()) == whole,
        0 <= lo <= hi <= whole.len(),
    ensures
        b.subrange(p + lo, p + hi) == whole.subrange(lo, hi),
{
    assert(b.subrange(p + lo, p + hi) =~= whole.subrange(lo, hi)) by {
        assert forall|j: int| 0 <= j < hi - lo implies b.subrange(p + lo, p + hi)[j]
            == whole.subrange(lo, hi)[j] by {
            assert(b.subrange(p, p + whole.len())[lo + j] == whole[lo + j]);
        }
    }
}

proof fn lemma_rd_meta_at(b: Seq<u8>, p: int, m: MetaView)
    requires
        meta_ok(m),
        0 <= p,
        p + enc_meta(m).len() <= b.len(),
        b.subrange(p, p + enc_meta(m).len()) == enc_meta(m),
    ensures
        rd_meta(b, p) == Some((m, p + enc_meta(m).len())),
{
    let whole = enc_meta(m);
    let l1 = enc_str(m.author).len() as int;
    let l2 = enc_str(m.message).len() as int;
    let l3 = enc_str(m.timestamp).len() as int;
    let l4 = enc_opt_str(m.parent).len() as int;
    assert(whole.subrange(0, l1) =~= enc_str(m.author));
    assert(whole.subrange(l1, l1 + l2) =~= enc_str(m.message));
    assert(whole.subrange(l1 + l2, l1 + l2 + l3) =~= enc_str(m.timestamp));
    assert(whole.subrange(l1 + l2 + l3, l1 + l2 + l3 + l4) =~= enc_opt_str(m.parent));
    lemma_sub_piece(b, p, whole, 0, l1);
    lemma_sub_piece(b, p, whole, l1, l1 + l2);
    lemma_sub_piece(b, p, whole, l1 + l2, l1 + l2 + l3);
    lemma_sub_piece(b, p, whole, l1 + l2 + l3, l1 + l2 + l3 + l4);
    lemma_rd_str_at(b, p, m.author);
    lemma_rd_str_at(b, p + l1, m.message);
    lemma_rd_str_at(b, p + l1 + l2, m.timestamp);
    lemma_rd_opt_str_at(b, p + l1 + l2 + l3, m.parent);
}

proof fn lemma_rd_entry_at(b: Seq<u8>, p: int, e: EntryView)
    requires
        entry_ok(e),
        0 <= p,
        p + enc_entry(e).len() <= b.len(),
        b.subrange(p, p + enc_entry(e).len()) == enc_entry(e),
    ensures
        rd_entry(b, p) == Some((e, p + enc_entry(e).len())),
{
    let whole = enc_entry(e);
    let l1 = enc_str(e.path).len() as int;
    let l2 = enc_str(e.hash).len() as int;
    assert(whole.subrange(0, l1) =~= enc_str(e.path));
    assert(whole.subrange(l1, l1 + l2) =~= enc_str(e.hash));
    lemma_sub_piece(b, p, whole, 0, l1);
    lemma_sub_piece(b, p, whole, l1, l1 + l2);
    lemma_rd_str_at(b, p, e.path);
    lemma_rd_str_at(b, p + l1, e.hash);
}

proof fn lemma_rd_entries_at(b: Seq<u8>, p: int, es: Seq<EntryView>)
    requires
        forall|i: int| 0 <= i < es.len() ==> entry_ok(#[trigger] es[i]),
        0 <= p,
        p + enc_entries(es).len() <= b.len(),
        b.subrange(p, p + enc_entries(es).len()) == enc_entries(es),
    ensures
        rd_entries(b, p, es.len()) == Some((es, p + enc_entries(es).len())),
    decreases es.len(),
{
    if es.len() == 0 {
        assert(rd_entries(b, p, 0) == Some((Seq::<EntryView>::empty(), p)));
        assert(es =~= Seq::<EntryView>::empty());
    } else {
        let init = es.drop_last();
        let last = es.last();
        let whole = enc_entries(es);
        let l1 = enc_entries(init).len() as int;
        let l2 = enc_entry(last).len() as int;
        assert(whole == enc_entries(init) + enc_entry(last));
        assert(whole.subrange(0, l1) =~= enc_entries(init));
        assert(whole.subrange(l1, l1 + l2) =~= enc_entry(last));
        lemma_sub_piece(b, p, whole, 0, l1);
        lemma_sub_piece(b, p, whole, l1, l1 + l2);
        assert(forall|i: int| 0 <= i < init.len() ==> entry_ok(#[trigger] init[i])) by {
            assert(forall|i: int| 0 <= i < init.len() ==> init[i] == es[i]);
        }
        lemma_rd_entries_at(b, p, init);
        assert(entry_ok(es[es.len() - 1]));
        lemma_rd_entry_at(b, p + l1, last);
        assert(init.push(last) =~= es);
    }
}

/// Round trip for metadata: decoding an encoding yields what was encoded.
pub proof fn lemma_meta_round_trip(m: MetaView)
    requires
        meta_ok(m),
    ensures
        dec_meta(enc_meta(m)) == Some(m),
{
    let b = enc_meta(m);
    assert(b.subrange(0, b.len() as int) =~= b);
    lemma_rd_meta_at(b, 0, m);
}

/// Round trip for commits: decoding an encoding yields what was encoded.
pub proof fn lemma_commit_round_trip(c: CommitView)
    requires
        commit_ok(c),
    ensures
        dec_commit(enc_commit(c)) == Some(c),
{
    let b = enc_commit(c);
    let lm = enc_meta(c.metadata).len() as int;
    let lc = spec_u32_to_le_bytes(c.snapshot.len() as u32).len() as int;
    let le = enc_entries(c.snapshot).len() as int;
    lemma_auto_spec_u32_to_from_le_bytes();
    assert(b.subrange(0, b.len() as int) =~= b);
    lemma_sub_piece(b, 0, b, 0, lm);
    assert(b.subrange(0, lm) =~= enc_meta(c.metadata));
    lemma_rd_meta_at(b, 0, c.metadata);
    lemma_sub_piece(b, 0, b, lm, lm + lc);
    assert(b.subrange(lm, lm + lc) =~= spec_u32_to_le_bytes(c.snapshot.len() as u32));
    lemma_rd_u32_at(b, lm, c.snapshot.len() as u32);
    lemma_sub_piece(b, 0, b, lm + lc, lm + lc + le);
    assert(b.subrange(lm + lc, lm + lc + le) =~= enc_entries(c.snapshot));
    lemma_rd_entries_at(b, lm + lc, c.snapshot);
}

/// Once some prefix count of entries fails to parse, every larger count
/// fails too.
proof fn lemma_rd_entries_none(b: Seq<u8>, p: int, m: nat, n: nat)
    requires
        m <= n,
        rd_entries(b, p, m) is None,
    ensures
        rd_entries(b, p, n) is None,
    decreases n - m,
{
    if n > m {
        lemma_rd_entries_none(b, p, m, (n - 1) as nat);
    }
}

// ---------------------------------------------------------------------------
// Executable encoding and decoding.
// ---------------------------------------------------------------------------

/// The number of bytes of the UTF-8 encoding of `s`.
fn utf8_length(s: &String) -> (n: usize)
    ensures
        n == encode_utf8(s@).len(),
{
    s.as_str().as_bytes_vec().len()
}

/// Relies on `String::from_utf8`: returns the string whose UTF-8 encoding is
/// `bytes` exactly when `bytes` is valid UTF-8, and nothing otherwise.
#[verifier::external_body]
fn string_from_utf8(bytes: Vec<u8>) -> (r: Option<String>)
    ensures
        r is Some <==> valid_utf8(bytes@),
        r is Some ==> r.unwrap()@ == decode_utf8(bytes@),
{
    match String::from_utf8(bytes) {
        Ok(s) => Some(s),
        Err(_) => None,
    }
}

/// Appends the encoding of `s` to `out`; fails (leaving `out` as it was)
/// exactly when `s` is too long for its length prefix.
fn append_str(out: &mut Vec<u8>, s: &String) -> (ok: bool)
    ensures
        ok <==> str_ok(s@),
        ok ==> final(out)@ == old(out)@ + enc_str(s@),
        !ok ==> final(out)@ == old(out)@,
{
    let bytes = s.as_str().as_bytes_vec();
    if bytes.len() as u64 <= u32::MAX as u64 {
        let mut prefix = u32_to_le_bytes(bytes.len() as u32);
        out.append(&mut prefix);
        let mut body = bytes;
        out.append(&mut body);
        proof {
            assert(final(out)@ =~= old(out)@ + enc_str(s@));
        }
        true
    } else {
        false
    }
}

/// Encodes commit metadata; fails with `SerializationFailure` exactly when a
/// field is too long for its length prefix.
pub fn serialize_metadata(m: &CommitMetadata) -> (r: Result<Vec<u8>, RepoError>)
    ensures
        r is Ok <==> meta_ok(m@),
        r is Ok ==> r.unwrap()@ == enc_meta(m@),
        r is Err ==> r == Err::<Vec<u8>, RepoError>(RepoError::SerializationFailure),
{
    let mut out: Vec<u8> = Vec::new();
    if !append_str(&mut out, &m.author) {
        return Err(RepoError::SerializationFailure);
    }
    if !append_str(&mut out, &m.message) {
        return Err(RepoError::SerializationFailure);
    }
    if !append_str(&mut out, &m.timestamp) {
        return Err(RepoError::SerializationFailure);
    }
    match &m.parent {
        None => {
            out.push(0u8);
            proof {
                assert(out@ =~= enc_meta(m@));
            }
            Ok(out)
        },
        Some(h) => {
            out.push(1u8);
            if !append_str(&mut out, h) {
                return Err(RepoError::SerializationFailure);
            }
            proof {
                assert(out@ =~= enc_meta(m@));
            }
            Ok(out)
        },
    }
}

/// Encodes a commit; fails with `SerializationFailure` exactly when a field
/// or the snapshot is too large for its length prefix.
pub fn serialize_commit(c: &Commit) -> (r: Result<Vec<u8>, RepoError>)
    ensures
        r is Ok <==> commit_ok(c@),
        r is Ok ==> r.unwrap()@ == enc_commit(c@),
        r is Err ==> r == Err::<Vec<u8>, RepoError>(RepoError::SerializationFailure),
{
    let mut out: Vec<u8> = match serialize_metadata(&c.metadata) {
        Ok(v) => v,
        Err(_) => {
            return Err(RepoError::SerializationFailure);
        },
    };
    if c.snapshot.len() as u64 > u32::MAX as u64 {
        return Err(RepoError::SerializationFailure);
    }
    let mut prefix = u32_to_le_bytes(c.snapshot.len() as u32);
    out.append(&mut prefix);
    let ghost head = out@;
    let n = c.snapshot.len();
    let mut i: usize = 0;
    while i < n
        invariant
            n == c.snapshot.len(),
            i <= n,
            forall|j: int| 0 <= j < i ==> entry_ok(#[trigger] c@.snapshot[j]),
            out@ == head + enc_entries(c@.snapshot.subrange(0, i as int)),
        decreases n - i,
    {
        let ghost done = c@.snapshot.subrange(0, i as int);
        let entry = &c.snapshot[i];
        proof {
            assert(c@.snapshot[i as int] == c.snapshot@[i as int]@);
        }
        if !append_str(&mut out, &entry.path) {
            proof {
                assert(!entry_ok(c@.snapshot[i as int]));
            }
            return Err(RepoError::SerializationFailure);
        }
        if !append_str(&mut out, &entry.hash) {
            proof {
                assert(!entry_ok(c@.snapshot[i as int]));
            }
            return Err(RepoError::SerializationFailure);
        }
        proof {
            let done2 = c@.snapshot.subrange(0, i + 1);
            assert(done2.drop_last() =~= done);
            assert(done2.last() == c@.snapshot[i as int]);
            assert(enc_entries(done2) == enc_entries(done) + enc_entry(c@.snapshot[i as int]));
            assert(out@ =~= head + enc_entries(done2));
        }
        i += 1;
    }
    proof {
        assert(c@.snapshot.subrange(0, n as int) =~= c@.snapshot);
        assert(out@ =~= enc_commit(c@));
    }
    Ok(out)
}

fn read_u32_at(b: &Vec<u8>, p: usize) -> (r: Option<(u32, usize)>)
    ensures
        match r {
            Some(pair) => rd_u32(b@, p as int) == Some((pair.0, pair.1 as int)),
            None => rd_u32(b@, p as int) is None,
        },
{
    if b.len() >= 4 && p <= b.len() - 4 {
        let sl = slice_subrange(b.as_slice(), p, p + 4);
        let x = u32_from_le_bytes(sl);
        Some((x, p + 4))
    } else {
        None
    }
}

fn read_str_at(b: &Vec<u8>, p: usize) -> (r: Option<(String, usize)>)
    ensures
        match r {
            Some(pair) => rd_str(b@, p as int) == Some((pair.0@, pair.1 as int)),
            None => rd_str(b@, p as int) is None,
        },
{
    match read_u32_at(b, p) {
        None => None,
        Some((n, p1)) => {
            let nn = n as usize;
            if nn <= b.len() && p1 <= b.len() - nn {
                let sl = slice_subrange(b.as_slice(), p1, p1 + nn);
                let bytes = slice_to_vec(sl);
                match string_from_utf8(bytes) {
                    Some(s) => Some((s, p1 + nn)),
                    None => None,
                }
            } else {
                None
            }
        },
    }
}

fn read_opt_str_at(b: &Vec<u8>, p: usize) -> (r: Option<(Option<String>, usize)>)
    ensures
        match r {
            Some(pair) => rd_opt_str(b@, p as int) == Some(
                (
                    match pair.0 {
                        Some(s) => Some(s@),
                        None => None,
                    },
                    pair.1 as int,
                ),
            ),
            None => rd_opt_str(b@, p as int) is None,
        },
{
    if p < b.len() {
        let tag = b[p];
        if tag == 0u8 {
            Some((None, p + 1))
        } else if tag == 1u8 {
            match read_str_at(b, p + 1) {
                Some((s, p1)) => Some((Some(s), p1)),
                None => None,
            }
        } else {
            None
        }
    } else {
        None
    }
}

fn read_meta_at(b: &Vec<u8>, p: usize) -> (r: Option<(CommitMetadata, usize)>)
    ensures
        match r {
            Some(pair) => rd_meta(b@, p as int) == Some((pair.0@, pair.1 as int)),
            None => rd_meta(b@, p as int) is None,
        },
{
    let (author, p1) = match read_str_at(b, p) {
        Some(x) => x,
        None => {
            return None;
        },
    };
    let (message, p2) = match read_str_at(b, p1) {
        Some(x) => x,
        None => {
            return None;
        },
    };
    let (timestamp, p3) = match read_str_at(b, p2) {
        Some(x) => x,
        None => {
            return None;
        },
    };
    let (parent, p4) = match read_opt_str_at(b, p3) {
        Some(x) => x,
        None => {
            return None;
        },
    };
    Some((CommitMetadata { author, message, timestamp, parent }, p4))
}

/// Decodes commit metadata; fails with `SerializationFailure` exactly when
/// the bytes are not the encoding of any metadata.
pub fn deserialize_metadata(data: &Vec<u8>) -> (r: Result<CommitMetadata, RepoError>)
    ensures
        match dec_meta(data@) {
            Some(mv) => r is Ok && r.unwrap()@ == mv,
            None => r == Err::<CommitMetadata, RepoError>(RepoError::SerializationFailure),
        },
{
    match read_meta_at(data, 0) {
        Some((m, p)) => {
            if p == data.len() {
                Ok(m)
            } else {
                Err(RepoError::SerializationFailure)
            }
        },
        None => Err(RepoError::SerializationFailure),
    }
}

/// Decodes a commit; fails with `SerializationFailure` exactly when the
/// bytes are not the encoding of any commit.
pub fn deserialize_commit(data: &Vec<u8>) -> (r: Result<Commit, RepoError>)
    ensures
        match dec_commit(data@) {
            Some(cv) => r is Ok && r.unwrap()@ == cv,
            None => r == Err::<Commit, RepoError>(RepoError::SerializationFailure),
        },
{
    let (metadata, p) = match read_meta_at(data, 0) {
        Some(x) => x,
        None => {
            return Err(RepoError::SerializationFailure);
        },
    };
    let (count, p1) = match read_u32_at(data, p) {
        Some(x) => x,
        None => {
            return Err(RepoError::SerializationFailure);
        },
    };
    let mut snapshot: Vec<SnapshotEntry> = Vec::new();
    let mut pos = p1;
    let mut i: u32 = 0;
    while i < count
        invariant
            i <= count,
            rd_meta(data@, 0) == Some((metadata@, p as int)),
            rd_u32(data@, p as int) == Some((count, p1 as int)),
            rd_entries(data@, p1 as int, i as nat) == Some(
                (snapshot@.map_values(|e: SnapshotEntry| e@), pos as int),
            ),
            pos <= data.len(),
        decreases count - i,
    {
        let ghost done = snapshot@.map_values(|e: SnapshotEntry| e@);
        let (path, q1) = match read_str_at(data, pos) {
            Some(x) => x,
            None => {
                proof {
                    assert(rd_entries(data@, p1 as int, (i + 1) as nat) is None);
                    lemma_rd_entries_none(data@, p1 as int, (i + 1) as nat, count as nat);
                }
                return Err(RepoError::SerializationFailure);
            },
        };
        let (hash, q2) = match read_str_at(data, q1) {
            Some(x) => x,
            None => {
                proof {
                    assert(rd_entries(data@, p1 as int, (i + 1) as nat) is None);
                    lemma_rd_entries_none(data@, p1 as int, (i + 1) as nat, count as nat);
                }
                return Err(RepoError::SerializationFailure);
            },
        };
        snapshot.push(SnapshotEntry { path, hash });
        pos = q2;
        proof {
            assert(snapshot@.map_values(|e: SnapshotEntry| e@) =~= done.push(
                EntryView { path: path@, hash: hash@ },
            ));
            assert(rd_entries(data@, p1 as int, (i + 1) as nat) == Some(
                (snapshot@.map_values(|e: SnapshotEntry| e@), pos as int),
            ));
        }
        i += 1;
    }
    if pos == data.len() {
        let c = Commit { metadata, snapshot };
        proof {
            assert(c@.snapshot == snapshot@.map_values(|e: SnapshotEntry| e@));
        }
        Ok(c)
    } else {
        Err(RepoError::SerializationFailure)
    }
}

} // verus!
