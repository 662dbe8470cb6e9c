//! The revision graph: building and linking immutable commits. Creating a
//! revision stores each staged file's content, builds the snapshot binding
//! paths to content digests, and stores the serialized commit — content
//! first, commit second, so no stored commit ever references missing bytes.
use crate::commit::{
    commit_ok, dec_commit, enc_commit, Commit, CommitMetadata, CommitView, EntryView, MetaView,
    SnapshotEntry,
};
use crate::commit::{lemma_commit_round_trip, serialize_commit};
use crate::digest::{sha1_hex, sha1_hex_of};
use crate::object_store::{store_spec, ObjectStore};
use crate::ref_store::{head_of, RefStore};
use crate::RepoError;
use vstd::prelude::*;

verus! {

/// One staged file handed in by the index collaborator: a path and the raw
/// content found there.
pub struct StagedFile {
    pub path: String,
    pub data: Vec<u8>,
}

/// The mathematical value of a staged file.
#[verifier::ext_equal]
pub struct StagedView {
    pub path: Seq<char>,
    pub data: Seq<u8>,
}

impl View for StagedFile {
    type V = StagedView;

    open spec fn view(&self) -> StagedView {
        StagedView { path: self.path@, data: self.data@ }
    }
}

/// The store contents after storing every staged file's content, in order.
pub open spec fn store_many(m: Map<Seq<char>, Seq<u8>>, files: Seq<StagedView>) -> Map<
    Seq<char>,
    Seq<u8>,
>
    decreases files.len(),
{
    if files.len() == 0 {
        m
    } else {
        store_spec(store_many(m, files.drop_last()), files.last().data)
    }
}

/// The snapshot recorded by a revision: each staged path bound to the digest
/// of its content.
pub open spec fn snapshot_of(files: Seq<StagedView>) -> Seq<EntryView> {
    files.map_values(|f: StagedView| EntryView { path: f.path, hash: sha1_hex_of(f.data) })
}

/// The commit that `create_revision` builds: the given metadata with its
/// parent replaced by the current `HEAD`, over the snapshot of the staged
/// files.
pub open spec fn revision_commit(
    meta: MetaView,
    head: Option<Seq<char>>,
    files: Seq<StagedView>,
) -> CommitView {
    CommitView {
        metadata: MetaView {
            author: meta.author,
            message: meta.message,
            timestamp: meta.timestamp,
            parent: head,
        },
        snapshot: snapshot_of(files),
    }
}

/// Storing keeps every key already present.
pub proof fn lemma_store_spec_preserves(m: Map<Seq<char>, Seq<u8>>, d: Seq<u8>, k: Seq<char>)
    requires
        m.contains_key(k),
    ensures
        store_spec(m, d).contains_key(k),
{
}

/// Storing a sequence of files keeps every key already present.
pub proof fn lemma_store_many_preserves(
    m: Map<Seq<char>, Seq<u8>>,
    files: Seq<StagedView>,
    k: Seq<char>,
)
    requires
        m.contains_key(k),
    ensures
        store_many(m, files).contains_key(k),
    decreases files.len(),
{
    if files.len() > 0 {
        lemma_store_many_preserves(m, files.drop_last(), k);
    }
}

/// After storing a sequence of files, the digest of each one's content is a
/// key of the store.
pub proof fn lemma_store_many_contains(m: Map<Seq<char>, Seq<u8>>, files: Seq<StagedView>, i: int)
    requires
        0 <= i < files.len(),
    ensures
        store_many(m, files).contains_key(sha1_hex_of(files[i].data)),
    decreases files.len(),
{
    if i == files.len() - 1 {
        assert(files.last() == files[i]);
    } else {
        lemma_store_many_contains(m, files.drop_last(), i);
    }
}

/// Creates a revision: stores each staged file's content, builds the
/// snapshot, serializes the commit (its parent is the current `HEAD`) and
/// stores it, returning the commit's digest. Fails with
/// `SerializationFailure`, changing nothing, exactly when a field or the
/// snapshot is too large for the encoding's length prefixes.
pub fn create_revision(
    objects: &mut ObjectStore,
    refs: &RefStore,
    metadata: &CommitMetadata,
    staged: &Vec<StagedFile>,
) -> (r: Result<crate::Hash, RepoError>)
    requires
        old(objects).wf(),
    ensures
        final(objects).wf(),
        ({
            let cv = revision_commit(
                metadata@,
                head_of(refs@),
                staged@.map_values(|f: StagedFile| f@),
            );
            match r {
                Ok(h) => commit_ok(cv) && h@ == sha1_hex_of(enc_commit(cv)) && final(objects)@
                    == store_spec(
                    store_many(old(objects)@, staged@.map_values(|f: StagedFile| f@)),
                    enc_commit(cv),
                ),
                Err(e) => e == RepoError::SerializationFailure && !commit_ok(cv) && final(objects)@
                    == old(objects)@,
            }
        }),
{
    let ghost files = staged@.map_values(|f: StagedFile| f@);
    let n = staged.len();
    let mut entries: Vec<SnapshotEntry> = Vec::new();
    let mut i: usize = 0;
    while i < n
        invariant
            n == staged.len(),
            i <= n,
            entries@.len() == i,
            forall|j: int|
                0 <= j < i ==> #[trigger] entries@[j]@ == snapshot_of(
                    staged@.map_values(|f: StagedFile| f@),
                )[j],
        decreases n - i,
    {
        let h = sha1_hex(&staged[i].data);
        let entry = SnapshotEntry { path: staged[i].path.clone(), hash: h };
        proof {
            let fs = staged@.map_values(|f: StagedFile| f@);
            assert(fs[i as int] == staged@[i as int]@);
            assert(entry@ =~= snapshot_of(fs)[i as int]);
        }
        entries.push(entry);
        i += 1;
    }
    proof {
        assert forall|j: int| #![trigger entries@[j]] 0 <= j < n implies entries@.map_values(
            |e: SnapshotEntry| e@,
        )[j] == snapshot_of(files)[j] by {
            assert(entries@[j]@ == snapshot_of(files)[j]);
        }
        assert(entries@.map_values(|e: SnapshotEntry| e@) =~~= snapshot_of(files));
    }
    let parent = refs.get_head();
    let meta = CommitMetadata {
        author: metadata.author.clone(),
        message: metadata.message.clone(),
        timestamp: metadata.timestamp.clone(),
        parent,
    };
    let commit = Commit { metadata: meta, snapshot: entries };
    proof {
        assert(commit@ =~~= revision_commit(metadata@, head_of(refs@), files));
    }
    let bytes = match serialize_commit(&commit) {
        Ok(b) => b,
        Err(_) => {
            return Err(RepoError::SerializationFailure);
        },
    };
    let mut j: usize = 0;
    while j < n
        invariant
            n == staged.len(),
            j <= n,
            objects.wf(),
            objects@ =~= store_many(
                old(objects)@,
                staged@.map_values(|f: StagedFile| f@).subrange(0, j as int),
            ),
        decreases n - j,
    {
        objects.store_object(&staged[j].data);
        proof {
            let fs = staged@.map_values(|f: StagedFile| f@);
            let done = fs.subrange(0, j + 1);
            assert(done.drop_last() =~= fs.subrange(0, j as int));
            assert(done.last() == fs[j as int]);
            assert(objects@ =~= store_many(old(objects)@, done));
        }
        j += 1;
    }
    proof {
        assert(files.subrange(0, n as int) =~= files);
    }
    let h = objects.store_object(&bytes);
    Ok(h)
}

/// Referential integrity of a created revision: its commit object is
/// retrievable, decodes back to the commit that was built, and every content
/// digest in its snapshot is itself a key of the store. The first premise
/// rules out a digest collision with a previously stored object.
pub proof fn lemma_revision_integrity(
    m: Map<Seq<char>, Seq<u8>>,
    head: Option<Seq<char>>,
    meta: MetaView,
    files: Seq<StagedView>,
)
    requires
        ({
            let cv = revision_commit(meta, head, files);
            &&& commit_ok(cv)
            &&& (store_many(m, files).contains_key(sha1_hex_of(enc_commit(cv))) ==> store_many(
                m,
                files,
            )[sha1_hex_of(enc_commit(cv))] == enc_commit(cv))
        }),
    ensures
        ({
            let cv = revision_commit(meta, head, files);
            let fin = store_spec(store_many(m, files), enc_commit(cv));
            let h = sha1_hex_of(enc_commit(cv));
            &&& fin.contains_key(h)
            &&& fin[h] == enc_commit(cv)
            &&& dec_commit(fin[h]) == Some(cv)
            &&& forall|i: int|
                0 <= i < cv.snapshot.len() ==> fin.contains_key(#[trigger] cv.snapshot[i].hash)
        }),
{
    let cv = revision_commit(meta, head, files);
    let mid = store_many(m, files);
    let fin = store_spec(mid, enc_commit(cv));
    lemma_commit_round_trip(cv);
    assert forall|i: int| 0 <= i < cv.snapshot.len() implies fin.contains_key(
        #[trigger] cv.snapshot[i].hash,
    ) by {
        assert(cv.snapshot[i].hash == sha1_hex_of(files[i].data));
        lemma_store_many_contains(m, files, i);
        lemma_store_spec_preserves(mid, enc_commit(cv), sha1_hex_of(files[i].data));
    }
}

} // verus!
