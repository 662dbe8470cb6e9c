//! Repository lifecycle: init, clone, push and pull over a host of
//! repositories, each a content-addressed object store, a reference store
//! and a configuration. Synchronization is a set-difference transfer:
//! objects and refs present in the source and absent in the destination are
//! copied, nothing is overwritten, and finally the destination's `HEAD` is
//! moved.
use crate::clock::current_timestamp;
use crate::commit::{commit_ok, enc_commit, lemma_encode_utf8_len, CommitMetadata, CommitView, MetaView};
use crate::digest::sha1_hex_of;
use crate::object_store::{store_spec, ObjectStore};
use crate::ref_store::{head_key, head_of, RefInfo, RefStore, RefType};
use crate::revision::{
    create_revision, lemma_store_many_contains, lemma_store_many_preserves,
    lemma_store_spec_preserves, revision_commit, snapshot_of, store_many, StagedFile, StagedView,
};
use vstd::utf8::encode_utf8;
use crate::RepoError;
use vstd::hash_map::StringHashMap;
use vstd::prelude::*;

verus! {

/// Repository-level identity, written once at init time.
pub struct RepositoryConfig {
    pub name: String,
    pub default_branch: String,
}

/// The mathematical value of a configuration.
#[verifier::ext_equal]
pub struct ConfigView {
    pub name: Seq<char>,
    pub default_branch: Seq<char>,
}

impl View for RepositoryConfig {
    type V = ConfigView;

    open spec fn view(&self) -> ConfigView {
        ConfigView { name: self.name@, default_branch: self.default_branch@ }
    }
}

/// One repository: its configuration, object store and reference store.
pub struct Repository {
    pub config: RepositoryConfig,
    pub objects: ObjectStore,
    pub refs: RefStore,
}

/// The mathematical value of a repository.
#[verifier::ext_equal]
pub struct RepoView {
    pub config: ConfigView,
    pub objects: Map<Seq<char>, Seq<u8>>,
    pub refs: Map<Seq<char>, RefInfo>,
}

impl View for Repository {
    type V = RepoView;

    open spec fn view(&self) -> RepoView {
        RepoView { config: self.config@, objects: self.objects@, refs: self.refs@ }
    }
}

impl Repository {
    /// Both stores are well-formed.
    pub open spec fn wf(&self) -> bool {
        self.objects.wf() && self.refs.wf()
    }
}

/// The repositories reachable from this process, one per path. Threading an
/// explicit host through every operation lets several repositories live side
/// by side and keeps each operation's effect on all of them in its contract.
pub struct RepoHost {
    repos: StringHashMap<Repository>,
}

impl View for RepoHost {
    type V = Map<Seq<char>, RepoView>;

    closed spec fn view(&self) -> Map<Seq<char>, RepoView> {
        Map::new(|k: Seq<char>| self.repos@.contains_key(k), |k: Seq<char>| self.repos@[k]@)
    }
}

impl RepoHost {
    /// Every repository of the host is well-formed.
    pub closed spec fn wf(&self) -> bool {
        forall|k: Seq<char>|
            self.repos@.contains_key(k) ==> (#[trigger] self.repos@[k]).wf()
    }

    /// A host with no repositories.
    pub fn new() -> (r: RepoHost)
        ensures
            r.wf(),
            r@ == Map::<Seq<char>, RepoView>::empty(),
    {
        let r = RepoHost { repos: StringHashMap::new() };
        proof {
            assert(r@ =~= Map::<Seq<char>, RepoView>::empty());
        }
        r
    }

    /// True if a repository exists at `path`.
    pub fn contains(&self, path: &String) -> (r: bool)
        ensures
            r == self@.contains_key(path@),
    {
        self.repos.contains_key(path.as_str())
    }

    /// The repository at `path`, if one exists there.
    pub fn get<'a>(&'a self, path: &String) -> (r: Option<&'a Repository>)
        requires
            self.wf(),
        ensures
            match r {
                Some(rep) => self@.contains_key(path@) && rep@ == self@[path@] && rep.wf(),
                None => !self@.contains_key(path@),
            },
    {
        self.repos.get(path.as_str())
    }
}

// ---------------------------------------------------------------------------
// The lifecycle transitions, as spec functions over the host's value.
// ---------------------------------------------------------------------------

/// The commit that `init_repo` creates: an empty snapshot authored by the
/// system identity at the given time, with no parent.
pub open spec fn initial_commit_view(ts: Seq<char>) -> CommitView {
    revision_commit(
        MetaView { author: "System"@, message: "Initial commit"@, timestamp: ts, parent: None },
        None,
        Seq::empty(),
    )
}

/// The initial commit fits the encoding whenever its timestamp's UTF-8
/// encoding fits a length prefix.
pub proof fn lemma_initial_commit_ok(ts: Seq<char>)
    requires
        encode_utf8(ts).len() <= u32::MAX,
    ensures
        commit_ok(initial_commit_view(ts)),
{
    reveal_strlit("System");
    reveal_strlit("Initial commit");
    lemma_encode_utf8_len("System"@);
    lemma_encode_utf8_len("Initial commit"@);
    assert(snapshot_of(Seq::<StagedView>::empty()) =~= Seq::<crate::commit::EntryView>::empty());
}

/// The repository that `init_repo` creates: one commit object, the default
/// branch and `HEAD` both pointing at it.
pub open spec fn initial_repo_view(name: Seq<char>, branch: Seq<char>, ts: Seq<char>) -> RepoView {
    let bytes = enc_commit(initial_commit_view(ts));
    let h = sha1_hex_of(bytes);
    RepoView {
        config: ConfigView { name, default_branch: branch },
        objects: Map::<Seq<char>, Seq<u8>>::empty().insert(h, bytes),
        refs: Map::<Seq<char>, RefInfo>::empty().insert(
            branch,
            RefInfo { ref_type: RefType::Branch, commit_hash: Some(h) },
        ).insert(head_key(), RefInfo { ref_type: RefType::Head, commit_hash: Some(h) }),
    }
}

/// The destination repository after a synchronization from `src`: objects
/// and refs absent from the destination are copied (present ones stay as
/// they are), and the destination's `HEAD` is moved to the source's head.
pub open spec fn sync_repo(dst: RepoView, src: RepoView, src_head: Seq<char>) -> RepoView {
    RepoView {
        config: dst.config,
        objects: src.objects.union_prefer_right(dst.objects),
        refs: src.refs.union_prefer_right(dst.refs).insert(
            head_key(),
            RefInfo { ref_type: RefType::Head, commit_hash: Some(src_head) },
        ),
    }
}

/// What `pull_repo` does to the host and returns: `InvalidRemote` if the
/// remote is absent or its `HEAD` is unbound, `NotFound` if the local
/// repository is absent, a no-op when the heads already match, and otherwise
/// a set-difference transfer into the local repository.
pub open spec fn pull_spec(m: Map<Seq<char>, RepoView>, rp: Seq<char>, lp: Seq<char>) -> (
    Map<Seq<char>, RepoView>,
    Result<(), RepoError>,
) {
    if !m.contains_key(rp) {
        (m, Err(RepoError::InvalidRemote))
    } else {
        match head_of(m[rp].refs) {
            None => (m, Err(RepoError::InvalidRemote)),
            Some(rh) => {
                if !m.contains_key(lp) {
                    (m, Err(RepoError::NotFound))
                } else if head_of(m[lp].refs) == Some(rh) {
                    (m, Ok(()))
                } else {
                    (m.insert(lp, sync_repo(m[lp], m[rp], rh)), Ok(()))
                }
            },
        }
    }
}

/// What `push_repo` does to the host and returns: `InvalidRemote` if the
/// remote is absent, `NotFound` if the local repository is absent or its
/// `HEAD` is unbound, a no-op when the heads already match, and otherwise a
/// set-difference transfer into the remote repository.
pub open spec fn push_spec(m: Map<Seq<char>, RepoView>, lp: Seq<char>, rp: Seq<char>) -> (
    Map<Seq<char>, RepoView>,
    Result<(), RepoError>,
) {
    if !m.contains_key(rp) {
        (m, Err(RepoError::InvalidRemote))
    } else if !m.contains_key(lp) {
        (m, Err(RepoError::NotFound))
    } else {
        match head_of(m[lp].refs) {
            None => (m, Err(RepoError::NotFound)),
            Some(lh) => {
                if head_of(m[rp].refs) == Some(lh) {
                    (m, Ok(()))
                } else {
                    (m.insert(rp, sync_repo(m[rp], m[lp], lh)), Ok(()))
                }
            },
        }
    }
}

/// What `commit` does to the host and returns: `NotFound` if no repository
/// sits at `p`; otherwise the staged contents and the commit built from
/// `meta` (its parent the current `HEAD`) are stored, `HEAD` is moved to the
/// new commit, and its digest is returned; `SerializationFailure`, changing
/// nothing, exactly when the commit does not fit the encoding.
pub open spec fn commit_spec(
    m: Map<Seq<char>, RepoView>,
    p: Seq<char>,
    meta: MetaView,
    files: Seq<crate::revision::StagedView>,
) -> (Map<Seq<char>, RepoView>, Result<Seq<char>, RepoError>) {
    if !m.contains_key(p) {
        (m, Err(RepoError::NotFound))
    } else {
        let cv = revision_commit(meta, head_of(m[p].refs), files);
        if commit_ok(cv) {
            let h = sha1_hex_of(enc_commit(cv));
            (
                m.insert(
                    p,
                    RepoView {
                        config: m[p].config,
                        objects: crate::object_store::store_spec(
                            crate::revision::store_many(m[p].objects, files),
                            enc_commit(cv),
                        ),
                        refs: m[p].refs.insert(
                            head_key(),
                            RefInfo { ref_type: RefType::Head, commit_hash: Some(h) },
                        ),
                    },
                ),
                Ok(h),
            )
        } else {
            (m, Err(RepoError::SerializationFailure))
        }
    }
}

/// What `clone_repo` does to the host and returns: `InvalidRemote` if the
/// remote is absent or its `HEAD` is unbound, `AlreadyExists` if the local
/// path is taken, and otherwise a full copy with the local `HEAD` set to the
/// remote's head.
pub open spec fn clone_spec(m: Map<Seq<char>, RepoView>, rp: Seq<char>, lp: Seq<char>) -> (
    Map<Seq<char>, RepoView>,
    Result<(), RepoError>,
) {
    if !m.contains_key(rp) {
        (m, Err(RepoError::InvalidRemote))
    } else if m.contains_key(lp) {
        (m, Err(RepoError::AlreadyExists))
    } else {
        match head_of(m[rp].refs) {
            None => (m, Err(RepoError::InvalidRemote)),
            Some(rh) => (
                m.insert(
                    lp,
                    RepoView {
                        config: m[rp].config,
                        objects: m[rp].objects,
                        refs: m[rp].refs.insert(
                            head_key(),
                            RefInfo { ref_type: RefType::Head, commit_hash: Some(rh) },
                        ),
                    },
                ),
                Ok(()),
            ),
        }
    }
}

impl RepositoryConfig {
    /// Succeeds exactly when an initialized repository sits at `path`;
    /// otherwise `InvalidRemote`.
    pub fn validate_remote_repo(host: &RepoHost, path: &String) -> (r: Result<(), RepoError>)
        ensures
            r is Ok <==> host@.contains_key(path@),
            r is Err ==> r == Err::<(), RepoError>(RepoError::InvalidRemote),
    {
        if host.contains(path) {
            Ok(())
        } else {
            Err(RepoError::InvalidRemote)
        }
    }

    /// Copies every ref of `remote` into `local`, replacing bindings of the
    /// same name and keeping the rest.
    pub fn copy_refs(remote: &RefStore, local: &mut RefStore)
        requires
            old(local).wf(),
            remote.wf(),
        ensures
            final(local).wf(),
            final(local)@ == old(local)@.union_prefer_right(remote@),
    {
        let mut merged = remote.duplicate();
        merged.merge_missing(local);
        *local = merged;
    }

    /// Copies every object of `src` that `dest` lacks into `dest`; objects
    /// already present are left untouched (the set-difference transfer).
    pub fn copy_new_or_updated_files(src: &ObjectStore, dest: &mut ObjectStore)
        requires
            old(dest).wf(),
            src.wf(),
        ensures
            final(dest).wf(),
            final(dest)@ == src@.union_prefer_right(old(dest)@),
    {
        dest.merge_missing(src);
    }

    /// Initializes a repository at `path` with the given identity and
    /// timestamp: one initial commit with an empty snapshot, the default
    /// branch and `HEAD` pointing at it. Fails with `AlreadyExists`,
    /// changing nothing, exactly when `path` is taken, and with
    /// `SerializationFailure`, changing nothing, exactly when the initial
    /// commit's fields do not fit the encoding.
    pub fn init_repo_with_timestamp(
        host: &mut RepoHost,
        name: String,
        path: String,
        default_branch: String,
        timestamp: String,
    ) -> (r: Result<RepositoryConfig, RepoError>)
        requires
            old(host).wf(),
        ensures
            final(host).wf(),
            r is Ok <==> !old(host)@.contains_key(path@) && commit_ok(
                initial_commit_view(timestamp@),
            ),
            r is Ok ==> final(host)@ == old(host)@.insert(
                path@,
                initial_repo_view(name@, default_branch@, timestamp@),
            ) && r.unwrap()@ == (ConfigView { name: name@, default_branch: default_branch@ }),
            r == Err::<RepositoryConfig, RepoError>(RepoError::AlreadyExists) <==> old(
                host,
            )@.contains_key(path@),
            r is Err ==> final(host)@ == old(host)@ && (r == Err::<RepositoryConfig, RepoError>(
                RepoError::AlreadyExists,
            ) || r == Err::<RepositoryConfig, RepoError>(RepoError::SerializationFailure)),
    {
        if host.repos.contains_key(path.as_str()) {
            return Err(RepoError::AlreadyExists);
        }
        let mut objects = ObjectStore::new();
        let refs0 = RefStore::new();
        let meta = CommitMetadata {
            author: <String as vstd::string::StringExecFns>::from_str("System"),
            message: <String as vstd::string::StringExecFns>::from_str("Initial commit"),
            timestamp,
            parent: None,
        };
        let staged: Vec<StagedFile> = Vec::new();
        proof {
            assert(staged@.map_values(|f: StagedFile| f@) =~= Seq::<
                crate::revision::StagedView,
            >::empty());
            assert(revision_commit(meta@, head_of(refs0@), staged@.map_values(|f: StagedFile| f@))
                =~~= initial_commit_view(meta.timestamp@));
        }
        let h = match create_revision(&mut objects, &refs0, &meta, &staged) {
            Ok(h) => h,
            Err(_) => {
                return Err(RepoError::SerializationFailure);
            },
        };
        let mut refs = refs0;
        match refs.create_ref(RefType::Branch, default_branch.clone(), Some(h.clone())) {
            Ok(_) => (),
            Err(_) => {
                return Err(RepoError::SerializationFailure);
            },
        }
        refs.set_head(&h);
        let config = RepositoryConfig { name: name.clone(), default_branch: default_branch };
        let repo = Repository {
            config: RepositoryConfig {
                name: config.name.clone(),
                default_branch: config.default_branch.clone(),
            },
            objects,
            refs,
        };
        let ghost rv = repo@;
        let ghost pv = path@;
        host.repos.insert(path, repo);
        proof {
            assert(rv =~~= initial_repo_view(name@, config.default_branch@, meta.timestamp@));
            assert(host@ =~= old(host)@.insert(pv, rv));
            assert forall|k: Seq<char>|
                host.repos@.contains_key(k) implies (#[trigger] host.repos@[k]).wf() by {
                if k != pv {
                    assert(old(host).repos@.contains_key(k));
                }
            }
        }
        Ok(config)
    }

    /// Initializes a repository at `path`, timestamping the initial commit
    /// with the current time. Succeeds exactly when `path` is free, and
    /// fails with `AlreadyExists`, changing nothing, exactly when it is
    /// taken.
    pub fn init_repo(
        host: &mut RepoHost,
        name: String,
        path: String,
        default_branch: String,
    ) -> (r: Result<RepositoryConfig, RepoError>)
        requires
            old(host).wf(),
        ensures
            final(host).wf(),
            r is Ok <==> !old(host)@.contains_key(path@),
            r == Err::<RepositoryConfig, RepoError>(RepoError::AlreadyExists) <==> old(
                host,
            )@.contains_key(path@),
            r is Err ==> final(host)@ == old(host)@,
            r is Ok ==> (exists|ts: Seq<char>|
                final(host)@ == old(host)@.insert(
                    path@,
                    #[trigger] initial_repo_view(name@, default_branch@, ts),
                )) && r.unwrap()@ == (ConfigView { name: name@, default_branch: default_branch@ }),
    {
        let timestamp = current_timestamp();
        let ghost ts = timestamp@;
        let ghost pv = path@;
        let ghost nv = name@;
        let ghost bv = default_branch@;
        proof {
            lemma_encode_utf8_len(ts);
            lemma_initial_commit_ok(ts);
        }
        let r = Self::init_repo_with_timestamp(host, name, path, default_branch, timestamp);
        proof {
            if r is Ok {
                assert(host@ == old(host)@.insert(pv, initial_repo_view(nv, bv, ts)));
            }
        }
        r
    }

    /// Stores one file's content as an object of the repository at `path`
    /// and returns its digest; storing is idempotent and never overwrites.
    /// Fails with `NotFound`, changing nothing, exactly when no repository
    /// sits at `path`.
    pub fn store_blob(host: &mut RepoHost, path: &String, data: &Vec<u8>) -> (r: Result<
        crate::Hash,
        RepoError,
    >)
        requires
            old(host).wf(),
        ensures
            final(host).wf(),
            r is Ok <==> old(host)@.contains_key(path@),
            r is Ok ==> r.unwrap()@.len() == 40,
            r is Ok ==> r.unwrap()@ == crate::digest::sha1_hex_of(data@) && final(host)@ == old(
                host,
            )@.insert(
                path@,
                RepoView {
                    config: old(host)@[path@].config,
                    objects: crate::object_store::store_spec(old(host)@[path@].objects, data@),
                    refs: old(host)@[path@].refs,
                },
            ),
            r is Err ==> r == Err::<crate::Hash, RepoError>(RepoError::NotFound) && final(host)@
                == old(host)@,
    {
        if !host.contains(path) {
            return Err(RepoError::NotFound);
        }
        let (mut objects, refs, config) = {
            let repo = host.get(path).unwrap();
            (
                repo.objects.duplicate(),
                repo.refs.duplicate(),
                RepositoryConfig {
                    name: repo.config.name.clone(),
                    default_branch: repo.config.default_branch.clone(),
                },
            )
        };
        let h = objects.store_object(data);
        let repo = Repository { config, objects, refs };
        let ghost rv = repo@;
        let ghost pv = path@;
        host.repos.insert(path.clone(), repo);
        proof {
            assert(host@ =~= old(host)@.insert(pv, rv));
            assert(rv =~~= RepoView {
                config: old(host)@[pv].config,
                objects: crate::object_store::store_spec(old(host)@[pv].objects, data@),
                refs: old(host)@[pv].refs,
            });
            assert(host@ =~~= old(host)@.insert(
                pv,
                RepoView {
                    config: old(host)@[pv].config,
                    objects: crate::object_store::store_spec(old(host)@[pv].objects, data@),
                    refs: old(host)@[pv].refs,
                },
            ));
            assert forall|k: Seq<char>|
                host.repos@.contains_key(k) implies (#[trigger] host.repos@[k]).wf() by {
                if k != pv {
                    assert(old(host).repos@.contains_key(k));
                }
            }
        }
        Ok(h)
    }

    /// Commits a revision in the repository at `path`: stores the staged
    /// contents and the commit (its parent the current `HEAD`), moves `HEAD`
    /// to it, and returns its digest. Fails with `NotFound` if no repository
    /// sits at `path`, and with `SerializationFailure` if the commit does
    /// not fit the encoding; every failure changes nothing.
    pub fn commit(
        host: &mut RepoHost,
        path: &String,
        metadata: &CommitMetadata,
        staged: &Vec<StagedFile>,
    ) -> (r: Result<crate::Hash, RepoError>)
        requires
            old(host).wf(),
        ensures
            final(host).wf(),
            final(host)@ == commit_spec(
                old(host)@,
                path@,
                metadata@,
                staged@.map_values(|f: StagedFile| f@),
            ).0,
            (match r {
                Ok(h) => commit_spec(
                    old(host)@,
                    path@,
                    metadata@,
                    staged@.map_values(|f: StagedFile| f@),
                ).1 == Ok::<Seq<char>, RepoError>(h@),
                Err(e) => commit_spec(
                    old(host)@,
                    path@,
                    metadata@,
                    staged@.map_values(|f: StagedFile| f@),
                ).1 == Err::<Seq<char>, RepoError>(e),
            }),
    {
        if !host.contains(path) {
            return Err(RepoError::NotFound);
        }
        let (mut objects, refs, config) = {
            let repo = host.get(path).unwrap();
            (
                repo.objects.duplicate(),
                repo.refs.duplicate(),
                RepositoryConfig {
                    name: repo.config.name.clone(),
                    default_branch: repo.config.default_branch.clone(),
                },
            )
        };
        let h = match create_revision(&mut objects, &refs, metadata, staged) {
            Ok(h) => h,
            Err(_) => {
                return Err(RepoError::SerializationFailure);
            },
        };
        let mut refs = refs;
        refs.set_head(&h);
        let repo = Repository { config, objects, refs };
        let ghost rv = repo@;
        let ghost pv = path@;
        host.repos.insert(path.clone(), repo);
        proof {
            assert(host@ =~= old(host)@.insert(pv, rv));
            assert(rv =~~= commit_spec(
                old(host)@,
                pv,
                metadata@,
                staged@.map_values(|f: StagedFile| f@),
            ).0[pv]);
            assert(host@ =~~= commit_spec(
                old(host)@,
                pv,
                metadata@,
                staged@.map_values(|f: StagedFile| f@),
            ).0);
            assert forall|k: Seq<char>|
                host.repos@.contains_key(k) implies (#[trigger] host.repos@[k]).wf() by {
                if k != pv {
                    assert(old(host).repos@.contains_key(k));
                }
            }
        }
        Ok(h)
    }

    /// Clones the repository at `remote_path` to `local_path`: a full copy
    /// of objects, refs and configuration, with the local `HEAD` set to the
    /// remote's head. Fails with `InvalidRemote` if the remote is absent or
    /// its `HEAD` is unbound, and with `AlreadyExists` if `local_path` is
    /// taken; every failure changes nothing.
    pub fn clone_repo(host: &mut RepoHost, remote_path: String, local_path: String) -> (r: Result<
        (),
        RepoError,
    >)
        requires
            old(host).wf(),
        ensures
            final(host).wf(),
            final(host)@ == clone_spec(old(host)@, remote_path@, local_path@).0,
            r == clone_spec(old(host)@, remote_path@, local_path@).1,
    {
        if !host.contains(&remote_path) {
            return Err(RepoError::InvalidRemote);
        }
        if host.contains(&local_path) {
            return Err(RepoError::AlreadyExists);
        }
        let repo = {
            let remote = host.get(&remote_path).unwrap();
            let rh = match remote.refs.get_head() {
                Some(h) => h,
                None => {
                    return Err(RepoError::InvalidRemote);
                },
            };
            let objects = remote.objects.duplicate();
            let mut refs = remote.refs.duplicate();
            refs.set_head(&rh);
            Repository {
                config: RepositoryConfig {
                    name: remote.config.name.clone(),
                    default_branch: remote.config.default_branch.clone(),
                },
                objects,
                refs,
            }
        };
        let ghost rv = repo@;
        let ghost lv = local_path@;
        host.repos.insert(local_path, repo);
        proof {
            assert(host@ =~= old(host)@.insert(lv, rv));
            assert(rv =~~= clone_spec(old(host)@, remote_path@, lv).0[lv]);
            assert(host@ =~~= clone_spec(old(host)@, remote_path@, lv).0);
            assert forall|k: Seq<char>|
                host.repos@.contains_key(k) implies (#[trigger] host.repos@[k]).wf() by {
                if k != lv {
                    assert(old(host).repos@.contains_key(k));
                }
            }
        }
        Ok(())
    }

    /// Pulls from the repository at `remote_path` into the one at
    /// `local_path`: objects and refs the local side lacks are copied,
    /// nothing is overwritten, and the local `HEAD` is moved to the remote's
    /// head. A no-op when the heads already match. Fails with
    /// `InvalidRemote` if the remote is absent or its `HEAD` is unbound, and
    /// with `NotFound` if the local repository is absent; every failure
    /// changes nothing.
    pub fn pull_repo(host: &mut RepoHost, remote_path: String, local_path: String) -> (r: Result<
        (),
        RepoError,
    >)
        requires
            old(host).wf(),
        ensures
            final(host).wf(),
            final(host)@ == pull_spec(old(host)@, remote_path@, local_path@).0,
            r == pull_spec(old(host)@, remote_path@, local_path@).1,
    {
        if !host.contains(&remote_path) {
            return Err(RepoError::InvalidRemote);
        }
        let rh = {
            let remote = host.get(&remote_path).unwrap();
            match remote.refs.get_head() {
                Some(h) => h,
                None => {
                    return Err(RepoError::InvalidRemote);
                },
            }
        };
        if !host.contains(&local_path) {
            return Err(RepoError::NotFound);
        }
        let same = {
            let local = host.get(&local_path).unwrap();
            match local.refs.get_head() {
                Some(lh) => lh.eq(&rh),
                None => false,
            }
        };
        if same {
            return Ok(());
        }
        let merged = {
            let remote = host.get(&remote_path).unwrap();
            let local = host.get(&local_path).unwrap();
            let mut objects = local.objects.duplicate();
            objects.merge_missing(&remote.objects);
            let mut refs = local.refs.duplicate();
            refs.merge_missing(&remote.refs);
            refs.set_head(&rh);
            Repository {
                config: RepositoryConfig {
                    name: local.config.name.clone(),
                    default_branch: local.config.default_branch.clone(),
                },
                objects,
                refs,
            }
        };
        let ghost mv = merged@;
        let ghost lv = local_path@;
        host.repos.insert(local_path, merged);
        proof {
            assert(host@ =~= old(host)@.insert(lv, mv));
            assert(mv =~~= sync_repo(old(host)@[lv], old(host)@[remote_path@], rh@));
            assert(host@ =~~= pull_spec(old(host)@, remote_path@, lv).0);
            assert forall|k: Seq<char>|
                host.repos@.contains_key(k) implies (#[trigger] host.repos@[k]).wf() by {
                if k != lv {
                    assert(old(host).repos@.contains_key(k));
                }
            }
        }
        Ok(())
    }

    /// Pushes from the repository at `local_path` into the one at
    /// `remote_path`: objects and refs the remote side lacks are copied,
    /// nothing is overwritten, and the remote `HEAD` is moved to the local
    /// head. A no-op when the heads already match. Fails with
    /// `InvalidRemote` if the remote is absent, and with `NotFound` if the
    /// local repository is absent or its `HEAD` is unbound; every failure
    /// changes nothing.
    pub fn push_repo(host: &mut RepoHost, local_path: String, remote_path: String) -> (r: Result<
        (),
        RepoError,
    >)
        requires
            old(host).wf(),
        ensures
            final(host).wf(),
            final(host)@ == push_spec(old(host)@, local_path@, remote_path@).0,
            r == push_spec(old(host)@, local_path@, remote_path@).1,
    {
        if !host.contains(&remote_path) {
            return Err(RepoError::InvalidRemote);
        }
        if !host.contains(&local_path) {
            return Err(RepoError::NotFound);
        }
        let lh = {
            let local = host.get(&local_path).unwrap();
            match local.refs.get_head() {
                Some(h) => h,
                None => {
                    return Err(RepoError::NotFound);
                },
            }
        };
        let same = {
            let remote = host.get(&remote_path).unwrap();
            match remote.refs.get_head() {
                Some(rh) => rh.eq(&lh),
                None => false,
            }
        };
        if same {
            return Ok(());
        }
        let merged = {
            let local = host.get(&local_path).unwrap();
            let remote = host.get(&remote_path).unwrap();
            let mut objects = remote.objects.duplicate();
            objects.merge_missing(&local.objects);
            let mut refs = remote.refs.duplicate();
            refs.merge_missing(&local.refs);
            refs.set_head(&lh);
            Repository {
                config: RepositoryConfig {
                    name: remote.config.name.clone(),
                    default_branch: remote.config.default_branch.clone(),
                },
                objects,
                refs,
            }
        };
        let ghost mv = merged@;
        let ghost rv = remote_path@;
        host.repos.insert(remote_path, merged);
        proof {
            assert(host@ =~= old(host)@.insert(rv, mv));
            assert(mv =~~= sync_repo(old(host)@[rv], old(host)@[local_path@], lh@));
            assert(host@ =~~= push_spec(old(host)@, local_path@, rv).0);
            assert forall|k: Seq<char>|
                host.repos@.contains_key(k) implies (#[trigger] host.repos@[k]).wf() by {
                if k != rv {
                    assert(old(host).repos@.contains_key(k));
                }
            }
        }
        Ok(())
    }
}

/// Pulling is idempotent: after one successful pull, a second pull with no
/// intervening writes succeeds and changes nothing, because the local and
/// remote heads already match.
pub proof fn lemma_pull_idempotent(m: Map<Seq<char>, RepoView>, rp: Seq<char>, lp: Seq<char>)
    requires
        pull_spec(m, rp, lp).1 is Ok,
    ensures
        pull_spec(pull_spec(m, rp, lp).0, rp, lp) == (
            pull_spec(m, rp, lp).0,
            Ok::<(), RepoError>(()),
        ),
{
    let m2 = pull_spec(m, rp, lp).0;
    match head_of(m[rp].refs) {
        Some(rh) => {
            if head_of(m[lp].refs) == Some(rh) {
                assert(m2 == m);
            } else {
                assert(m2 == m.insert(lp, sync_repo(m[lp], m[rp], rh)));
                assert(lp != rp);
                assert(m2[rp] == m[rp]);
                assert(head_of(m2[lp].refs) == Some(rh));
            }
        },
        None => {
            assert(false);
        },
    }
}

/// Publication of a commit: after committing in the local repository and
/// then pushing to a remote, the remote `HEAD` names the new commit, and
/// the remote object store holds the commit object, the content object of
/// every snapshot entry, and every object the local store held before the
/// commit (in particular the whole parent history). The last premise keeps
/// to the head-moving push; pushing a repository onto itself is the no-op
/// that needs nothing.
pub proof fn lemma_push_publishes_commit(
    m: Map<Seq<char>, RepoView>,
    lp: Seq<char>,
    rp: Seq<char>,
    meta: MetaView,
    files: Seq<StagedView>,
)
    requires
        commit_spec(m, lp, meta, files).1 is Ok,
        push_spec(commit_spec(m, lp, meta, files).0, lp, rp).1 is Ok,
        rp == lp || head_of(commit_spec(m, lp, meta, files).0[rp].refs) != Some(
            sha1_hex_of(enc_commit(revision_commit(meta, head_of(m[lp].refs), files))),
        ),
    ensures
        ({
            let cv = revision_commit(meta, head_of(m[lp].refs), files);
            let h = sha1_hex_of(enc_commit(cv));
            let m3 = push_spec(commit_spec(m, lp, meta, files).0, lp, rp).0;
            &&& head_of(m3[rp].refs) == Some(h)
            &&& m3[rp].objects.contains_key(h)
            &&& forall|i: int|
                0 <= i < files.len() ==> m3[rp].objects.contains_key(
                    #[trigger] sha1_hex_of(files[i].data),
                )
            &&& forall|k: Seq<char>|
                #[trigger] m[lp].objects.contains_key(k) ==> m3[rp].objects.contains_key(k)
        }),
{
    let cv = revision_commit(meta, head_of(m[lp].refs), files);
    let h = sha1_hex_of(enc_commit(cv));
    let m1 = commit_spec(m, lp, meta, files).0;
    let m3 = push_spec(m1, lp, rp).0;
    assert(m1[lp].objects == store_spec(store_many(m[lp].objects, files), enc_commit(cv)));
    assert(head_of(m1[lp].refs) == Some(h));
    assert forall|i: int| 0 <= i < files.len() implies m1[lp].objects.contains_key(
        #[trigger] sha1_hex_of(files[i].data),
    ) by {
        lemma_store_many_contains(m[lp].objects, files, i);
        lemma_store_spec_preserves(
            store_many(m[lp].objects, files),
            enc_commit(cv),
            sha1_hex_of(files[i].data),
        );
    }
    assert forall|k: Seq<char>| #[trigger] m[lp].objects.contains_key(k) implies m1[
        lp
    ].objects.contains_key(k) by {
        lemma_store_many_preserves(m[lp].objects, files, k);
        lemma_store_spec_preserves(store_many(m[lp].objects, files), enc_commit(cv), k);
    }
    if rp == lp {
        assert(m3 == m1);
    } else {
        assert(m3[rp] == sync_repo(m1[rp], m1[lp], h));
    }
}

/// Set-difference correctness of push: after a head-moving push, the remote
/// object store holds every object the local store held and every object it
/// itself held, the latter byte for byte unchanged.
pub proof fn lemma_push_superset(m: Map<Seq<char>, RepoView>, lp: Seq<char>, rp: Seq<char>)
    requires
        push_spec(m, lp, rp).1 is Ok,
        head_of(m[rp].refs) != head_of(m[lp].refs),
    ensures
        ({
            let m2 = push_spec(m, lp, rp).0;
            &&& forall|k: Seq<char>|
                #[trigger] m[lp].objects.contains_key(k) ==> m2[rp].objects.contains_key(k)
            &&& forall|k: Seq<char>|
                #[trigger] m[rp].objects.contains_key(k) ==> m2[rp].objects.contains_key(k)
                    && m2[rp].objects[k] == m[rp].objects[k]
        }),
{
    let m2 = push_spec(m, lp, rp).0;
    match head_of(m[lp].refs) {
        Some(lh) => {
            assert(m2 == m.insert(rp, sync_repo(m[rp], m[lp], lh)));
            assert(m2[rp] == sync_repo(m[rp], m[lp], lh));
            assert(m2[rp].objects == m[lp].objects.union_prefer_right(m[rp].objects));
        },
        None => {
            assert(false);
        },
    }
}

} // verus!
