use geet::commit::{deserialize_commit, CommitMetadata};
use geet::repo::{RepoHost, RepositoryConfig};
use geet::revision::StagedFile;
use geet::RepoError;

fn init_demo(host: &mut RepoHost, path: &str) -> RepositoryConfig {
    RepositoryConfig::init_repo(
        host,
        String::from("Demo"),
        String::from(path),
        String::from("main"),
    )
    .unwrap()
}

fn commit_one_file(host: &mut RepoHost, path: &str, file: &str, content: &[u8]) -> String {
    let metadata = CommitMetadata {
        author: String::from("Ada"),
        message: String::from("add a file"),
        timestamp: String::from("2024-01-02T03:04:05+00:00"),
        parent: None,
    };
    let staged = vec![StagedFile {
        path: String::from(file),
        data: content.to_vec(),
    }];
    RepositoryConfig::commit(host, &String::from(path), &metadata, &staged).unwrap()
}

#[test]
fn init_creates_one_commit_and_both_refs() {
    let mut host = RepoHost::new();
    let config = init_demo(&mut host, "/tmp/r");
    assert_eq!(config.name, "Demo");
    assert_eq!(config.default_branch, "main");
    assert!(RepositoryConfig::validate_remote_repo(&host, &String::from("/tmp/r")).is_ok());

    let repo = host.get(&String::from("/tmp/r")).unwrap();
    let hashes = repo.objects.get_object_hashes();
    assert_eq!(hashes.len(), 1);
    let commit_hash = hashes[0].clone();

    let main_ref = repo.refs.get_ref(&String::from("main"));
    assert_eq!(main_ref.commit_hash.as_deref(), Some(commit_hash.as_str()));
    assert_eq!(repo.refs.get_head().as_deref(), Some(commit_hash.as_str()));

    let bytes = repo.objects.retrieve_object(&commit_hash).unwrap();
    let commit = deserialize_commit(&bytes).unwrap();
    assert_eq!(commit.metadata.author, "System");
    assert_eq!(commit.metadata.message, "Initial commit");
    assert_eq!(commit.metadata.parent, None);
    assert!(commit.snapshot.is_empty());
}

#[test]
fn double_init_is_rejected_and_state_untouched() {
    let mut host = RepoHost::new();
    init_demo(&mut host, "/tmp/r");
    let before = {
        let repo = host.get(&String::from("/tmp/r")).unwrap();
        repo.objects.get_object_hashes()
    };
    let second = RepositoryConfig::init_repo(
        &mut host,
        String::from("Other"),
        String::from("/tmp/r"),
        String::from("dev"),
    );
    assert!(matches!(second, Err(RepoError::AlreadyExists)));
    let repo = host.get(&String::from("/tmp/r")).unwrap();
    assert_eq!(repo.objects.get_object_hashes(), before);
    assert_eq!(repo.config.name, "Demo");
}

#[test]
fn clone_copies_everything_and_sets_head() {
    let mut host = RepoHost::new();
    init_demo(&mut host, "/tmp/r");
    RepositoryConfig::clone_repo(&mut host, String::from("/tmp/r"), String::from("/tmp/r2"))
        .unwrap();
    let remote_head = host
        .get(&String::from("/tmp/r"))
        .unwrap()
        .refs
        .get_head()
        .unwrap();
    let local = host.get(&String::from("/tmp/r2")).unwrap();
    assert_eq!(local.refs.get_head().as_deref(), Some(remote_head.as_str()));
    assert_eq!(local.objects.get_object_hashes().len(), 1);
    assert_eq!(local.config.name, "Demo");
}

#[test]
fn clone_to_existing_path_is_rejected() {
    let mut host = RepoHost::new();
    init_demo(&mut host, "/tmp/r");
    init_demo(&mut host, "/tmp/r2");
    assert_eq!(
        RepositoryConfig::clone_repo(&mut host, String::from("/tmp/r"), String::from("/tmp/r2")),
        Err(RepoError::AlreadyExists)
    );
}

#[test]
fn clone_of_missing_remote_is_invalid() {
    let mut host = RepoHost::new();
    assert_eq!(
        RepositoryConfig::clone_repo(&mut host, String::from("/nowhere"), String::from("/tmp/r2")),
        Err(RepoError::InvalidRemote)
    );
    assert_eq!(
        RepositoryConfig::pull_repo(&mut host, String::from("/nowhere"), String::from("/tmp/r2")),
        Err(RepoError::InvalidRemote)
    );
    assert_eq!(
        RepositoryConfig::push_repo(&mut host, String::from("/tmp/r"), String::from("/nowhere")),
        Err(RepoError::InvalidRemote)
    );
}

#[test]
fn clone_then_push_publishes_new_commit() {
    let mut host = RepoHost::new();
    init_demo(&mut host, "/tmp/r");
    RepositoryConfig::clone_repo(&mut host, String::from("/tmp/r"), String::from("/tmp/r2"))
        .unwrap();
    let new_hash = commit_one_file(&mut host, "/tmp/r", "notes.txt", b"new work\n");
    RepositoryConfig::push_repo(&mut host, String::from("/tmp/r"), String::from("/tmp/r2"))
        .unwrap();

    let remote = host.get(&String::from("/tmp/r2")).unwrap();
    assert_eq!(remote.refs.get_head().as_deref(), Some(new_hash.as_str()));
    let bytes = remote.objects.retrieve_object(&new_hash).unwrap();
    let commit = deserialize_commit(&bytes).unwrap();
    for entry in &commit.snapshot {
        assert!(remote.objects.retrieve_object(&entry.hash).is_ok());
    }
}

#[test]
fn commit_stores_content_and_moves_head() {
    let mut host = RepoHost::new();
    init_demo(&mut host, "/tmp/r");
    let old_head = host
        .get(&String::from("/tmp/r"))
        .unwrap()
        .refs
        .get_head()
        .unwrap();
    let new_hash = commit_one_file(&mut host, "/tmp/r", "a.txt", b"alpha");
    let repo = host.get(&String::from("/tmp/r")).unwrap();
    assert_eq!(repo.refs.get_head().as_deref(), Some(new_hash.as_str()));
    let bytes = repo.objects.retrieve_object(&new_hash).unwrap();
    let commit = deserialize_commit(&bytes).unwrap();
    assert_eq!(commit.metadata.parent.as_deref(), Some(old_head.as_str()));
    assert_eq!(commit.snapshot.len(), 1);
    assert_eq!(commit.snapshot[0].path, "a.txt");
    let content = repo.objects.retrieve_object(&commit.snapshot[0].hash).unwrap();
    assert_eq!(content, b"alpha".to_vec());
}

#[test]
fn pull_twice_is_a_no_op_the_second_time() {
    let mut host = RepoHost::new();
    init_demo(&mut host, "/tmp/r");
    RepositoryConfig::clone_repo(&mut host, String::from("/tmp/r"), String::from("/tmp/r2"))
        .unwrap();
    commit_one_file(&mut host, "/tmp/r", "b.txt", b"beta");
    RepositoryConfig::pull_repo(&mut host, String::from("/tmp/r"), String::from("/tmp/r2"))
        .unwrap();
    let (head_after_first, objects_after_first) = {
        let local = host.get(&String::from("/tmp/r2")).unwrap();
        (local.refs.get_head(), local.objects.get_object_hashes())
    };
    RepositoryConfig::pull_repo(&mut host, String::from("/tmp/r"), String::from("/tmp/r2"))
        .unwrap();
    let local = host.get(&String::from("/tmp/r2")).unwrap();
    assert_eq!(local.refs.get_head(), head_after_first);
    assert_eq!(local.objects.get_object_hashes(), objects_after_first);
}

#[test]
fn push_never_overwrites_existing_objects() {
    let mut host = RepoHost::new();
    init_demo(&mut host, "/tmp/r");
    RepositoryConfig::clone_repo(&mut host, String::from("/tmp/r"), String::from("/tmp/r2"))
        .unwrap();
    commit_one_file(&mut host, "/tmp/r", "c.txt", b"gamma");
    let (remote_hashes_before, local_hashes) = {
        let remote = host.get(&String::from("/tmp/r2")).unwrap();
        let local = host.get(&String::from("/tmp/r")).unwrap();
        (
            remote.objects.get_object_hashes(),
            local.objects.get_object_hashes(),
        )
    };
    let mut remote_contents_before = Vec::new();
    {
        let remote = host.get(&String::from("/tmp/r2")).unwrap();
        for h in &remote_hashes_before {
            remote_contents_before.push((h.clone(), remote.objects.retrieve_object(h).unwrap()));
        }
    }
    RepositoryConfig::push_repo(&mut host, String::from("/tmp/r"), String::from("/tmp/r2"))
        .unwrap();
    let remote = host.get(&String::from("/tmp/r2")).unwrap();
    for h in &local_hashes {
        assert!(remote.objects.retrieve_object(h).is_ok());
    }
    for (h, bytes) in &remote_contents_before {
        assert_eq!(&remote.objects.retrieve_object(h).unwrap(), bytes);
    }
}
