use geet::ref_store::{RefStore, RefType};
use geet::RepoError;

#[test]
fn ref_round_trip_create_and_update() {
    let mut refs = RefStore::new();
    let h1 = String::from("aaf4c61ddcc5e8a2dabede0f3b482cd9aea9434d");
    let h2 = String::from("2ef7bde608ce5404e97d5f042f95f89f1c232871");
    let name = String::from("main");
    refs.create_ref(RefType::Branch, name.clone(), Some(h1.clone()))
        .unwrap();
    assert_eq!(refs.get_ref(&name).commit_hash.as_deref(), Some(h1.as_str()));
    refs.update_ref(&name, &h2).unwrap();
    assert_eq!(refs.get_ref(&name).commit_hash.as_deref(), Some(h2.as_str()));
    assert_eq!(refs.get_ref(&name).ref_type, RefType::Branch);
}

#[test]
fn duplicate_ref_creation_is_rejected() {
    let mut refs = RefStore::new();
    let name = String::from("main");
    refs.create_ref(RefType::Branch, name.clone(), None).unwrap();
    assert_eq!(
        refs.create_ref(RefType::Branch, name.clone(), None),
        Err(RepoError::AlreadyExists)
    );
}

#[test]
fn update_of_missing_ref_is_not_found() {
    let mut refs = RefStore::new();
    let name = String::from("ghost-branch");
    let h = String::from("aaf4c61ddcc5e8a2dabede0f3b482cd9aea9434d");
    assert_eq!(refs.update_ref(&name, &h), Err(RepoError::NotFound));
}

#[test]
fn unbound_name_reads_as_absent_hash() {
    let refs = RefStore::new();
    let name = String::from("never-created");
    let r = refs.get_ref(&name);
    assert_eq!(r.name, name);
    assert!(r.commit_hash.is_none());
}

#[test]
fn head_lifecycle() {
    let mut refs = RefStore::new();
    assert_eq!(refs.get_head(), None);
    refs.create_head().unwrap();
    assert_eq!(refs.get_head(), None);
    assert_eq!(refs.create_head(), Err(RepoError::AlreadyExists));
    let h = String::from("aaf4c61ddcc5e8a2dabede0f3b482cd9aea9434d");
    refs.update_head(&h).unwrap();
    assert_eq!(refs.get_head().as_deref(), Some(h.as_str()));
    let hd = String::from("HEAD");
    assert_eq!(refs.get_ref(&hd).ref_type, RefType::Head);
}

#[test]
fn error_messages_name_the_failure() {
    assert_eq!(RepoError::AlreadyExists.message(), "already exists");
    assert_eq!(RepoError::NotFound.message(), "not found");
    assert_eq!(RepoError::InvalidRemote.message(), "invalid remote repository");
    assert_eq!(RepoError::InvalidKey.message(), "invalid hash provided");
    assert_eq!(RepoError::IoFailure.message(), "input/output failure");
    assert_eq!(
        RepoError::SerializationFailure.message(),
        "serialization failure"
    );
}
