use geet::object_store::ObjectStore;
use geet::repo::{RepoHost, RepositoryConfig};
use geet::RepoError;

#[test]
fn store_returns_known_sha1_hex() {
    let mut store = ObjectStore::new();
    let data: Vec<u8> = b"hello".to_vec();
    let h = store.store_object(&data);
    assert_eq!(h, "aaf4c61ddcc5e8a2dabede0f3b482cd9aea9434d");
}

#[test]
fn store_then_retrieve_round_trips() {
    let mut store = ObjectStore::new();
    let data: Vec<u8> = b"some file contents\n".to_vec();
    let h = store.store_object(&data);
    let back = store.retrieve_object(&h).unwrap();
    assert_eq!(back, data);
}

#[test]
fn store_is_deterministic_and_deduplicates() {
    let mut store = ObjectStore::new();
    let data: Vec<u8> = b"identical bytes".to_vec();
    let h1 = store.store_object(&data);
    let h2 = store.store_object(&data);
    assert_eq!(h1, h2);
    assert_eq!(store.len(), 1);
    assert_eq!(store.get_object_hashes().len(), 1);
}

#[test]
fn retrieve_short_key_is_invalid() {
    let store = ObjectStore::new();
    let key = String::from("a");
    assert_eq!(store.retrieve_object(&key), Err(RepoError::InvalidKey));
}

#[test]
fn retrieve_missing_object_is_not_found() {
    let store = ObjectStore::new();
    let key = String::from("aaf4c61ddcc5e8a2dabede0f3b482cd9aea9434d");
    assert_eq!(store.retrieve_object(&key), Err(RepoError::NotFound));
}

#[test]
fn delete_data_removes_and_reports_missing() {
    let mut store = ObjectStore::new();
    let data: Vec<u8> = b"here today".to_vec();
    let h = store.store_object(&data);
    assert!(store.contains(&h));
    assert_eq!(store.delete_data(&h), Ok(()));
    assert!(!store.contains(&h));
    assert_eq!(store.retrieve_object(&h), Err(RepoError::NotFound));
    assert_eq!(store.delete_data(&h), Err(RepoError::NotFound));
}

#[test]
fn list_files_filters_by_shard_prefix() {
    let mut store = ObjectStore::new();
    let a: Vec<u8> = b"hello".to_vec();
    let h = store.store_object(&a);
    let prefix = String::from("aa");
    let listed = store.list_files(&prefix);
    assert_eq!(listed, vec![h.clone()]);
    let other = String::from("zz");
    assert!(store.list_files(&other).is_empty());
}

#[test]
fn store_blob_adds_one_object_to_a_repository() {
    let mut host = RepoHost::new();
    RepositoryConfig::init_repo(
        &mut host,
        String::from("Demo"),
        String::from("/tmp/r"),
        String::from("main"),
    )
    .unwrap();
    let data: Vec<u8> = b"hello".to_vec();
    let h = RepositoryConfig::store_blob(&mut host, &String::from("/tmp/r"), &data).unwrap();
    assert_eq!(h, "aaf4c61ddcc5e8a2dabede0f3b482cd9aea9434d");
    let repo = host.get(&String::from("/tmp/r")).unwrap();
    assert_eq!(repo.objects.retrieve_object(&h).unwrap(), data);
    assert_eq!(
        RepositoryConfig::store_blob(&mut host, &String::from("/absent"), &data),
        Err(RepoError::NotFound)
    );
}
