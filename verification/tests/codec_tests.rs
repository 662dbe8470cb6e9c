use geet::commit::{
    deserialize_commit, deserialize_metadata, serialize_commit, serialize_metadata, Commit,
    CommitMetadata, SnapshotEntry,
};
use geet::RepoError;

fn sample_metadata(parent: Option<String>) -> CommitMetadata {
    CommitMetadata {
        author: String::from("Ada"),
        message: String::from("first change"),
        timestamp: String::from("2024-01-02T03:04:05+00:00"),
        parent,
    }
}

#[test]
fn metadata_round_trips_without_parent() {
    let m = sample_metadata(None);
    let bytes = serialize_metadata(&m).unwrap();
    let back = deserialize_metadata(&bytes).unwrap();
    assert_eq!(back.author, m.author);
    assert_eq!(back.message, m.message);
    assert_eq!(back.timestamp, m.timestamp);
    assert_eq!(back.parent, None);
}

#[test]
fn metadata_round_trips_with_parent() {
    let m = sample_metadata(Some(String::from(
        "aaf4c61ddcc5e8a2dabede0f3b482cd9aea9434d",
    )));
    let bytes = serialize_metadata(&m).unwrap();
    let back = deserialize_metadata(&bytes).unwrap();
    assert_eq!(back.parent.as_deref(), m.parent.as_deref());
}

#[test]
fn metadata_encoding_is_exactly_length_prefixed() {
    let m = CommitMetadata {
        author: String::from("a"),
        message: String::from("b"),
        timestamp: String::from("c"),
        parent: None,
    };
    let bytes = serialize_metadata(&m).unwrap();
    let expected: Vec<u8> = vec![
        1, 0, 0, 0, b'a', 1, 0, 0, 0, b'b', 1, 0, 0, 0, b'c', 0,
    ];
    assert_eq!(bytes, expected);
}

#[test]
fn metadata_decode_rejects_malformed_bytes() {
    let empty: Vec<u8> = Vec::new();
    assert!(matches!(
        deserialize_metadata(&empty),
        Err(RepoError::SerializationFailure)
    ));
    let m = sample_metadata(None);
    let mut bytes = serialize_metadata(&m).unwrap();
    bytes.push(0xff);
    assert!(matches!(
        deserialize_metadata(&bytes),
        Err(RepoError::SerializationFailure)
    ));
}

#[test]
fn commit_round_trips_with_snapshot() {
    let c = Commit {
        metadata: sample_metadata(None),
        snapshot: vec![
            SnapshotEntry {
                path: String::from("src/main.rs"),
                hash: String::from("aaf4c61ddcc5e8a2dabede0f3b482cd9aea9434d"),
            },
            SnapshotEntry {
                path: String::from("README.md"),
                hash: String::from("2ef7bde608ce5404e97d5f042f95f89f1c232871"),
            },
        ],
    };
    let bytes = serialize_commit(&c).unwrap();
    let back = deserialize_commit(&bytes).unwrap();
    assert_eq!(back.metadata.author, c.metadata.author);
    assert_eq!(back.snapshot.len(), 2);
    assert_eq!(back.snapshot[0].path, "src/main.rs");
    assert_eq!(back.snapshot[0].hash, c.snapshot[0].hash);
    assert_eq!(back.snapshot[1].path, "README.md");
}

#[test]
fn commit_decode_rejects_truncated_bytes() {
    let c = Commit {
        metadata: sample_metadata(None),
        snapshot: vec![SnapshotEntry {
            path: String::from("f"),
            hash: String::from("aaf4c61ddcc5e8a2dabede0f3b482cd9aea9434d"),
        }],
    };
    let bytes = serialize_commit(&c).unwrap();
    let truncated: Vec<u8> = bytes[..bytes.len() - 1].to_vec();
    assert!(matches!(
        deserialize_commit(&truncated),
        Err(RepoError::SerializationFailure)
    ));
}
