//! Core of a small version-control system: a content-addressed object store,
//! a named-reference store, an append-only revision graph, and repository
//! lifecycle operations (init, clone, push, pull) that synchronize two
//! repositories by set difference.
use vstd::prelude::*;

pub mod clock;
pub mod commit;
pub mod digest;
pub mod listing;
pub mod object_store;
pub mod ref_store;
pub mod repo;
pub mod revision;

verus! {

/// A content digest rendered as lowercase hexadecimal; used both as the
/// identifier of an object and as an integrity check on its bytes.
pub type Hash = String;

/// The error taxonomy of the library.
#[derive(Clone, Copy, Debug, PartialEq, Eq, Structural)]
pub enum RepoError {
    /// An init or clone target collision, or a duplicate ref creation.
    AlreadyExists,
    /// A missing object, ref, or repository.
    NotFound,
    /// A malformed or uninitialized remote repository.
    InvalidRemote,
    /// A malformed hash key.
    InvalidKey,
    /// An underlying read, write, or copy failure.
    IoFailure,
    /// A metadata encode or decode failure.
    SerializationFailure,
}

impl RepoError {
    /// The wording of each error, as shown to a user.
    pub open spec fn message_spec(&self) -> Seq<char> {
        match self {
            RepoError::AlreadyExists => "already exists"@,
            RepoError::NotFound => "not found"@,
            RepoError::InvalidRemote => "invalid remote repository"@,
            RepoError::InvalidKey => "invalid hash provided"@,
            RepoError::IoFailure => "input/output failure"@,
            RepoError::SerializationFailure => "serialization failure"@,
        }
    }

    /// A human-readable description of the error.
    pub fn message(&self) -> (r: String)
        ensures
            r@ == self.message_spec(),
    {
        match self {
            RepoError::AlreadyExists => <String as vstd::string::StringExecFns>::from_str(
                "already exists",
            ),
            RepoError::NotFound => <String as vstd::string::StringExecFns>::from_str("not found"),
            RepoError::InvalidRemote => <String as vstd::string::StringExecFns>::from_str(
                "invalid remote repository",
            ),
            RepoError::InvalidKey => <String as vstd::string::StringExecFns>::from_str(
                "invalid hash provided",
            ),
            RepoError::IoFailure => <String as vstd::string::StringExecFns>::from_str(
                "input/output failure",
            ),
            RepoError::SerializationFailure => <String as vstd::string::StringExecFns>::from_str(
                "serialization failure",
            ),
        }
    }
}

} // verus!
