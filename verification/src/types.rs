//! Requests to the service and its responses.

use crate::diff::RestoreDiff;
use crate::object::Actor;
use crate::oid::ObjectId;
use vstd::prelude::*;

verus! {

/// Asks for a snapshot of an account on a branch.
#[derive(Debug, Clone, PartialEq, Eq)]
pub struct CommitRequest {
    pub account: String,
    /// The short name of the branch, such as `main`.
    pub branch: String,
    pub message: String,
    /// The paths to look at, relative to the account; `None` for all of it.
    pub paths: Option<Vec<String>>,
    pub author_name: String,
    pub author_email: String,
}

/// The outcome of a commit.
#[derive(Debug, Clone, Copy, PartialEq, Eq)]
pub enum CommitResponse {
    /// The branch was moved to a new commit, which differs from the one before
    /// in `changed` paths. `ignored` is the number of paths that the ignore file
    /// left out.
    Created { commit_oid: ObjectId, changed: usize, ignored: usize },
    /// Nothing had changed, and the branch was left alone. `commit_oid` is its
    /// head, or null where the branch does not exist.
    Noop { commit_oid: ObjectId, ignored: usize },
}

/// What is remembered of a file between commits.
#[derive(Debug, Clone, Copy, PartialEq, Eq)]
pub struct IndexEntry {
    pub size: u64,
    pub mtime_ns: i128,
    pub oid: ObjectId,
}

/// Asks for a commit, or for a file in it.
#[derive(Debug, Clone, PartialEq, Eq)]
pub struct ShowRequest {
    pub account: String,
    /// An identifier, the first digits of one, a branch or the full name of a ref.
    pub target_ref: String,
    pub path: Option<String>,
}

/// A commit, or a file in it.
#[derive(Debug, Clone, PartialEq, Eq)]
pub enum ShowResponse {
    Commit {
        oid: ObjectId,
        tree: ObjectId,
        parents: Vec<ObjectId>,
        author: Actor,
        committer: Actor,
        message: String,
    },
    Blob { oid: ObjectId, size: u64, bytes: Vec<u8> },
}

/// Asks for a directory to be put back to what it was in a commit.
#[derive(Debug, Clone, PartialEq, Eq)]
pub struct RestoreRequest {
    pub account: String,
    /// The short name of the branch.
    pub branch: String,
    /// The directory, relative to the account.
    pub project_dir: String,
    /// The commit to take the directory from, named as for `ShowRequest`.
    pub source_commit: String,
    /// Whether only to say what would be done.
    pub dry_run: bool,
    pub message: Option<String>,
    pub author_name: String,
    pub author_email: String,
}

/// The outcome of a restore.
#[derive(Debug, Clone, PartialEq, Eq)]
pub enum RestoreResponse {
    /// The directory was restored by a new commit on top of the head.
    Applied {
        new_commit_oid: ObjectId,
        source_commit: ObjectId,
        parent_commit: ObjectId,
        written: usize,
        deleted: usize,
        unchanged: usize,
        /// Relative to the account, as are the deleted ones.
        written_paths: Vec<String>,
        deleted_paths: Vec<String>,
    },
    /// The directory is already as it was.
    Noop { head: ObjectId, source: ObjectId },
    /// What would be done.
    DryRun { diff: RestoreDiff, head: ObjectId, source: ObjectId },
}

} // verus!
