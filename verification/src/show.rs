//! The course of a show. Each type is a point at which it waits for something
//! from outside; the method that takes it leads to the next point.

use crate::error::{GitError, GitErrorView, RefStoreError};
use crate::object::{blob_at, blob_of, commit_of, load_commit_meta, CommitMetaView};
use crate::oid::ObjectId;
use crate::resolve::{resolve_ref, target_of, RefTarget};
use crate::tree_builder::EntryKind;
use crate::types::{ShowRequest, ShowResponse};
use vstd::prelude::*;

verus! {

/// Waits for the commit that `target` names.
#[derive(Debug)]
pub struct ShowStart {
    pub account: String,
    pub target: RefTarget,
    pub path: Option<String>,
}

/// Waits for the stored commit `commit`.
#[derive(Debug)]
pub struct ShowCommit {
    pub account: String,
    pub path: Option<String>,
    pub commit: ObjectId,
}

/// Waits for the entry at `path` in the stored tree `tree`.
#[derive(Debug)]
pub struct ShowPath {
    pub account: String,
    pub path: String,
    pub tree: ObjectId,
}

/// Waits for the stored blob `blob`.
#[derive(Debug)]
pub struct ShowBlob {
    pub account: String,
    pub path: String,
    pub blob: ObjectId,
}

/// Where a show stands once the commit is known.
#[derive(Debug)]
pub enum ShowNext {
    /// The commit itself was asked for.
    Done(ShowResponse),
    /// A file in it was asked for.
    Path(ShowPath),
}

/// The commit that a ref names, given what the read of the ref gave.
pub fn named_commit(read: Result<ObjectId, RefStoreError>) -> (result: Result<ObjectId, GitError>)
    ensures
        match (read, result) {
            (Ok(oid), Ok(r)) => r == oid,
            (Err(e), Err(r)) => r@ == GitErrorView::RefStore(e@),
            _ => false,
        },
{
    match read {
        Ok(oid) => Ok(oid),
        Err(e) => Err(GitError::RefStore(e)),
    }
}

/// `result` is the beginning of the show that `req` asks for, or the error for its
/// target.
pub open spec fn begins_show(req: ShowRequest, result: Result<ShowStart, GitError>) -> bool {
    match result {
        Ok(start) => target_of(req.target_ref@, Ok(start.target@)) && start.account == req.account
            && start.path == req.path,
        Err(e) => target_of(req.target_ref@, Err(e@)),
    }
}

impl ShowStart {
    /// The beginning of a show.
    pub fn new(req: ShowRequest) -> (result: Result<ShowStart, GitError>)
        ensures
            begins_show(req, result),
    {
        match resolve_ref(req.target_ref.as_str()) {
            Ok(target) => Ok(ShowStart { account: req.account, target, path: req.path }),
            Err(e) => Err(e),
        }
    }

    /// `result` is where the show goes with the commit that the target names.
    pub open spec fn goes_to(
        self,
        commit: Result<ObjectId, GitError>,
        result: Result<ShowCommit, GitError>,
    ) -> bool {
        match (commit, result) {
            (Ok(oid), Ok(s)) => s.commit == oid && s.account == self.account && s.path == self.path,
            (Err(e), Err(r)) => r == e,
            _ => false,
        }
    }

    /// Goes on with the commit that the target names.
    pub fn resolved(self, commit: Result<ObjectId, GitError>) -> (result: Result<
        ShowCommit,
        GitError,
    >)
        ensures
            self.goes_to(commit, result),
    {
        match commit {
            Ok(commit) => Ok(ShowCommit { account: self.account, path: self.path, commit }),
            Err(e) => Err(e),
        }
    }
}

/// The response for a commit.
pub open spec fn shows_commit(response: ShowResponse, oid: ObjectId, meta: CommitMetaView) -> bool {
    match response {
        ShowResponse::Commit { oid: o, tree, parents, author, committer, message } => {
            &&& o == oid
            &&& tree == meta.tree
            &&& parents@ == meta.parents
            &&& author@ == meta.author
            &&& committer@ == meta.committer
            &&& message@ == meta.message
        },
        _ => false,
    }
}

impl ShowCommit {
    /// `result` is where the show goes with the stored form of the commit.
    pub open spec fn goes_to(
        self,
        read: Result<Vec<u8>, GitError>,
        result: Result<ShowNext, GitError>,
    ) -> bool {
        match read {
            Err(e) => result == Err::<ShowNext, GitError>(e),
            Ok(raw) => match (commit_of(raw@), self.path, result) {
                (Err(e), _, Err(r)) => r@ == e,
                (Ok(meta), None, Ok(ShowNext::Done(response))) => shows_commit(
                    response,
                    self.commit,
                    meta,
                ),
                (Ok(meta), Some(path), Ok(ShowNext::Path(p))) => p.tree == meta.tree && p.path
                    == path && p.account == self.account,
                _ => false,
            },
        }
    }

    /// Goes on with the stored form of the commit.
    pub fn commit_object(self, read: Result<Vec<u8>, GitError>) -> (result: Result<
        ShowNext,
        GitError,
    >)
        ensures
            self.goes_to(read, result),
    {
        let raw = match read {
            Ok(raw) => raw,
            Err(e) => {
                return Err(e);
            },
        };
        match load_commit_meta(raw.as_slice()) {
            Err(e) => Err(e),
            Ok(meta) => match self.path {
                None => Ok(
                    ShowNext::Done(
                        ShowResponse::Commit {
                            oid: self.commit,
                            tree: meta.tree,
                            parents: meta.parents,
                            author: meta.author,
                            committer: meta.committer,
                            message: meta.message,
                        },
                    ),
                ),
                Some(path) => Ok(
                    ShowNext::Path(ShowPath { account: self.account, path, tree: meta.tree }),
                ),
            },
        }
    }
}

/// The blob of the file at a path, given the entry there: a directory is not a
/// file, and is told apart from a path at which nothing stands.
pub open spec fn blob_to_show(path: Seq<char>, entry: Option<(ObjectId, EntryKind)>) -> Result<
    ObjectId,
    GitErrorView,
> {
    match entry {
        None => Err(GitErrorView::PathNotFound(path)),
        Some((oid, kind)) => if kind == EntryKind::Tree {
            Err(GitErrorView::PathIsDirectory(path))
        } else {
            Ok(oid)
        },
    }
}

impl ShowPath {
    /// `result` is where the show goes with the entry at the path.
    pub open spec fn goes_to(
        self,
        entry: Result<Option<(ObjectId, EntryKind)>, GitError>,
        result: Result<ShowBlob, GitError>,
    ) -> bool {
        match (entry, result) {
            (Err(e), Err(r)) => r == e,
            (Ok(found), Err(r)) => blob_to_show(self.path@, found) == Err::<ObjectId, _>(r@),
            (Ok(found), Ok(b)) => blob_to_show(self.path@, found) == Ok::<_, GitErrorView>(b.blob)
                && b.path == self.path && b.account == self.account,
            _ => false,
        }
    }

    /// Goes on with the entry at the path. A directory is not a file, and is
    /// told apart from a path at which nothing stands.
    pub fn looked_up(self, entry: Result<Option<(ObjectId, EntryKind)>, GitError>) -> (result:
        Result<ShowBlob, GitError>)
        ensures
            self.goes_to(entry, result),
    {
        match entry {
            Err(e) => Err(e),
            Ok(None) => Err(GitError::PathNotFound(self.path)),
            Ok(Some((blob, kind))) => if kind == EntryKind::Tree {
                Err(GitError::PathIsDirectory(self.path))
            } else {
                Ok(ShowBlob { account: self.account, path: self.path, blob })
            },
        }
    }
}

impl ShowBlob {
    /// `result` is how the show ends with the stored form of the blob.
    pub open spec fn ends_with(
        self,
        read: Result<Vec<u8>, GitError>,
        result: Result<ShowResponse, GitError>,
    ) -> bool {
        match read {
            Err(e) => result == Err::<ShowResponse, GitError>(e),
            Ok(raw) => match (blob_of(raw@, Some(self.path@)), result) {
                (Ok((size, payload)), Ok(ShowResponse::Blob { oid, size: s, bytes })) => oid
                    == self.blob && s == size && bytes@ == payload,
                (Err(e), Err(r)) => r@ == e,
                _ => false,
            },
        }
    }

    /// Ends with the stored form of the blob.
    pub fn blob_object(self, read: Result<Vec<u8>, GitError>) -> (result: Result<
        ShowResponse,
        GitError,
    >)
        ensures
            self.ends_with(read, result),
    {
        match read {
            Err(e) => Err(e),
            Ok(raw) => match blob_at(raw.as_slice(), self.path.as_str()) {
                Err(e) => Err(e),
                Ok((size, bytes)) => Ok(ShowResponse::Blob { oid: self.blob, size, bytes }),
            },
        }
    }
}

} // verus!
