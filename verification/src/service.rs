//! The service over a working tree and the stores of objects and refs.

use crate::commit::{begins_commit, CommitStart};
use crate::error::GitError;
use crate::restore::{begins_restore, RestoreStart};
use crate::show::{begins_show, ShowStart};
use crate::types::{CommitRequest, RestoreRequest, ShowRequest};
use vstd::prelude::*;

verus! {

/// The service: the file system that holds the working tree, the store of
/// objects and the store of refs. Its operations decide what is to be asked of
/// the three, and what follows from the answers.
pub struct GitService<V, O, R> {
    pub vfs: V,
    pub object_store: O,
    pub ref_store: R,
}

impl<V, O, R> GitService<V, O, R> {
    /// The service over the three.
    pub fn new(vfs: V, object_store: O, ref_store: R) -> (service: Self)
        ensures
            service.vfs == vfs,
            service.object_store == object_store,
            service.ref_store == ref_store,
    {
        GitService { vfs, object_store, ref_store }
    }

    /// Begins a commit of the present state of the account on a branch.
    pub fn commit(&self, req: CommitRequest) -> (start: CommitStart)
        ensures
            begins_commit(req, start),
    {
        CommitStart::new(req)
    }

    /// Begins to show a commit, or a file in it.
    pub fn show(&self, req: ShowRequest) -> (result: Result<ShowStart, GitError>)
        ensures
            begins_show(req, result),
    {
        ShowStart::new(req)
    }

    /// Begins to restore a directory to what it was in a commit.
    pub fn restore(&self, req: RestoreRequest) -> (result: Result<RestoreStart, GitError>)
        ensures
            begins_restore(req, result),
    {
        RestoreStart::new(req)
    }
}

} // verus!
