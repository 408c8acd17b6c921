//! What the service begins.

use crate::commit::{ref_update_error, CommitStart};
use crate::error::{GitError, GitErrorView, RefStoreError};
use crate::laws::names::is_target;
use crate::restore::RestoreStart;
use crate::service::GitService;
use crate::show::ShowStart;
use crate::types::{CommitRequest, RestoreRequest, ShowRequest};
use vstd::prelude::*;

verus! {

/// The service begins a commit, a show or a restore of what it was asked for.
pub proof fn law_service<V, O, R>(
    service: GitService<V, O, R>,
    c: CommitRequest,
    commit: CommitStart,
    s: ShowRequest,
    show: ShowStart,
    r: RestoreRequest,
    restore: RestoreStart,
)
    requires
        call_ensures(GitService::<V, O, R>::commit, (&service, c), commit),
        call_ensures(GitService::<V, O, R>::show, (&service, s), Ok(show)),
        call_ensures(GitService::<V, O, R>::restore, (&service, r), Ok(restore)),
    ensures
        commit.context.account@ == c.account@,
        commit.context.ref_name@ == "refs/heads/"@ + c.branch@,
        commit.context.message@ == c.message@,
        commit.context.author_name@ == c.author_name@,
        commit.context.author_email@ == c.author_email@,
        commit.paths == c.paths,
        is_target(s.target_ref@, Ok(show.target@)),
        show.account == s.account,
        show.path == s.path,
        is_target(r.source_commit@, Ok(restore.target@)),
        restore.context.account@ == r.account@,
        restore.context.ref_name@ == "refs/heads/"@ + r.branch@,
        restore.context.project_dir@ == r.project_dir@,
        restore.context.dry_run == r.dry_run,
        restore.context.message == r.message,
        restore.context.author_name@ == r.author_name@,
        restore.context.author_email@ == r.author_email@,
{
    crate::laws::names::lemma_target(s.target_ref@, Ok(show.target@));
    crate::laws::names::lemma_target(r.source_commit@, Ok(restore.target@));
}

/// A conflict on a branch is a concurrent commit on it; any other failure is passed on.
pub proof fn law_update_errors(name: String, e: RefStoreError, error: GitError)
    requires
        call_ensures(ref_update_error, (name, e), error),
    ensures
        match e {
            RefStoreError::Conflict { expected, actual } => error@
                == (GitErrorView::ConcurrentCommit { ref_name: name@, expected, actual }),
            other => error@ == GitErrorView::RefStore(other@),
        },
{
}

} // verus!
