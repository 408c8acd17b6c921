//! What the values of errors, targets and records stand for.

use crate::commit::CommitContext;
use crate::error::{
    is_not_found, FsError, FsErrorView, GitError, GitErrorView, ObjectStoreError,
    ObjectStoreErrorView, RefStoreError, RefStoreErrorView,
};
use crate::ignore::{IgnoreLine, IgnoreLineView};
use crate::index_store::{IndexStoreError, IndexStoreErrorView};
use crate::object::{Actor, CommitMeta};
use crate::resolve::{RefTarget, RefTargetView};
use crate::s3::{ConditionView, PutCondition};
use crate::setup::{SetupError, SetupErrorView};
use crate::tree_builder::TreeEntry;
use vstd::prelude::*;

verus! {

/// An error of a store is told by its kind and by what it holds.
pub proof fn law_store_errors(f: FsError, r: RefStoreError, o: ObjectStoreError, i: IndexStoreError)
    ensures
        match f@ {
            FsErrorView::NotFound(t) => f matches FsError::NotFound(x) && x@ == t,
            FsErrorView::Failed(t) => f matches FsError::Failed(x) && x@ == t,
        },
        match r@ {
            RefStoreErrorView::NotFound(t) => r matches RefStoreError::NotFound(x) && x@ == t,
            RefStoreErrorView::Conflict { expected, actual } => r
                == (RefStoreError::Conflict { expected, actual }),
            RefStoreErrorView::InvalidName(t) => r matches RefStoreError::InvalidName(x) && x@ == t,
            RefStoreErrorView::Io(t) => r matches RefStoreError::Io(x) && x@ == t,
            RefStoreErrorView::Backend(t) => r matches RefStoreError::Backend(x) && x@ == t,
        },
        match o@ {
            ObjectStoreErrorView::NotFound(x) => o == ObjectStoreError::NotFound(x),
            ObjectStoreErrorView::Io(t) => o matches ObjectStoreError::Io(x) && x@ == t,
            ObjectStoreErrorView::Zlib(t) => o matches ObjectStoreError::Zlib(x) && x@ == t,
            ObjectStoreErrorView::OidMismatch { expected, actual } => o
                == (ObjectStoreError::OidMismatch { expected, actual }),
            ObjectStoreErrorView::Backend(t) => o matches ObjectStoreError::Backend(x) && x@ == t,
        },
        match i@ {
            IndexStoreErrorView::Io(t) => i matches IndexStoreError::Io(x) && x@ == t,
            IndexStoreErrorView::Decode(t) => i matches IndexStoreError::Decode(x) && x@ == t,
            IndexStoreErrorView::InvalidBranch(t) => i matches IndexStoreError::InvalidBranch(x)
                && x@ == t,
            IndexStoreErrorView::Backend(t) => i matches IndexStoreError::Backend(x) && x@ == t,
        },
{
}

/// An error of the service is told by its kind and by what it holds.
pub proof fn law_service_errors(e: GitError)
    ensures
        match e@ {
            GitErrorView::RefStore(v) => e matches GitError::RefStore(x) && x@ == v,
            GitErrorView::ObjectStore(v) => e matches GitError::ObjectStore(x) && x@ == v,
            GitErrorView::Vfs(v) => e matches GitError::Vfs(x) && x@ == v,
            GitErrorView::ConcurrentCommit { ref_name, expected, actual } => {
                e matches GitError::ConcurrentCommit { ref_name: n, expected: x, actual: y } && n@
                    == ref_name && x == expected && y == actual
            },
            GitErrorView::PathNotFound(t) => e matches GitError::PathNotFound(x) && x@ == t,
            GitErrorView::PathIsDirectory(t) => e matches GitError::PathIsDirectory(x) && x@ == t,
            GitErrorView::CorruptedObject(t) => e matches GitError::CorruptedObject(x) && x@ == t,
            GitErrorView::InvalidProjectDir(t) => e matches GitError::InvalidProjectDir(x) && x@
                == t,
            GitErrorView::SubtreeNotFoundInCommit { project_dir, commit } => {
                e matches GitError::SubtreeNotFoundInCommit { project_dir: d, commit: c } && d@
                    == project_dir && c == commit
            },
            GitErrorView::OidPrefixNotFound { prefix } => e matches GitError::OidPrefixNotFound {
                prefix: p,
            } && p@ == prefix,
            GitErrorView::AmbiguousOid { prefix, count, candidates } => {
                e matches GitError::AmbiguousOid { prefix: p, count: n, candidates: c } && p@
                    == prefix && n == count && c@ == candidates
            },
            GitErrorView::InvalidIgnoreFile { path, reason } => {
                e matches GitError::InvalidIgnoreFile { path: p, reason: r } && p@ == path && r@
                    == reason
            },
            GitErrorView::IgnoreFileTooLarge { path, size, max } => {
                e matches GitError::IgnoreFileTooLarge { path: p, size: s, max: m } && p@ == path
                    && s == size && m == max
            },
            GitErrorView::Other(t) => e matches GitError::Other(x) && x@ == t,
        },
{
}

/// A target, a condition, a line and an error of the setup are told by their kind and by
/// what they hold.
pub proof fn law_kinds(t: RefTarget, c: PutCondition, l: IgnoreLine, s: SetupError)
    ensures
        match t@ {
            RefTargetView::Oid(o) => t == RefTarget::Oid(o),
            RefTargetView::Abbreviated(d) => t matches RefTarget::Abbreviated(x) && x@ == d,
            RefTargetView::Name(n) => t matches RefTarget::Name(x) && x@ == n,
        },
        match c@ {
            ConditionView::IfMatch(tag) => c matches PutCondition::IfMatch(x) && x@ == tag,
            ConditionView::IfNoneMatch => c is IfNoneMatch,
        },
        match l@ {
            IgnoreLineView::Blank => l is Blank,
            IgnoreLineView::Negation(d) => l matches IgnoreLine::Negation(x) && x@ == d,
            IgnoreLineView::Pattern(d) => l matches IgnoreLine::Pattern(x) && x@ == d,
        },
        match s@ {
            SetupErrorView::Value(d) => s matches SetupError::Value(x) && x@ == d,
            SetupErrorView::Runtime(d) => s matches SetupError::Runtime(x) && x@ == d,
        },
{
}

/// Only the error that nothing stands at a path says so.
pub proof fn law_not_found(e: FsError, yes: bool)
    requires
        call_ensures(is_not_found, (&e,), yes),
    ensures
        yes <==> e is NotFound,
{
}

/// A record stands for the values of its fields.
pub proof fn law_records(a: Actor, m: CommitMeta, c: CommitContext, e: TreeEntry)
    ensures
        a@.name == a.name@,
        a@.email == a.email@,
        a@.time_seconds == a.time_seconds,
        a@.tz_offset_seconds == a.tz_offset_seconds,
        m@.tree == m.tree,
        m@.parents == m.parents@,
        m@.author == m.author@,
        m@.committer == m.committer@,
        m@.message == m.message@,
        c@.account == c.account@,
        c@.ref_name == c.ref_name@,
        c@.message == c.message@,
        c@.author_name == c.author_name@,
        c@.author_email == c.author_email@,
        e@.mode == e.mode,
        e@.filename == e.filename@,
        e@.oid == e.oid,
{
}

} // verus!
