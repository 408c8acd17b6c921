//! The course of a restore. Each type is a point at which it waits for something
//! from outside; the method that takes it leads to the next point.

use crate::commit::{absolute, branch_ref, ref_update_error, update_error};
use crate::diff::{
    compute_subtree_diff, is_diff, is_prune_order, project_dir_error, prune_candidates, quoted,
    validate_project_dir, RestoreDiff,
};
use crate::error::{FsError, GitError, GitErrorView, RefStoreError};
use crate::object::{commit_of, load_commit_meta, CommitMetaView};
use crate::oid::{hex, ObjectId};
use crate::resolve::{resolve_ref, target_of, RefTarget};
use crate::sorted::is_beneath;
use crate::text::{begins, cat2, cat3, cat4, views};
use crate::tree_builder::{law_upsert_subtree, on_the_way, EditorModel, EntryKind, TreeEditor};
use crate::types::{RestoreRequest, RestoreResponse};
use vstd::prelude::*;

verus! {

/// What a restore is about.
#[derive(Debug)]
pub struct RestoreContext {
    pub account: String,
    /// The full name of the branch.
    pub ref_name: String,
    pub project_dir: String,
    pub dry_run: bool,
    pub message: Option<String>,
    pub author_name: String,
    pub author_email: String,
}

/// Waits for the commit that `target` names: the source.
#[derive(Debug)]
pub struct RestoreStart {
    pub context: RestoreContext,
    pub target: RefTarget,
}

/// Waits for the head of the branch: the ref `context.ref_name`.
#[derive(Debug)]
pub struct RestoreHead {
    pub context: RestoreContext,
    pub source: ObjectId,
}

/// Waits for the stored commit `source`.
#[derive(Debug)]
pub struct RestoreSource {
    pub context: RestoreContext,
    pub source: ObjectId,
    pub head: ObjectId,
}

/// Waits for the stored commit `head`.
#[derive(Debug)]
pub struct RestoreParent {
    pub context: RestoreContext,
    pub source: ObjectId,
    pub head: ObjectId,
    pub source_tree: ObjectId,
}

/// Waits for the entry at `context.project_dir` in the stored tree `source_tree`.
#[derive(Debug)]
pub struct RestoreTrees {
    pub context: RestoreContext,
    pub source: ObjectId,
    pub head: ObjectId,
    pub source_tree: ObjectId,
    pub head_tree: ObjectId,
}

/// Waits for the entry at `context.project_dir` in the stored tree `head_tree`.
#[derive(Debug)]
pub struct RestoreSubtree {
    pub context: RestoreContext,
    pub source: ObjectId,
    pub head: ObjectId,
    pub source_subtree: ObjectId,
    pub head_tree: ObjectId,
}

/// Waits for the files of the stored tree `source_subtree`, and for those of
/// `head_subtree` where there is one.
#[derive(Debug)]
pub struct RestoreFiles {
    pub context: RestoreContext,
    pub source: ObjectId,
    pub head: ObjectId,
    pub source_subtree: ObjectId,
    pub head_subtree: Option<ObjectId>,
    pub head_tree: ObjectId,
}

/// Waits for the files to be written and deleted and the directories to be
/// pruned, and then for an editor of the stored tree `head_tree`.
#[derive(Debug)]
pub struct RestoreApply {
    pub context: RestoreContext,
    pub source: ObjectId,
    pub head: ObjectId,
    pub source_subtree: ObjectId,
    pub head_tree: ObjectId,
    pub diff: RestoreDiff,
}

/// Waits for the tree of `editor` to be stored.
#[derive(Debug)]
pub struct RestoreWrite {
    pub context: RestoreContext,
    pub source: ObjectId,
    pub head: ObjectId,
    pub diff: RestoreDiff,
    pub editor: TreeEditor,
}

/// Waits for a commit with these fields to be stored: the author is also the
/// committer, and `context` names them.
#[derive(Debug)]
pub struct RestoreRecord {
    pub context: RestoreContext,
    pub source: ObjectId,
    pub head: ObjectId,
    pub diff: RestoreDiff,
    pub tree: ObjectId,
    pub parents: Vec<ObjectId>,
    pub message: String,
}

/// Waits for the ref `context.ref_name` to be moved from `head` to `new`.
#[derive(Debug)]
pub struct RestoreUpdate {
    pub context: RestoreContext,
    pub source: ObjectId,
    pub head: ObjectId,
    pub diff: RestoreDiff,
    pub new: ObjectId,
}

/// Where a restore stands once the difference is known.
#[derive(Debug)]
pub enum RestoreDecision {
    /// Nothing is to be done.
    Done(RestoreResponse),
    /// The difference is to be carried out.
    Apply(RestoreApply),
}

/// `result` is the beginning of the restore that `req` asks for, or the error for
/// its directory or, where that is proper, its source.
pub open spec fn begins_restore(
    req: RestoreRequest,
    result: Result<RestoreStart, GitError>,
) -> bool {
    let error = project_dir_error(req.project_dir@, quoted(req.project_dir@));
    match result {
        Ok(start) => {
            &&& error is None
            &&& target_of(req.source_commit@, Ok(start.target@))
            &&& start.context.account == req.account
            &&& start.context.ref_name@ == branch_ref(req.branch@)
            &&& start.context.project_dir == req.project_dir
            &&& start.context.dry_run == req.dry_run
            &&& start.context.message == req.message
            &&& start.context.author_name == req.author_name
            &&& start.context.author_email == req.author_email
        },
        Err(e) => if error is Some {
            e@ == GitErrorView::InvalidProjectDir(error->0)
        } else {
            target_of(req.source_commit@, Err(e@))
        },
    }
}

impl RestoreStart {
    /// The beginning of a restore.
    pub fn new(req: RestoreRequest) -> (result: Result<RestoreStart, GitError>)
        ensures
            begins_restore(req, result),
    {
        match validate_project_dir(req.project_dir.as_str()) {
            Err(e) => {
                return Err(e);
            },
            Ok(()) => {},
        }
        let ref_name = cat2("refs/heads/", req.branch.as_str());
        match resolve_ref(req.source_commit.as_str()) {
            Err(e) => Err(e),
            Ok(target) => Ok(
                RestoreStart {
                    context: RestoreContext {
                        account: req.account,
                        ref_name,
                        project_dir: req.project_dir,
                        dry_run: req.dry_run,
                        message: req.message,
                        author_name: req.author_name,
                        author_email: req.author_email,
                    },
                    target,
                },
            ),
        }
    }

    /// Goes on with the commit that the target names.
    pub fn resolved(self, source: Result<ObjectId, GitError>) -> (result: Result<
        RestoreHead,
        GitError,
    >)
        ensures
            match (source, result) {
                (Ok(oid), Ok(r)) => r.source == oid && r.context == self.context,
                (Err(e), Err(r)) => r == e,
                _ => false,
            },
    {
        match source {
            Ok(source) => Ok(RestoreHead { context: self.context, source }),
            Err(e) => Err(e),
        }
    }
}

impl RestoreHead {
    /// Goes on with what the read of the branch gave: a branch that does not
    /// exist is an error.
    pub fn head(self, read: Result<ObjectId, RefStoreError>) -> (result: Result<
        RestoreSource,
        GitError,
    >)
        ensures
            match (read, result) {
                (Ok(oid), Ok(r)) => r.head == oid && r.source == self.source && r.context
                    == self.context,
                (Err(e), Err(r)) => r@ == GitErrorView::RefStore(e@),
                _ => false,
            },
    {
        match read {
            Ok(head) => Ok(RestoreSource { context: self.context, source: self.source, head }),
            Err(e) => Err(GitError::RefStore(e)),
        }
    }
}

/// The tree of a stored commit.
fn tree_of(read: Result<Vec<u8>, GitError>) -> (result: Result<ObjectId, GitError>)
    ensures
        reads_tree(read, result),
{
    match read {
        Err(e) => Err(e),
        Ok(raw) => match load_commit_meta(raw.as_slice()) {
            Err(e) => Err(e),
            Ok(meta) => Ok(meta.tree),
        },
    }
}

/// `result` is the tree of the stored commit, or the error with which it could
/// not be read.
pub open spec fn reads_tree(
    read: Result<Vec<u8>, GitError>,
    result: Result<ObjectId, GitError>,
) -> bool {
    match (read, result) {
        (Err(e), Err(r)) => r == e,
        (Ok(raw), Err(r)) => commit_of(raw@) == Err::<CommitMetaView, _>(r@),
        (Ok(raw), Ok(tree)) => commit_of(raw@) matches Ok(meta) && meta.tree == tree,
        _ => false,
    }
}

impl RestoreSource {
    /// Goes on with the stored form of the source commit.
    pub fn source_object(self, read: Result<Vec<u8>, GitError>) -> (result: Result<
        RestoreParent,
        GitError,
    >)
        ensures
            match result {
                Ok(r) => reads_tree(read, Ok(r.source_tree)) && r.source == self.source && r.head
                    == self.head && r.context == self.context,
                Err(e) => reads_tree(read, Err(e)),
            },
    {
        match tree_of(read) {
            Err(e) => Err(e),
            Ok(source_tree) => Ok(
                RestoreParent {
                    context: self.context,
                    source: self.source,
                    head: self.head,
                    source_tree,
                },
            ),
        }
    }
}

impl RestoreParent {
    /// Goes on with the stored form of the commit at the head.
    pub fn head_object(self, read: Result<Vec<u8>, GitError>) -> (result: Result<
        RestoreTrees,
        GitError,
    >)
        ensures
            match result {
                Ok(r) => reads_tree(read, Ok(r.head_tree)) && r.source == self.source && r.head
                    == self.head && r.source_tree == self.source_tree && r.context == self.context,
                Err(e) => reads_tree(read, Err(e)),
            },
    {
        match tree_of(read) {
            Err(e) => Err(e),
            Ok(head_tree) => Ok(
                RestoreTrees {
                    context: self.context,
                    source: self.source,
                    head: self.head,
                    source_tree: self.source_tree,
                    head_tree,
                },
            ),
        }
    }
}

impl RestoreTrees {
    /// Goes on with the entry in the tree of the source, which has to be a
    /// directory.
    pub fn source_entry(self, entry: Result<Option<(ObjectId, EntryKind)>, GitError>) -> (result:
        Result<RestoreSubtree, GitError>)
        ensures
            match (entry, result) {
                (Err(e), Err(r)) => r == e,
                (Ok(Some((oid, EntryKind::Tree))), Ok(r)) => r.source_subtree == oid && r.source
                    == self.source && r.head == self.head && r.head_tree == self.head_tree
                    && r.context == self.context,
                (Ok(found), Err(r)) => !(found matches Some((_, EntryKind::Tree))) && r@
                    == GitErrorView::SubtreeNotFoundInCommit {
                    project_dir: self.context.project_dir@,
                    commit: self.source,
                },
                _ => false,
            },
    {
        match entry {
            Err(e) => Err(e),
            Ok(Some((source_subtree, EntryKind::Tree))) => Ok(
                RestoreSubtree {
                    context: self.context,
                    source: self.source,
                    head: self.head,
                    source_subtree,
                    head_tree: self.head_tree,
                },
            ),
            Ok(_) => Err(
                GitError::SubtreeNotFoundInCommit {
                    project_dir: self.context.project_dir,
                    commit: self.source,
                },
            ),
        }
    }
}

/// The directory that an entry is, if it is one.
pub open spec fn as_directory(entry: Option<(ObjectId, EntryKind)>) -> Option<ObjectId> {
    match entry {
        Some((oid, EntryKind::Tree)) => Some(oid),
        _ => None,
    }
}

impl RestoreSubtree {
    /// Goes on with the entry in the tree of the head. Where it is no directory,
    /// every file is written afresh.
    pub fn head_entry(self, entry: Result<Option<(ObjectId, EntryKind)>, GitError>) -> (result:
        Result<RestoreFiles, GitError>)
        ensures
            match (entry, result) {
                (Err(e), Err(r)) => r == e,
                (Ok(found), Ok(r)) => r.head_subtree == as_directory(found) && r.source_subtree
                    == self.source_subtree && r.source == self.source && r.head == self.head
                    && r.head_tree == self.head_tree && r.context == self.context,
                _ => false,
            },
    {
        let head_subtree = match entry {
            Err(e) => {
                return Err(e);
            },
            Ok(Some((oid, EntryKind::Tree))) => Some(oid),
            Ok(_) => None,
        };
        Ok(
            RestoreFiles {
                context: self.context,
                source: self.source,
                head: self.head,
                source_subtree: self.source_subtree,
                head_subtree,
                head_tree: self.head_tree,
            },
        )
    }
}

impl RestoreFiles {
    /// The files of the head that count: none where it has no such directory.
    pub open spec fn head_list(self, head: Seq<(String, ObjectId)>) -> Seq<(String, ObjectId)> {
        if self.head_subtree is Some {
            head
        } else {
            Seq::empty()
        }
    }

    /// `decision` is what the files of the two directories lead to: a dry run only
    /// reports the difference, before anything else; where there is none, nothing is
    /// to be done.
    pub open spec fn decides(
        self,
        source: Seq<(String, ObjectId)>,
        head: Seq<(String, ObjectId)>,
        decision: RestoreDecision,
    ) -> bool {
        match decision {
            RestoreDecision::Done(RestoreResponse::DryRun { diff, head: h, source: s }) => {
                &&& self.context.dry_run
                &&& is_diff(source, self.head_list(head), diff)
                &&& h == self.head
                &&& s == self.source
            },
            RestoreDecision::Done(RestoreResponse::Noop { head: h, source: s }) => {
                &&& !self.context.dry_run
                &&& exists|diff: RestoreDiff| #[trigger]
                    is_diff(source, self.head_list(head), diff) && diff.to_write@.len() == 0
                        && diff.to_delete@.len() == 0
                &&& h == self.head
                &&& s == self.source
            },
            RestoreDecision::Apply(a) => {
                &&& !self.context.dry_run
                &&& is_diff(source, self.head_list(head), a.diff)
                &&& a.diff.to_write@.len() > 0 || a.diff.to_delete@.len() > 0
                &&& a.context == self.context
                &&& a.source == self.source
                &&& a.head == self.head
                &&& a.source_subtree == self.source_subtree
                &&& a.head_tree == self.head_tree
            },
            _ => false,
        }
    }

    /// Goes on with the files of the two directories, whose paths are relative
    /// to them.
    pub fn flattened(self, source: Vec<(String, ObjectId)>, head: Vec<(String, ObjectId)>) -> (
        decision: RestoreDecision)
        ensures
            self.decides(source@, head@, decision),
    {
        let none: Vec<(String, ObjectId)> = Vec::new();
        let diff = if self.head_subtree.is_some() {
            compute_subtree_diff(source.as_slice(), head.as_slice())
        } else {
            compute_subtree_diff(source.as_slice(), none.as_slice())
        };
        assert(is_diff(source@, self.head_list(head@), diff)) by {
            assert(none@ =~= Seq::<(String, ObjectId)>::empty());
        }
        if self.context.dry_run {
            return RestoreDecision::Done(
                RestoreResponse::DryRun { diff, head: self.head, source: self.source },
            );
        }
        if diff.to_write.len() == 0 && diff.to_delete.len() == 0 {
            return RestoreDecision::Done(
                RestoreResponse::Noop { head: self.head, source: self.source },
            );
        }
        RestoreDecision::Apply(
            RestoreApply {
                context: self.context,
                source: self.source,
                head: self.head,
                source_subtree: self.source_subtree,
                head_tree: self.head_tree,
                diff,
            },
        )
    }
}

/// A path in a directory.
pub open spec fn in_dir(dir: Seq<char>, path: Seq<char>) -> Seq<char> {
    dir + "/"@ + path
}

/// The paths, each in the directory.
pub open spec fn all_in_dir(dir: Seq<char>, paths: Seq<Seq<char>>) -> Seq<Seq<char>> {
    paths.map_values(|p: Seq<char>| in_dir(dir, p))
}

/// The paths of the files to write.
pub open spec fn write_paths(diff: RestoreDiff) -> Seq<Seq<char>> {
    diff.to_write@.map_values(|e: (String, ObjectId)| e.0@)
}

fn put_in_dir(dir: &str, paths: &Vec<String>) -> (list: Vec<String>)
    ensures
        views(list@) == all_in_dir(dir@, views(paths@)),
{
    let mut list: Vec<String> = Vec::new();
    let ghost all = all_in_dir(dir@, views(paths@));
    let mut i: usize = 0;
    assert(views(list@) =~= all.take(0));
    while i < paths.len()
        invariant
            all == all_in_dir(dir@, views(paths@)),
            i <= paths@.len(),
            views(list@) == all.take(i as int),
        decreases paths.len() - i,
    {
        let ghost before = list@;
        list.push(cat3(dir, "/", paths[i].as_str()));
        i = i + 1;
        assert(views(list@) =~= views(before).push(in_dir(dir@, paths@[i - 1]@)));
        assert(all.take(i as int) =~= all.take(i - 1).push(all[i - 1]));
    }
    assert(all.take(i as int) =~= all);
    list
}

fn paths_to_write(diff: &RestoreDiff) -> (list: Vec<String>)
    ensures
        views(list@) == write_paths(*diff),
{
    let mut list: Vec<String> = Vec::new();
    let ghost all = write_paths(*diff);
    let mut i: usize = 0;
    assert(views(list@) =~= all.take(0));
    while i < diff.to_write.len()
        invariant
            all == write_paths(*diff),
            i <= diff.to_write@.len(),
            views(list@) == all.take(i as int),
        decreases diff.to_write.len() - i,
    {
        let ghost before = list@;
        list.push(diff.to_write[i].0.clone());
        i = i + 1;
        assert(views(list@) =~= views(before).push(diff.to_write@[i - 1].0@));
        assert(all.take(i as int) =~= all.take(i - 1).push(all[i - 1]));
    }
    assert(all.take(i as int) =~= all);
    list
}

/// The outcome of a deletion: that nothing stands at the path is no failure.
pub fn delete_outcome(removed: Result<(), FsError>) -> (result: Result<(), GitError>)
    ensures
        match (removed, result) {
            (Ok(()), Ok(())) => true,
            (Err(FsError::NotFound(_)), Ok(())) => true,
            (Err(e), Err(r)) => !(e is NotFound) && r@ == GitErrorView::Vfs(e@),
            _ => false,
        },
{
    match removed {
        Ok(()) => Ok(()),
        Err(FsError::NotFound(_)) => Ok(()),
        Err(e) => Err(GitError::Vfs(e)),
    }
}

/// Whether a directory is pruned, given how many entries it has: one that is
/// missing or no directory is not.
pub fn prune_decision(entries: Result<usize, FsError>) -> (prune: bool)
    ensures
        prune == (entries == Ok::<usize, FsError>(0)),
{
    match entries {
        Ok(n) => n == 0,
        Err(_) => false,
    }
}

impl RestoreApply {
    /// Where the directory stands in the file system.
    pub open spec fn base(self) -> Seq<char> {
        absolute(self.context.account@, self.context.project_dir@)
    }

    fn base_path(&self) -> (path: String)
        ensures
            path@ == self.base(),
    {
        cat4("/local/", self.context.account.as_str(), "/", self.context.project_dir.as_str())
    }

    /// Where the files to write stand in the file system: one for each entry of
    /// `diff.to_write`, in its order.
    pub fn writes(&self) -> (paths: Vec<String>)
        ensures
            views(paths@) == all_in_dir(self.base(), write_paths(self.diff)),
    {
        put_in_dir(self.base_path().as_str(), &paths_to_write(&self.diff))
    }

    /// Where the files to delete stand in the file system.
    pub fn deletes(&self) -> (paths: Vec<String>)
        ensures
            views(paths@) == all_in_dir(self.base(), views(self.diff.to_delete@)),
    {
        put_in_dir(self.base_path().as_str(), &self.diff.to_delete)
    }

    /// Where the directories stand that the deletions may have left empty, in
    /// the order in which they are to be pruned. All of them lie in the directory
    /// that is restored.
    pub fn prunes(&self) -> (paths: Vec<String>)
        ensures
            exists|dirs: Seq<Seq<char>>| #[trigger]
                is_prune_order(views(self.diff.to_delete@), dirs) && views(paths@) == all_in_dir(
                    self.base(),
                    dirs,
                ),
    {
        let dirs = prune_candidates(&self.diff.to_delete);
        assert(is_prune_order(views(self.diff.to_delete@), views(dirs@)));
        put_in_dir(self.base_path().as_str(), &dirs)
    }

    /// Goes on with an editor of the tree at the head, once the file system has
    /// been dealt with: the directory in it becomes that of the source.
    pub fn loaded(self, editor: Result<TreeEditor, GitError>) -> (result: Result<
        RestoreWrite,
        GitError,
    >)
        ensures
            match editor {
                Err(e) => result == Err::<RestoreWrite, GitError>(e),
                Ok(editor) => match (
                    editor@.spliced(self.context.project_dir@, self.source_subtree),
                    result,
                ) {
                    ((after, Ok(())), Ok(w)) => w.editor@ == after && w.context == self.context
                        && w.source == self.source && w.head == self.head && w.diff == self.diff,
                    ((_, Err(e)), Err(r)) => r@ == e,
                    _ => false,
                },
            },
    {
        let mut editor = match editor {
            Ok(editor) => editor,
            Err(e) => {
                return Err(e);
            },
        };
        match editor.upsert_subtree(self.context.project_dir.as_str(), self.source_subtree) {
            Err(e) => Err(e),
            Ok(()) => Ok(
                RestoreWrite {
                    context: self.context,
                    source: self.source,
                    head: self.head,
                    diff: self.diff,
                    editor,
                },
            ),
        }
    }
}

/// The message of the new commit, where the request gives none.
pub open spec fn default_message(project_dir: Seq<char>, source: ObjectId) -> Seq<char> {
    "restore "@ + project_dir + " from "@ + hex(source.bytes@).take(12)
}

/// The message of the new commit.
pub open spec fn restore_message(context: RestoreContext, source: ObjectId) -> Seq<char> {
    match context.message {
        Some(message) => message@,
        None => default_message(context.project_dir@, source),
    }
}

impl RestoreWrite {
    /// Goes on with the identifier of the stored tree. The parent of the new
    /// commit is the head, not the source.
    pub fn tree_written(self, tree: Result<ObjectId, GitError>) -> (result: Result<
        RestoreRecord,
        GitError,
    >)
        ensures
            match (tree, result) {
                (Ok(tree), Ok(r)) => r.tree == tree && r.parents@ == seq![self.head] && r.message@
                    == restore_message(self.context, self.source) && r.context == self.context
                    && r.source == self.source && r.head == self.head && r.diff == self.diff,
                (Err(e), Err(r)) => r == e,
                _ => false,
            },
    {
        let tree = match tree {
            Ok(tree) => tree,
            Err(e) => {
                return Err(e);
            },
        };
        let message = match &self.context.message {
            Some(message) => message.clone(),
            None => {
                let digits = self.source.to_hex();
                let short = digits.as_str().substring_char(0, 12);
                assert(short@ =~= hex(self.source.bytes@).take(12));
                cat4("restore ", self.context.project_dir.as_str(), " from ", short)
            },
        };
        let mut parents: Vec<ObjectId> = Vec::new();
        parents.push(self.head);
        assert(parents@ =~= seq![self.head]);
        Ok(
            RestoreRecord {
                context: self.context,
                source: self.source,
                head: self.head,
                diff: self.diff,
                tree,
                parents,
                message,
            },
        )
    }
}

impl RestoreRecord {
    /// Goes on with the identifier of the stored commit.
    pub fn commit_written(self, commit: Result<ObjectId, GitError>) -> (result: Result<
        RestoreUpdate,
        GitError,
    >)
        ensures
            match (commit, result) {
                (Ok(oid), Ok(u)) => u.new == oid && u.head == self.head && u.source == self.source
                    && u.diff == self.diff && u.context == self.context,
                (Err(e), Err(r)) => r == e,
                _ => false,
            },
    {
        match commit {
            Ok(new) => Ok(
                RestoreUpdate {
                    context: self.context,
                    source: self.source,
                    head: self.head,
                    diff: self.diff,
                    new,
                },
            ),
            Err(e) => Err(e),
        }
    }
}

impl RestoreUpdate {
    /// Ends with the outcome of the update of the branch.
    pub fn updated(self, update: Result<(), RefStoreError>) -> (result: Result<
        RestoreResponse,
        GitError,
    >)
        ensures
            match (update, result) {
                (Err(e), Err(r)) => r@ == update_error(self.context.ref_name@, e@),
                (
                    Ok(()),
                    Ok(
                        RestoreResponse::Applied {
                            new_commit_oid,
                            source_commit,
                            parent_commit,
                            written,
                            deleted,
                            unchanged,
                            written_paths,
                            deleted_paths,
                        },
                    ),
                ) => {
                    &&& new_commit_oid == self.new
                    &&& source_commit == self.source
                    &&& parent_commit == self.head
                    &&& written == self.diff.to_write@.len()
                    &&& deleted == self.diff.to_delete@.len()
                    &&& unchanged == self.diff.unchanged@.len()
                    &&& views(written_paths@) == all_in_dir(
                        self.context.project_dir@,
                        write_paths(self.diff),
                    )
                    &&& views(deleted_paths@) == all_in_dir(
                        self.context.project_dir@,
                        views(self.diff.to_delete@),
                    )
                },
                _ => false,
            },
    {
        match update {
            Err(e) => Err(ref_update_error(self.context.ref_name, e)),
            Ok(()) => {
                let dir = self.context.project_dir.as_str();
                Ok(
                    RestoreResponse::Applied {
                        new_commit_oid: self.new,
                        source_commit: self.source,
                        parent_commit: self.head,
                        written: self.diff.to_write.len(),
                        deleted: self.diff.to_delete.len(),
                        unchanged: self.diff.unchanged.len(),
                        written_paths: put_in_dir(dir, &paths_to_write(&self.diff)),
                        deleted_paths: put_in_dir(dir, &self.diff.to_delete),
                    },
                )
            },
        }
    }
}

// ---- Laws ------------------------------------------------------------------

/// What a restore writes, deletes or prunes lies in the directory.
pub proof fn law_restore_stays_in_directory(dir: Seq<char>, paths: Seq<Seq<char>>, at: int)
    requires
        0 <= at < paths.len(),
    ensures
        begins(all_in_dir(dir, paths)[at], dir + "/"@),
        all_in_dir(dir, paths)[at].skip((dir + "/"@).len() as int) == paths[at],
{
    let path = all_in_dir(dir, paths)[at];
    let front = dir + "/"@;
    assert(path == front + paths[at]);
    assert(path.subrange(0, front.len() as int) =~= front);
    assert(path.skip(front.len() as int) =~= paths[at]);
}

/// In the tree of a restore the directory is that of the source, and every entry
/// that is neither in the directory nor on the way to it is as at the head.
pub proof fn law_restore_changes_only_the_directory(
    head: EditorModel,
    dir: Seq<char>,
    source: ObjectId,
    other: Seq<char>,
)
    requires
        head.spliced(dir, source).1 is Ok,
    ensures
        ({
            let after = head.spliced(dir, source).0;
            &&& after.entry(dir) matches Some(node)
            &&& node.mode == EntryKind::Tree
            &&& node.oid == source
            &&& !is_beneath(other, dir) && !on_the_way(other, dir) ==> after.entry(other)
                == head.entry(other)
        }),
{
    law_upsert_subtree(head, dir, source, other);
}

} // verus!
