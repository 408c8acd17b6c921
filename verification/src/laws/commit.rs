//! What the steps of a commit are for.

use crate::commit::{
    absolute_path, CommitBase, CommitFinish, CommitHead, CommitListing, CommitParent, CommitRecord,
    CommitScope, CommitScoped, CommitStart, CommitTree, CommitUpdate, CommitWork, CommitWrite,
    PathState,
};
use crate::error::{FsError, GitError, GitErrorView, RefStoreError};
use crate::ignore::pattern_ignores;
use crate::laws::ignore::{file_gives, lemma_file_gives};
use crate::laws::names::{kept_by_runtime, law_on_the_way, lemma_pruned};
use crate::laws::objects::has_header;
use crate::laws::text::{holds_at, lemma_holds_at};
use crate::object::{commit_fields, ObjectKind};
use crate::oid::ObjectId;
use crate::text::{views, without_slashes};
use crate::tree_builder::{
    blocks, law_remove, law_upsert, law_upsert_refused, on_the_way, path_error, EditorModel,
    EntryKind, TreeEditor,
};
use crate::types::{CommitRequest, CommitResponse};
use vstd::prelude::*;

verus! {

// ---- The beginning ---------------------------------------------------------

/// A commit begins with what was asked for, the branch by its full name.
pub proof fn law_commit_begins(req: CommitRequest, start: CommitStart)
    requires
        call_ensures(CommitStart::new, (req,), start),
    ensures
        start.context.account@ == req.account@,
        start.context.ref_name@ == "refs/heads/"@ + req.branch@,
        start.context.message@ == req.message@,
        start.context.author_name@ == req.author_name@,
        start.context.author_email@ == req.author_email@,
        start.paths == req.paths,
{
}

/// A branch that exists is gone on from its head; one that does not begins with the
/// empty tree and has no head. Any other failure to read it is an error.
pub proof fn law_commit_finds_the_head(
    start: CommitStart,
    read: Result<ObjectId, RefStoreError>,
    result: Result<CommitHead, GitError>,
)
    requires
        call_ensures(CommitStart::head, (start, read), result),
    ensures
        match read {
            Ok(oid) => result matches Ok(CommitHead::Parent(p)) && p.head == oid && p.paths
                == start.paths && p.context == start.context,
            Err(RefStoreError::NotFound(_)) => result matches Ok(CommitHead::Root(b)) && {
                &&& b.prev_head is None
                &&& b.editor@.root == Map::<Seq<char>, crate::tree_builder::Node>::empty()
                &&& b.editor@.subtrees == Map::<Seq<char>, crate::tree_builder::Listing>::empty()
                &&& b.paths == start.paths
                &&& b.context == start.context
            },
            Err(r) => result matches Err(e) && e@ == GitErrorView::RefStore(r@),
        },
{
}

/// The tree to go on from is that of the commit at the head, and the editor is the one
/// that was loaded of it.
pub proof fn law_commit_goes_on_from_the_head(
    parent: CommitParent,
    raw: Vec<u8>,
    tree: CommitTree,
    size: int,
    payload: int,
    editor: TreeEditor,
    base: CommitBase,
)
    requires
        call_ensures(CommitParent::commit_object, (parent, Ok(raw)), Ok(tree)),
        has_header(raw@, ObjectKind::Commit, size, payload),
        call_ensures(CommitTree::loaded, (tree, Ok(editor)), Ok(base)),
    ensures
        commit_fields(raw@.skip(payload)) matches Ok(meta) && tree.tree == meta.tree,
        tree.head == parent.head,
        base.prev_head == Some(parent.head),
        base.editor == editor,
        base.paths == parent.paths,
        base.context == parent.context,
{
    crate::laws::objects::lemma_header(raw@, ObjectKind::Commit, size, payload);
}

/// A path of an account stands below the directory of the account, and so does its
/// ignore file.
pub proof fn law_absolute_paths(
    account: &str,
    path: &str,
    text: String,
    base: CommitBase,
    ignore: String,
)
    requires
        call_ensures(absolute_path, (account, path), text),
        call_ensures(CommitBase::ignore_path, (&base,), ignore),
    ensures
        text@ == "/local/"@ + account@ + "/"@ + path@,
        ignore@ == "/local/"@ + base.context.account@ + "/"@ + ".ovgitignore"@,
{
}

/// The patterns of a commit.
pub open spec fn patterns_of_scope(scope: CommitScope) -> Option<Seq<Seq<char>>> {
    match scope {
        CommitScope::Scoped(c) => c.matcher@,
        CommitScope::Full(l) => l.matcher@,
    }
}

/// Without an ignore file nothing is excluded, and a failure to read it is an error.
/// Which paths are looked at is as the request says, and nothing else changes.
pub proof fn law_commit_reads_the_rules(
    base: CommitBase,
    read: Result<Vec<u8>, FsError>,
    result: Result<CommitScope, GitError>,
    lines: Seq<Seq<char>>,
    cores: Seq<Seq<char>>,
)
    requires
        call_ensures(CommitBase::ignore_file, (base, read), result),
    ensures
        read matches Ok(bytes) ==> file_gives(
            bytes@,
            lines,
            cores,
            match result {
                Ok(scope) => Ok(patterns_of_scope(scope)),
                Err(e) => Err(e@),
            },
        ),
        read matches Err(FsError::NotFound(_)) ==> (result matches Ok(scope) && patterns_of_scope(
            scope,
        ) is None),
        read matches Err(FsError::Failed(t)) ==> (result matches Err(GitError::Vfs(
            FsError::Failed(m),
        )) && m@ == t@),
        result matches Ok(CommitScope::Scoped(c)) ==> {
            &&& base.paths == Some(c.paths)
            &&& c.has_ignore_file == read is Ok
            &&& c.context == base.context
            &&& c.prev_head == base.prev_head
            &&& c.editor == base.editor
        },
        result matches Ok(CommitScope::Full(l)) ==> {
            &&& base.paths is None
            &&& l.context == base.context
            &&& l.prev_head == base.prev_head
            &&& l.editor == base.editor
        },
{
    if let Ok(bytes) = read {
        lemma_file_gives(
            bytes@,
            lines,
            cores,
            match result {
                Ok(scope) => Ok(patterns_of_scope(scope)),
                Err(e) => Err(e@),
            },
        );
    }
    if let Err(FsError::Failed(t)) = read {
        assert(result is Err);
        assert(result->Err_0@ == GitErrorView::Vfs(crate::error::FsErrorView::Failed(t@)));
    }
}

// ---- What is looked at -----------------------------------------------------

/// One of the patterns matches the path, without the slashes around it. The ignore file
/// is never excluded, nor is a path that cannot be held against patterns.
pub open spec fn matched_by(patterns: Option<Seq<Seq<char>>>, path: Seq<char>) -> bool {
    let core = without_slashes(path);
    &&& path != ".ovgitignore"@
    &&& core != ".ovgitignore"@
    &&& core.len() > 0
    &&& !holds_at(core, ".///"@, 0)
    &&& patterns matches Some(list) && exists|i: int|
        0 <= i < list.len() && pattern_ignores(#[trigger] list[i], core)
}

/// The path belongs to snapshots.
pub open spec fn belongs(patterns: Option<Seq<Seq<char>>>, path: Seq<char>) -> bool {
    path == ".ovgitignore"@ || (!kept_by_runtime(path) && !matched_by(patterns, path))
}

proof fn lemma_belongs(patterns: Option<Seq<Seq<char>>>, path: Seq<char>)
    ensures
        crate::commit::candidate(patterns, path) <==> belongs(patterns, path),
        crate::commit::excluded(patterns, path) <==> matched_by(patterns, path),
{
    lemma_pruned(path);
    lemma_holds_at(without_slashes(path), ".///"@, 0);
}

/// How many paths are left out because of the patterns, and not by the runtime.
pub open spec fn excluded_among(patterns: Option<Seq<Seq<char>>>, paths: Seq<Seq<char>>) -> nat {
    paths.filter(|p: Seq<char>| !kept_by_runtime(p) && matched_by(patterns, p)).len()
}

proof fn lemma_filters(patterns: Option<Seq<Seq<char>>>, paths: Seq<Seq<char>>)
    ensures
        crate::commit::candidates(patterns, paths) == paths.filter(
            |p: Seq<char>| belongs(patterns, p),
        ),
        crate::commit::left_out(patterns, paths).len() == excluded_among(patterns, paths),
{
    let a = |p: Seq<char>| crate::commit::candidate(patterns, p);
    let b = |p: Seq<char>| belongs(patterns, p);
    let d = |p: Seq<char>| !kept_by_runtime(p) && matched_by(patterns, p);
    let e = |p: Seq<char>| !crate::enumerate::pruned(p) && crate::commit::excluded(patterns, p);
    assert forall|p: Seq<char>| #[trigger] a(p) == b(p) && e(p) == d(p) by {
        lemma_belongs(patterns, p);
        lemma_pruned(p);
    }
    assert(a =~= b);
    assert forall|p: Seq<char>| #[trigger] e(p) == d(p) by {
        assert(a(p) == b(p));
    }
    assert(e =~= d);
}

/// The work of a commit of given paths: the paths that belong are looked at, in their
/// order. Where there is an ignore file, the files of the previous tree that do not
/// belong by now are taken out of it, and each is a change; without one the tree is as
/// it was. What the patterns leave out is counted.
pub proof fn law_scoped_work(
    at: CommitScoped,
    previous: Vec<String>,
    work: CommitWork,
    path: Seq<char>,
)
    requires
        call_ensures(CommitScoped::previous, (at, previous), Ok(work)),
    ensures
        work@.pending == views(at.paths@).filter(|p: Seq<char>| belongs(at.matcher@, p)),
        work@.prev_head == at.prev_head,
        work@.context == at.context@,
        work@.ignored == excluded_among(at.matcher@, views(at.paths@)) + excluded_among(
            at.matcher@,
            views(previous@),
        ),
        !at.has_ignore_file ==> work@.changed == 0 && work@.editor == at.editor@,
        at.has_ignore_file ==> work@.changed == views(previous@).filter(
            |p: Seq<char>| !belongs(at.matcher@, p),
        ).len(),
        (forall|i: int|
            0 <= i < previous@.len() ==> path_error((#[trigger] previous@[i])@) is None)
            ==> work@.editor.entry(path) == if at.has_ignore_file && views(previous@).contains(
            path,
        ) && !belongs(at.matcher@, path) {
            None
        } else {
            at.editor@.entry(path)
        },
{
    let paths = views(at.paths@);
    let before = views(previous@);
    let rules = crate::commit::CommitRules {
        patterns: at.matcher@,
        filters_previous: at.has_ignore_file,
        full: false,
    };
    lemma_filters(at.matcher@, paths);
    lemma_filters(at.matcher@, before);
    lemma_dropped(rules, paths, before);
    if !at.has_ignore_file {
        assert(before.filter(|p: Seq<char>| false) =~= Seq::<Seq<char>>::empty()) by {
            lemma_none(before);
        }
    }
    if forall|i: int| 0 <= i < previous@.len() ==> path_error((#[trigger] previous@[i])@) is None {
        assert forall|i: int| 0 <= i < before.len() implies path_error(#[trigger] before[i])
            is None by {
            assert(before[i] == previous@[i]@);
        }
        crate::commit::law_unwanted_files_are_dropped(at.editor@, rules, paths, before, path);
        lemma_belongs(at.matcher@, path);
    }
}

/// The work begins wherever the paths of the previous tree are proper ones.
pub proof fn law_work_begins(
    scoped: CommitScoped,
    full: CommitListing,
    listing: Vec<String>,
    previous: Vec<String>,
    a: Result<CommitWork, GitError>,
    b: Result<CommitWork, GitError>,
)
    requires
        call_ensures(CommitScoped::previous, (scoped, previous), a),
        call_ensures(CommitListing::listed, (full, listing, previous), b),
        forall|i: int| 0 <= i < previous@.len() ==> path_error((#[trigger] previous@[i])@) is None,
    ensures
        a is Ok,
        b is Ok,
{
    let before = views(previous@);
    assert forall|i: int| 0 <= i < before.len() implies path_error(#[trigger] before[i]) is None by {
        assert(before[i] == previous@[i]@);
    }
    let x = crate::commit::CommitRules {
        patterns: scoped.matcher@,
        filters_previous: scoped.has_ignore_file,
        full: false,
    };
    let y = crate::commit::CommitRules {
        patterns: full.matcher@,
        filters_previous: true,
        full: true,
    };
    let p = Seq::<char>::empty();
    crate::commit::law_unwanted_files_are_dropped(
        scoped.editor@,
        x,
        views(scoped.paths@),
        before,
        p,
    );
    crate::commit::law_unwanted_files_are_dropped(full.editor@, y, views(listing@), before, p);
    assert(crate::commit::work_answer(a) is Ok);
    assert(crate::commit::work_answer(b) is Ok);
}

/// The work of a commit of the whole account: every file of it that belongs is looked
/// at. The files of the previous tree that do not belong by now, or are gone, are taken
/// out of it, and each is a change.
pub proof fn law_full_work(
    at: CommitListing,
    listing: Vec<String>,
    previous: Vec<String>,
    work: CommitWork,
    path: Seq<char>,
)
    requires
        call_ensures(CommitListing::listed, (at, listing, previous), Ok(work)),
    ensures
        work@.pending == views(listing@).filter(|p: Seq<char>| belongs(at.matcher@, p)),
        work@.prev_head == at.prev_head,
        work@.context == at.context@,
        work@.ignored == excluded_among(at.matcher@, views(listing@)) + excluded_among(
            at.matcher@,
            views(previous@),
        ),
        work@.changed == views(previous@).filter(
            |p: Seq<char>| !belongs(at.matcher@, p) || !views(listing@).contains(p),
        ).len(),
        (forall|i: int|
            0 <= i < previous@.len() ==> path_error((#[trigger] previous@[i])@) is None)
            ==> work@.editor.entry(path) == if views(previous@).contains(path) && (!belongs(
            at.matcher@,
            path,
        ) || !views(listing@).contains(path)) {
            None
        } else {
            at.editor@.entry(path)
        },
{
    let paths = views(listing@);
    let before = views(previous@);
    let rules = crate::commit::CommitRules {
        patterns: at.matcher@,
        filters_previous: true,
        full: true,
    };
    lemma_filters(at.matcher@, paths);
    lemma_filters(at.matcher@, before);
    lemma_dropped(rules, paths, before);
    if forall|i: int| 0 <= i < previous@.len() ==> path_error((#[trigger] previous@[i])@) is None {
        assert forall|i: int| 0 <= i < before.len() implies path_error(#[trigger] before[i])
            is None by {
            assert(before[i] == previous@[i]@);
        }
        crate::commit::law_unwanted_files_are_dropped(at.editor@, rules, paths, before, path);
        lemma_belongs(at.matcher@, path);
    }
}

proof fn lemma_none(s: Seq<Seq<char>>)
    ensures
        s.filter(|p: Seq<char>| false) == Seq::<Seq<char>>::empty(),
    decreases s.len(),
{
    reveal(Seq::filter);
    if s.len() > 0 {
        lemma_none(s.drop_last());
    }
}

proof fn lemma_dropped(
    rules: crate::commit::CommitRules,
    paths: Seq<Seq<char>>,
    previous: Seq<Seq<char>>,
)
    ensures
        ({
            let out = crate::commit::dropped(rules, paths, previous);
            &&& !rules.full && !rules.filters_previous ==> out == previous.filter(
                |p: Seq<char>| false,
            )
            &&& !rules.full && rules.filters_previous ==> out == previous.filter(
                |p: Seq<char>| !belongs(rules.patterns, p),
            )
            &&& rules.full && rules.filters_previous ==> out == previous.filter(
                |p: Seq<char>| !belongs(rules.patterns, p) || !paths.contains(p),
            )
        }),
{
    let u = |p: Seq<char>| crate::commit::unwanted(rules, paths, p);
    let f = |p: Seq<char>| false;
    let b = |p: Seq<char>| !belongs(rules.patterns, p);
    let g = |p: Seq<char>| !belongs(rules.patterns, p) || !paths.contains(p);
    assert forall|p: Seq<char>|
        #![trigger u(p)]
        (!rules.full && !rules.filters_previous ==> u(p) == f(p)) && (!rules.full
            && rules.filters_previous ==> u(p) == b(p)) && (rules.full && rules.filters_previous
            ==> u(p) == g(p)) by {
        lemma_belongs(rules.patterns, p);
    }
    if !rules.full && !rules.filters_previous {
        assert(u =~= f);
    } else if !rules.full {
        assert(u =~= b);
    } else if rules.filters_previous {
        assert(u =~= g);
    }
}

// ---- What is recorded ------------------------------------------------------

/// The path that is looked at next is the first pending one, and stands below the
/// directory of the account.
pub proof fn law_next_path(work: CommitWork, path: Option<String>, absolute: Option<String>)
    requires
        call_ensures(CommitWork::path, (&work,), path),
        call_ensures(CommitWork::absolute_path, (&work,), absolute),
    ensures
        path is Some <==> work@.pending.len() > 0,
        absolute is Some <==> work@.pending.len() > 0,
        path matches Some(p) ==> p@ == work@.pending[0],
        absolute matches Some(a) ==> a@ == "/local/"@ + work@.context.account + "/"@
            + work@.pending[0],
{
}

/// Something that is no directory stands at the path.
pub open spec fn stands_in_the_way(m: EditorModel, path: Seq<char>) -> bool {
    m.entry(path) matches Some(n) && n.mode != EntryKind::Tree
}

/// A file that the previous tree has with the same content, a directory, and a path that
/// is missing there as well change nothing. Another file stands at its path from now on,
/// and a file that is missing does no longer; either is one change. A path whose state
/// could not be found out ends the commit.
pub proof fn law_recording(work: CommitWork, state: PathState, result: Result<CommitWork, GitError>)
    requires
        work@.pending.len() > 0,
        call_ensures(CommitWork::record, (work, state), result),
    ensures
        ({
            let path = work@.pending[0];
            let first = work@.prev_head is None;
            let same = match state {
                PathState::Directory => true,
                PathState::File { oid, previous } => !first && previous == Some(oid),
                PathState::Missing { previous } => first || previous is None,
                PathState::Failed(_) => false,
            };
            &&& state matches PathState::Failed(e) ==> (result matches Err(r) && r@ == e@)
            &&& !(state is Failed) ==> (result is Err <==> !same && (path_error(path) is Some || (
            state is File && exists|dir: Seq<char>| #[trigger]
                holds_at(path, dir.push('/'), 0) && stands_in_the_way(work@.editor, dir))))
            &&& same ==> (result matches Ok(w) && w@.editor == work@.editor && w@.changed
                == work@.changed)
            &&& result matches Ok(w) ==> {
                &&& w@.pending == work@.pending.drop_first()
                &&& w@.context == work@.context
                &&& w@.prev_head == work@.prev_head
                &&& w@.ignored == work@.ignored
                &&& !same ==> w@.changed == work@.changed + 1
                &&& !same && state is File ==> (w@.editor.entry(path) matches Some(n) && n.oid
                    == state->File_oid && n.mode == EntryKind::Blob)
                &&& !same && state is Missing ==> w@.editor.entry(path) is None
            }
        }),
{
    let path = work@.pending[0];
    if let PathState::File { oid, .. } = state {
        law_upsert_refused(work@.editor, path, oid);
        if exists|dir: Seq<char>| #[trigger] on_the_way(dir, path) && blocks(work@.editor, dir) {
            let dir = choose|dir: Seq<char>| #[trigger]
                on_the_way(dir, path) && blocks(work@.editor, dir);
            law_on_the_way(dir, path);
            assert(holds_at(path, dir.push('/'), 0) && stands_in_the_way(work@.editor, dir));
        }
        if exists|dir: Seq<char>| #[trigger]
            holds_at(path, dir.push('/'), 0) && stands_in_the_way(work@.editor, dir) {
            let dir = choose|dir: Seq<char>| #[trigger]
                holds_at(path, dir.push('/'), 0) && stands_in_the_way(work@.editor, dir);
            law_on_the_way(dir, path);
            assert(on_the_way(dir, path) && blocks(work@.editor, dir));
        }
    }
    if let Ok(w) = result {
        match state {
            PathState::File { oid, .. } => {
                if work@.editor.upserted(path, oid).1 is Ok {
                    law_upsert(work@.editor, path, oid, path);
                }
            },
            PathState::Missing { .. } => {
                if work@.editor.removed(path).1 is Ok {
                    law_remove(work@.editor, path, path);
                }
            },
            _ => {},
        }
    }
}

/// A commit that changes nothing answers with the head, or the null identifier where
/// there is none, and writes nothing. One that changes something goes on with its tree.
pub proof fn law_finishing(work: CommitWork, finish: CommitFinish)
    requires
        work@.pending.len() == 0,
        call_ensures(CommitWork::finish, (work,), finish),
    ensures
        finish is Changed <==> work@.changed > 0,
        finish matches CommitFinish::Changed(w) ==> w.editor@ == work@.editor && w.prev_head
            == work@.prev_head && w.changed == work@.changed && w.ignored == work@.ignored
            && w.context@ == work@.context,
        finish matches CommitFinish::Unchanged(r) ==> (r matches CommitResponse::Noop {
            commit_oid,
            ignored,
        } && ignored == work@.ignored && match work@.prev_head {
            Some(head) => commit_oid == head,
            None => forall|i: int| 0 <= i < 20 ==> #[trigger] commit_oid.bytes@[i] == 0,
        }),
{
}

/// The new commit has the tree that was stored and the head as its only parent, or none
/// where it is the first. The branch is moved from the head to it.
pub proof fn law_writing(
    at: CommitWrite,
    tree: ObjectId,
    record: CommitRecord,
    oid: ObjectId,
    update: CommitUpdate,
)
    requires
        call_ensures(CommitWrite::tree_written, (at, Ok(tree)), Ok(record)),
        call_ensures(CommitRecord::commit_written, (record, Ok(oid)), Ok(update)),
    ensures
        record.tree == tree,
        match at.prev_head {
            Some(head) => record.parents@.len() == 1 && record.parents@[0] == head,
            None => record.parents@.len() == 0,
        },
        record.context == at.context,
        update.new == oid,
        update.expected == at.prev_head,
        update.changed == at.changed,
        update.ignored == at.ignored,
        update.context == at.context,
{
}

/// The answer names the new commit and counts; a branch that has moved in the meantime
/// is a concurrent commit, and any other failure of the update is passed on.
pub proof fn law_answering(
    at: CommitUpdate,
    outcome: Result<(), RefStoreError>,
    result: Result<CommitResponse, GitError>,
)
    requires
        call_ensures(CommitUpdate::updated, (at, outcome), result),
    ensures
        match outcome {
            Ok(()) => result matches Ok(CommitResponse::Created { commit_oid, changed, ignored })
                && commit_oid == at.new && changed == at.changed && ignored == at.ignored,
            Err(RefStoreError::Conflict { expected, actual }) => result matches Err(e) && e@
                == (GitErrorView::ConcurrentCommit {
                ref_name: at.context.ref_name@,
                expected,
                actual,
            }),
            Err(r) => result matches Err(e) && e@ == GitErrorView::RefStore(r@),
        },
{
}

/// Whatever fails on the way ends the commit as it is. An object at the head that is no
/// commit does, too.
pub proof fn law_commit_failures(
    parent: CommitParent,
    tree: CommitTree,
    write: CommitWrite,
    record: CommitRecord,
    e: GitError,
    a: Result<CommitTree, GitError>,
    b: Result<CommitBase, GitError>,
    c: Result<CommitRecord, GitError>,
    d: Result<CommitUpdate, GitError>,
    raw: Vec<u8>,
    f: Result<CommitTree, GitError>,
)
    requires
        call_ensures(CommitParent::commit_object, (parent, Err(e)), a),
        call_ensures(CommitTree::loaded, (tree, Err(e)), b),
        call_ensures(CommitWrite::tree_written, (write, Err(e)), c),
        call_ensures(CommitRecord::commit_written, (record, Err(e)), d),
        call_ensures(CommitParent::commit_object, (parent, Ok(raw)), f),
    ensures
        a == Err::<CommitTree, _>(e),
        b == Err::<CommitBase, _>(e),
        c == Err::<CommitRecord, _>(e),
        d == Err::<CommitUpdate, _>(e),
        (forall|size: int, at: int| !#[trigger] has_header(raw@, ObjectKind::Commit, size, at))
            ==> f is Err,
        forall|size: int, at: int| #[trigger]
            has_header(raw@, ObjectKind::Commit, size, at) ==> (f is Ok <==> commit_fields(
                raw@.skip(at),
            ) is Ok),
{
    if let Some((kind, s, at)) = crate::object::header_of(raw@) {
        crate::laws::objects::lemma_header(raw@, kind, s as int, at as int);
    }
    assert forall|size: int, at: int| #[trigger]
        has_header(raw@, ObjectKind::Commit, size, at) implies (f is Ok <==> commit_fields(
        raw@.skip(at),
    ) is Ok) by {
        crate::laws::objects::lemma_header(raw@, ObjectKind::Commit, size, at);
    }
}

} // verus!
