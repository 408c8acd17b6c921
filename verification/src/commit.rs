//! The course of a commit. Each type is a point at which the commit waits for
//! something from outside; the method that takes it leads to the next point.

use crate::enumerate::{prune_path, pruned};
use crate::error::{FsError, GitError, GitErrorView, RefStoreError, RefStoreErrorView};
use crate::ignore::{
    can_match, ignored_by, in_snapshots, lemma_ignore_file_not_pruned, parses_to, IgnoreMatcher,
    OVGITIGNORE_PATH,
};
use crate::object::{commit_of, load_commit_meta};
use crate::oid::{lemma_same_bytes, ObjectId};
use crate::order::lemma_filter_iff;
use crate::text::{begins_with, cat2, cat4, same_text, trim_slashes, views};
use crate::tree_builder::{
    law_remove, law_upsert, on_the_way, path_error, EditorModel, EntryKind, TreeEditor,
};
use crate::types::{CommitRequest, CommitResponse};
use vstd::hash_map::StringHashMap;
use vstd::prelude::*;

verus! {

// ---- What stays the same through a commit ----------------------------------

/// What a commit is about.
#[derive(Debug)]
pub struct CommitContext {
    pub account: String,
    /// The full name of the branch.
    pub ref_name: String,
    pub message: String,
    pub author_name: String,
    pub author_email: String,
}

pub struct ContextView {
    pub account: Seq<char>,
    pub ref_name: Seq<char>,
    pub message: Seq<char>,
    pub author_name: Seq<char>,
    pub author_email: Seq<char>,
}

impl View for CommitContext {
    type V = ContextView;

    open spec fn view(&self) -> ContextView {
        ContextView {
            account: self.account@,
            ref_name: self.ref_name@,
            message: self.message@,
            author_name: self.author_name@,
            author_email: self.author_email@,
        }
    }
}

/// The full name of a branch.
pub open spec fn branch_ref(branch: Seq<char>) -> Seq<char> {
    "refs/heads/"@ + branch
}

/// Where a path of an account stands in the file system.
pub open spec fn absolute(account: Seq<char>, path: Seq<char>) -> Seq<char> {
    "/local/"@ + account + "/"@ + path
}

/// Where a path of an account stands in the file system.
pub fn absolute_path(account: &str, path: &str) -> (text: String)
    ensures
        text@ == absolute(account@, path@),
{
    cat4("/local/", account, "/", path)
}

/// A conflict on the branch is a concurrent commit; any other failure of the
/// update is passed on.
pub open spec fn update_error(ref_name: Seq<char>, e: RefStoreErrorView) -> GitErrorView {
    match e {
        RefStoreErrorView::Conflict { expected, actual } => GitErrorView::ConcurrentCommit {
            ref_name,
            expected,
            actual,
        },
        other => GitErrorView::RefStore(other),
    }
}

/// The error of a commit whose update of the branch failed.
pub fn ref_update_error(ref_name: String, e: RefStoreError) -> (error: GitError)
    ensures
        error@ == update_error(ref_name@, e@),
{
    match e {
        RefStoreError::Conflict { expected, actual } => GitError::ConcurrentCommit {
            ref_name,
            expected,
            actual,
        },
        other => GitError::RefStore(other),
    }
}

// ---- The head of the branch ------------------------------------------------

/// Waits for the head of the branch: the ref `context.ref_name`.
#[derive(Debug)]
pub struct CommitStart {
    pub context: CommitContext,
    pub paths: Option<Vec<String>>,
}

/// Waits for the stored commit `head`.
#[derive(Debug)]
pub struct CommitParent {
    pub context: CommitContext,
    pub paths: Option<Vec<String>>,
    pub head: ObjectId,
}

/// Waits for an editor of the stored tree `tree`.
#[derive(Debug)]
pub struct CommitTree {
    pub context: CommitContext,
    pub paths: Option<Vec<String>>,
    pub head: ObjectId,
    pub tree: ObjectId,
}

/// Waits for the ignore file, at `ignore_path()`.
#[derive(Debug)]
pub struct CommitBase {
    pub context: CommitContext,
    pub paths: Option<Vec<String>>,
    pub prev_head: Option<ObjectId>,
    pub editor: TreeEditor,
}

/// Where a commit stands once the head of the branch is known.
#[derive(Debug)]
pub enum CommitHead {
    /// The branch does not exist: this is its first commit.
    Root(CommitBase),
    /// The branch exists.
    Parent(CommitParent),
}

/// `start` is the beginning of the commit that `req` asks for.
pub open spec fn begins_commit(req: CommitRequest, start: CommitStart) -> bool {
    &&& start.context@ == ContextView {
        account: req.account@,
        ref_name: branch_ref(req.branch@),
        message: req.message@,
        author_name: req.author_name@,
        author_email: req.author_email@,
    }
    &&& start.paths == req.paths
}

impl CommitStart {
    /// The beginning of a commit.
    pub fn new(req: CommitRequest) -> (start: CommitStart)
        ensures
            begins_commit(req, start),
    {
        let ref_name = cat2("refs/heads/", req.branch.as_str());
        CommitStart {
            context: CommitContext {
                account: req.account,
                ref_name,
                message: req.message,
                author_name: req.author_name,
                author_email: req.author_email,
            },
            paths: req.paths,
        }
    }

    /// Goes on with what the read of the branch gave.
    pub fn head(self, read: Result<ObjectId, RefStoreError>) -> (result: Result<
        CommitHead,
        GitError,
    >)
        ensures
            match (read, result) {
                (Ok(oid), Ok(CommitHead::Parent(p))) => p.context == self.context && p.paths
                    == self.paths && p.head == oid,
                (Err(RefStoreError::NotFound(_)), Ok(CommitHead::Root(b))) => b.context
                    == self.context && b.paths == self.paths && b.prev_head is None && b.editor@
                    == EditorModel::empty(),
                (Err(e), Err(r)) => !(e is NotFound) && r@ == GitErrorView::RefStore(e@),
                _ => false,
            },
    {
        match read {
            Ok(head) => Ok(
                CommitHead::Parent(
                    CommitParent { context: self.context, paths: self.paths, head },
                ),
            ),
            Err(RefStoreError::NotFound(_)) => Ok(
                CommitHead::Root(
                    CommitBase {
                        context: self.context,
                        paths: self.paths,
                        prev_head: None,
                        editor: TreeEditor::empty(),
                    },
                ),
            ),
            Err(e) => Err(GitError::RefStore(e)),
        }
    }
}

impl CommitParent {
    /// Goes on with the stored form of the commit at the head.
    pub fn commit_object(self, read: Result<Vec<u8>, GitError>) -> (result: Result<
        CommitTree,
        GitError,
    >)
        ensures
            match (read, result) {
                (Ok(raw), Ok(t)) => commit_of(raw@) matches Ok(meta) && t.tree == meta.tree && t.head
                    == self.head && t.context == self.context && t.paths == self.paths,
                (Ok(raw), Err(e)) => commit_of(raw@) == Err::<crate::object::CommitMetaView, _>(
                    e@,
                ),
                (Err(e), Err(r)) => r == e,
                _ => false,
            },
    {
        match read {
            Err(e) => Err(e),
            Ok(raw) => match load_commit_meta(raw.as_slice()) {
                Err(e) => Err(e),
                Ok(meta) => Ok(
                    CommitTree {
                        context: self.context,
                        paths: self.paths,
                        head: self.head,
                        tree: meta.tree,
                    },
                ),
            },
        }
    }
}

impl CommitTree {
    /// Goes on with an editor of the tree at the head.
    pub fn loaded(self, editor: Result<TreeEditor, GitError>) -> (result: Result<
        CommitBase,
        GitError,
    >)
        ensures
            match (editor, result) {
                (Ok(editor), Ok(b)) => b.editor == editor && b.prev_head == Some(self.head)
                    && b.context == self.context && b.paths == self.paths,
                (Err(e), Err(r)) => r == e,
                _ => false,
            },
    {
        match editor {
            Err(e) => Err(e),
            Ok(editor) => Ok(
                CommitBase {
                    context: self.context,
                    paths: self.paths,
                    prev_head: Some(self.head),
                    editor,
                },
            ),
        }
    }
}

// ---- The paths to look at --------------------------------------------------

/// Waits for the paths of the account and for the files of the previous tree.
#[derive(Debug)]
pub struct CommitListing {
    pub context: CommitContext,
    pub prev_head: Option<ObjectId>,
    pub editor: TreeEditor,
    pub matcher: IgnoreMatcher,
}

/// Waits for the paths of the files in the previous tree, which a first commit
/// does not have. The request names the paths that are looked at.
#[derive(Debug)]
pub struct CommitScoped {
    pub context: CommitContext,
    pub prev_head: Option<ObjectId>,
    pub editor: TreeEditor,
    pub matcher: IgnoreMatcher,
    /// Whether there is an ignore file.
    pub has_ignore_file: bool,
    pub paths: Vec<String>,
}

/// Where a commit stands once the ignore file is known.
#[derive(Debug)]
pub enum CommitScope {
    /// The request names the paths.
    Scoped(CommitScoped),
    /// The whole account is looked at.
    Full(CommitListing),
}

/// A path that the patterns exclude. A path that cannot be held against them is
/// not excluded.
pub open spec fn excluded(patterns: Option<Seq<Seq<char>>>, path: Seq<char>) -> bool {
    path != ".ovgitignore"@ && can_match(patterns, path) && ignored_by(patterns, path)
}

/// A path that a commit looks at: neither kept by the runtime nor excluded.
pub open spec fn candidate(patterns: Option<Seq<Seq<char>>>, path: Seq<char>) -> bool {
    path == ".ovgitignore"@ || (!pruned(path) && !excluded(patterns, path))
}

/// The paths that a commit looks at.
pub open spec fn candidates(patterns: Option<Seq<Seq<char>>>, paths: Seq<Seq<char>>) -> Seq<
    Seq<char>,
> {
    paths.filter(|p: Seq<char>| candidate(patterns, p))
}

fn is_excluded(path: &str, matcher: &IgnoreMatcher) -> (yes: bool)
    ensures
        yes == excluded(matcher@, path@),
{
    if same_text(path, OVGITIGNORE_PATH) {
        return false;
    }
    if begins_with(trim_slashes(path).as_str(), ".///") {
        proof {
            assert(can_match(matcher@, path@) ==> matcher@ is None);
        }
        return false;
    }
    matcher.is_ignored(path)
}

fn is_candidate(path: &str, matcher: &IgnoreMatcher) -> (yes: bool)
    ensures
        yes == candidate(matcher@, path@),
{
    same_text(path, OVGITIGNORE_PATH) || (!prune_path(path) && !is_excluded(path, matcher))
}

/// Keeps the paths that a commit looks at.
fn keep_candidates(paths: Vec<String>, matcher: &IgnoreMatcher) -> (kept: Vec<String>)
    ensures
        views(kept@) == candidates(matcher@, views(paths@)),
        kept@.len() <= paths@.len(),
{
    let ghost all = views(paths@);
    let ghost keep = |p: Seq<char>| candidate(matcher@, p);
    let mut kept: Vec<String> = Vec::new();
    let mut i: usize = 0;
    proof {
        reveal(Seq::filter);
        assert(all.take(0).filter(keep) =~= Seq::<Seq<char>>::empty());
        assert(views(kept@) =~= Seq::<Seq<char>>::empty());
    }
    while i < paths.len()
        invariant
            all == views(paths@),
            keep == (|p: Seq<char>| candidate(matcher@, p)),
            i <= paths@.len(),
            kept@.len() <= i,
            views(kept@) == all.take(i as int).filter(keep),
        decreases paths.len() - i,
    {
        let ghost before = kept@;
        proof {
            reveal(Seq::filter);
            assert(all.take(i + 1).drop_last() =~= all.take(i as int));
            assert(all.take(i + 1).last() == paths@[i as int]@);
        }
        if is_candidate(paths[i].as_str(), matcher) {
            kept.push(paths[i].clone());
            assert(views(kept@) =~= views(before).push(paths@[i as int]@));
        }
        i = i + 1;
    }
    assert(all.take(i as int) =~= all);
    kept
}

/// The paths that are left out because of the patterns.
pub open spec fn left_out(patterns: Option<Seq<Seq<char>>>, paths: Seq<Seq<char>>) -> Seq<
    Seq<char>,
> {
    paths.filter(|p: Seq<char>| !pruned(p) && excluded(patterns, p))
}

/// How many paths are left out because of the patterns.
fn count_left_out(paths: &Vec<String>, matcher: &IgnoreMatcher) -> (count: usize)
    ensures
        count == left_out(matcher@, views(paths@)).len(),
        count <= paths@.len(),
{
    let ghost all = views(paths@);
    let ghost out = |p: Seq<char>| !pruned(p) && excluded(matcher@, p);
    let mut count: usize = 0;
    let mut i: usize = 0;
    proof {
        reveal(Seq::filter);
        assert(all.take(0).filter(out) =~= Seq::<Seq<char>>::empty());
    }
    while i < paths.len()
        invariant
            all == views(paths@),
            out == (|p: Seq<char>| !pruned(p) && excluded(matcher@, p)),
            i <= paths@.len(),
            count <= i,
            count == all.take(i as int).filter(out).len(),
        decreases paths.len() - i,
    {
        proof {
            reveal(Seq::filter);
            assert(all.take(i + 1).drop_last() =~= all.take(i as int));
            assert(all.take(i + 1).last() == paths@[i as int]@);
        }
        if !prune_path(paths[i].as_str()) && is_excluded(paths[i].as_str(), matcher) {
            count = count + 1;
        }
        i = i + 1;
    }
    assert(all.take(i as int) =~= all);
    count
}

/// The tree without the entries at the paths.
pub open spec fn without_paths(m: EditorModel, paths: Seq<Seq<char>>) -> Result<
    EditorModel,
    GitErrorView,
>
    decreases paths.len(),
{
    if paths.len() == 0 {
        Ok(m)
    } else {
        match without_paths(m, paths.drop_last()) {
            Err(e) => Err(e),
            Ok(before) => match before.removed(paths.last()) {
                (after, Ok(())) => Ok(after),
                (_, Err(e)) => Err(e),
            },
        }
    }
}

/// What a commit goes by.
pub struct CommitRules {
    /// The patterns of the ignore file, where there are any.
    pub patterns: Option<Seq<Seq<char>>>,
    /// Whether the previous tree is held against the rules, too. A commit of given
    /// paths does so only where there is an ignore file.
    pub filters_previous: bool,
    /// Whether all files of the account are looked at.
    pub full: bool,
}

/// A file of the previous tree that the next tree does not hold: it does not
/// belong to snapshots by now, or it is not among the files of the account, where
/// all of them are looked at.
pub open spec fn unwanted(rules: CommitRules, paths: Seq<Seq<char>>, path: Seq<char>) -> bool {
    ||| rules.filters_previous && !candidate(rules.patterns, path)
    ||| rules.full && !paths.contains(path)
}

/// The files of the previous tree that the next tree does not hold.
pub open spec fn dropped(
    rules: CommitRules,
    paths: Seq<Seq<char>>,
    previous: Seq<Seq<char>>,
) -> Seq<Seq<char>> {
    previous.filter(|p: Seq<char>| unwanted(rules, paths, p))
}

proof fn lemma_without_paths_error(m: EditorModel, paths: Seq<Seq<char>>, n: int)
    requires
        0 <= n <= paths.len(),
        without_paths(m, paths.take(n)) is Err,
    ensures
        without_paths(m, paths) == without_paths(m, paths.take(n)),
    decreases paths.len() - n,
{
    if n < paths.len() {
        assert(paths.take(n + 1).drop_last() =~= paths.take(n));
        lemma_without_paths_error(m, paths, n + 1);
    } else {
        assert(paths.take(n) =~= paths);
    }
}

/// The paths as a set.
fn path_set(paths: &Vec<String>) -> (set: StringHashMap<()>)
    ensures
        forall|p: Seq<char>| #[trigger] set@.contains_key(p) <==> views(paths@).contains(p),
{
    let ghost all = views(paths@);
    let mut set: StringHashMap<()> = StringHashMap::new();
    let mut i: usize = 0;
    while i < paths.len()
        invariant
            all == views(paths@),
            i <= paths@.len(),
            forall|p: Seq<char>| #[trigger] set@.contains_key(p) <==> all.take(i as int).contains(p),
        decreases paths.len() - i,
    {
        let ghost before = set@;
        set.insert(paths[i].clone(), ());
        i = i + 1;
        proof {
            let front = all.take(i - 1);
            let taken = all.take(i as int);
            assert(taken =~= front.push(paths@[i - 1]@));
            assert forall|p: Seq<char>| #[trigger] set@.contains_key(p) <==> taken.contains(p) by {
                assert(before.contains_key(p) <==> front.contains(p));
                if front.contains(p) {
                    let k = choose|k: int| 0 <= k < front.len() && front[k] == p;
                    assert(taken[k] == p);
                }
                assert(taken[i - 1] == paths@[i - 1]@);
                if taken.contains(p) && p != paths@[i - 1]@ {
                    let k = choose|k: int| 0 <= k < taken.len() && taken[k] == p;
                    assert(front[k] == p);
                }
            }
        }
    }
    assert(all.take(i as int) =~= all);
    set
}

/// Takes the files that the next tree does not hold out of the tree, and counts
/// them.
fn drop_unwanted(
    base: TreeEditor,
    previous: &Vec<String>,
    matcher: &IgnoreMatcher,
    filters_previous: bool,
    full: bool,
    paths: &Vec<String>,
) -> (result: Result<(TreeEditor, usize), GitError>)
    ensures
        ({
            let rules = CommitRules { patterns: matcher@, filters_previous, full };
            let total = dropped(rules, views(paths@), views(previous@));
            match result {
                Ok((after, count)) => without_paths(base@, total) == Ok::<_, GitErrorView>(after@)
                    && count == total.len() && count <= previous@.len(),
                Err(e) => without_paths(base@, total) == Err::<EditorModel, _>(e@),
            }
        }),
{
    let ghost start = base@;
    let ghost all = views(previous@);
    let ghost rules = CommitRules { patterns: matcher@, filters_previous, full };
    let ghost out = |p: Seq<char>| unwanted(rules, views(paths@), p);
    let ghost total = all.filter(out);
    let set = path_set(paths);
    let mut editor = base;
    let mut count: usize = 0;
    let mut i: usize = 0;
    proof {
        reveal(Seq::filter);
        assert(all.take(0).filter(out) =~= Seq::<Seq<char>>::empty());
    }
    while i < previous.len()
        invariant
            start == base@,
            all == views(previous@),
            rules == (CommitRules { patterns: matcher@, filters_previous, full }),
            out == (|p: Seq<char>| unwanted(rules, views(paths@), p)),
            total == all.filter(out),
            forall|p: Seq<char>| #[trigger] set@.contains_key(p) <==> views(paths@).contains(p),
            i <= previous@.len(),
            count <= i,
            count == all.take(i as int).filter(out).len(),
            all.take(i as int).filter(out) == total.take(count as int),
            count <= total.len(),
            without_paths(start, total.take(count as int)) == Ok::<_, GitErrorView>(editor@),
        decreases previous.len() - i,
    {
        proof {
            reveal(Seq::filter);
            assert(all.take(i + 1).drop_last() =~= all.take(i as int));
            assert(all.take(i + 1).last() == previous@[i as int]@);
        }
        let path = previous[i].as_str();
        if (filters_previous && !is_candidate(path, matcher)) || (full && !set.contains_key(path)) {
            let ghost path = previous@[i as int]@;
            proof {
                lemma_filter_prefix(all, out, i + 1);
                assert(all.take(i + 1).filter(out) == total.take(count as int).push(path));
                assert(total.take(count + 1) =~= total.take(count as int).push(path));
                assert(total.take(count + 1).drop_last() =~= total.take(count as int));
            }
            match editor.remove(previous[i].as_str()) {
                Ok(()) => {},
                Err(e) => {
                    proof {
                        assert(total.take(count + 1).last() == path);
                        assert(without_paths(start, total.take(count + 1)) == Err::<
                            EditorModel,
                            _,
                        >(e@));
                        lemma_without_paths_error(start, total, count + 1);
                        assert(total == dropped(rules, views(paths@), views(previous@)));
                    }
                    return Err(e);
                },
            }
            count = count + 1;
        }
        i = i + 1;
    }
    assert(all.take(i as int) =~= all);
    assert(total.take(count as int) =~= total);
    Ok((editor, count))
}

proof fn lemma_filter_prefix<A>(s: Seq<A>, pred: spec_fn(A) -> bool, n: int)
    requires
        0 <= n <= s.len(),
    ensures
        s.take(n).filter(pred).len() <= s.filter(pred).len(),
        s.filter(pred).take(s.take(n).filter(pred).len() as int) == s.take(n).filter(pred),
{
    assert(s =~= s.take(n) + s.skip(n));
    Seq::filter_distributes_over_add(s.take(n), s.skip(n), pred);
    assert(s.filter(pred).take(s.take(n).filter(pred).len() as int) =~= s.take(n).filter(pred));
}

impl CommitBase {
    /// Where the ignore file stands.
    pub fn ignore_path(&self) -> (path: String)
        ensures
            path@ == absolute(self.context.account@, ".ovgitignore"@),
    {
        absolute_path(self.context.account.as_str(), OVGITIGNORE_PATH)
    }

    /// Goes on with the ignore file. Where there is none, nothing is excluded. The
    /// error is that of a file that cannot be read or used.
    pub fn ignore_file(self, read: Result<Vec<u8>, FsError>) -> (result: Result<
        CommitScope,
        GitError,
    >)
        ensures
            match (self.paths, result) {
                (_, Err(e)) => gives_patterns(read, Err(e@)),
                (Some(paths), Ok(CommitScope::Scoped(c))) => gives_patterns(read, Ok(c.matcher@))
                    && c.has_ignore_file == read is Ok && c.context == self.context && c.prev_head
                    == self.prev_head && c.editor == self.editor && c.paths == paths,
                (None, Ok(CommitScope::Full(l))) => gives_patterns(read, Ok(l.matcher@))
                    && l.context == self.context && l.prev_head == self.prev_head && l.editor
                    == self.editor,
                _ => false,
            },
    {
        let has_ignore_file = read.is_ok();
        let matcher = match read {
            Ok(bytes) => match IgnoreMatcher::parse(bytes.as_slice()) {
                Ok(m) => m,
                Err(e) => {
                    return Err(e);
                },
            },
            Err(FsError::NotFound(_)) => IgnoreMatcher::empty(),
            Err(e) => {
                return Err(GitError::Vfs(e));
            },
        };
        match self.paths {
            Some(paths) => Ok(
                CommitScope::Scoped(
                    CommitScoped {
                        context: self.context,
                        prev_head: self.prev_head,
                        editor: self.editor,
                        matcher,
                        has_ignore_file,
                        paths,
                    },
                ),
            ),
            None => Ok(
                CommitScope::Full(
                    CommitListing {
                        context: self.context,
                        prev_head: self.prev_head,
                        editor: self.editor,
                        matcher,
                    },
                ),
            ),
        }
    }
}

/// `result` is what the read of the ignore file can give: the patterns of a commit.
pub open spec fn gives_patterns(
    read: Result<Vec<u8>, FsError>,
    result: Result<Option<Seq<Seq<char>>>, GitErrorView>,
) -> bool {
    match read {
        Ok(bytes) => parses_to(bytes@, result),
        Err(FsError::NotFound(_)) => result == Ok::<Option<Seq<Seq<char>>>, GitErrorView>(None),
        Err(e) => result == Err::<Option<Seq<Seq<char>>>, _>(GitErrorView::Vfs(e@)),
    }
}

/// The work of a commit that looks at `paths`. The files of the previous tree that
/// the next one does not hold are taken out of the tree, and each of them is a
/// change.
pub open spec fn work_on(
    base: WorkBase,
    rules: CommitRules,
    paths: Seq<Seq<char>>,
    previous: Seq<Seq<char>>,
) -> Result<WorkView, GitErrorView> {
    let out = dropped(rules, paths, previous);
    match without_paths(base.editor, out) {
        Err(e) => Err(e),
        Ok(editor) => Ok(
            WorkView {
                context: base.context,
                prev_head: base.prev_head,
                editor,
                pending: candidates(rules.patterns, paths),
                changed: out.len(),
                ignored: left_out(rules.patterns, paths).len() + left_out(
                    rules.patterns,
                    previous,
                ).len(),
            },
        ),
    }
}

/// What a commit starts from.
pub struct WorkBase {
    pub context: ContextView,
    pub prev_head: Option<ObjectId>,
    pub editor: EditorModel,
}

/// The view of a work, or of the error with which it could not begin.
pub open spec fn work_answer(result: Result<CommitWork, GitError>) -> Result<
    WorkView,
    GitErrorView,
> {
    match result {
        Ok(w) => Ok(w@),
        Err(e) => Err(e@),
    }
}

fn begin_work(
    context: CommitContext,
    prev_head: Option<ObjectId>,
    editor: TreeEditor,
    matcher: &IgnoreMatcher,
    filters_previous: bool,
    full: bool,
    paths: Vec<String>,
    previous: &Vec<String>,
) -> (result: Result<CommitWork, GitError>)
    requires
        paths@.len() + previous@.len() <= usize::MAX,
    ensures
        work_answer(result) == work_on(
            WorkBase { context: context@, prev_head, editor: editor@ },
            CommitRules { patterns: matcher@, filters_previous, full },
            views(paths@),
            views(previous@),
        ),
{
    match drop_unwanted(editor, previous, matcher, filters_previous, full, &paths) {
        Err(e) => Err(e),
        Ok((editor, count)) => {
            let ignored: usize = count_left_out(&paths, matcher);
            let before: usize = count_left_out(previous, matcher);
            let candidates = keep_candidates(paths, matcher);
            let work = CommitWork {
                context,
                prev_head,
                editor,
                candidates,
                next: 0,
                changed: count,
                ignored: ignored + before,
            };
            assert(views(work.candidates@).skip(0) =~= views(work.candidates@));
            Ok(work)
        },
    }
}

impl CommitScoped {
    /// Goes on with the paths of the files in the previous tree. Where there is an
    /// ignore file, what does not belong to snapshots by now is taken out of the
    /// tree; the files themselves are not touched.
    pub fn previous(self, previous: Vec<String>) -> (result: Result<CommitWork, GitError>)
        requires
            self.paths@.len() + previous@.len() <= usize::MAX,
        ensures
            work_answer(result) == work_on(
                WorkBase {
                    context: self.context@,
                    prev_head: self.prev_head,
                    editor: self.editor@,
                },
                CommitRules {
                    patterns: self.matcher@,
                    filters_previous: self.has_ignore_file,
                    full: false,
                },
                views(self.paths@),
                views(previous@),
            ),
    {
        begin_work(
            self.context,
            self.prev_head,
            self.editor,
            &self.matcher,
            self.has_ignore_file,
            false,
            self.paths,
            &previous,
        )
    }
}

impl CommitListing {
    /// Goes on with the paths of all files of the account and of the files in the
    /// previous tree. What is gone by now, or does not belong to snapshots, is
    /// taken out of the tree; the files themselves are not touched.
    pub fn listed(self, listing: Vec<String>, previous: Vec<String>) -> (result: Result<
        CommitWork,
        GitError,
    >)
        requires
            listing@.len() + previous@.len() <= usize::MAX,
        ensures
            work_answer(result) == work_on(
                WorkBase {
                    context: self.context@,
                    prev_head: self.prev_head,
                    editor: self.editor@,
                },
                CommitRules { patterns: self.matcher@, filters_previous: true, full: true },
                views(listing@),
                views(previous@),
            ),
    {
        begin_work(
            self.context,
            self.prev_head,
            self.editor,
            &self.matcher,
            true,
            true,
            listing,
            &previous,
        )
    }
}

// ---- The state of each path ------------------------------------------------

/// What was found at a path.
#[derive(Debug)]
pub enum PathState {
    /// A directory.
    Directory,
    /// A file, whose content was stored as the blob `oid`. `previous` is what
    /// the previous tree holds at the path.
    File { oid: ObjectId, previous: Option<ObjectId> },
    /// Nothing.
    Missing { previous: Option<ObjectId> },
    /// It could not be found out.
    Failed(GitError),
}

/// Waits for the state of the first pending path; where none is pending,
/// `finish` goes on.
#[derive(Debug)]
pub struct CommitWork {
    context: CommitContext,
    prev_head: Option<ObjectId>,
    editor: TreeEditor,
    candidates: Vec<String>,
    next: usize,
    changed: usize,
    ignored: usize,
}

/// Where the work of a commit stands.
#[verifier::ext_equal]
pub struct WorkView {
    pub context: ContextView,
    pub prev_head: Option<ObjectId>,
    pub editor: EditorModel,
    /// The paths whose state is not known yet.
    pub pending: Seq<Seq<char>>,
    /// How many entries of the tree have changed.
    pub changed: nat,
    /// How many paths were left out because of the patterns.
    pub ignored: nat,
}

impl View for CommitWork {
    type V = WorkView;

    closed spec fn view(&self) -> WorkView {
        WorkView {
            context: self.context@,
            prev_head: self.prev_head,
            editor: self.editor@,
            pending: views(self.candidates@).skip(self.next as int),
            changed: self.changed as nat,
            ignored: self.ignored as nat,
        }
    }
}

/// What the state of a path does to the tree, and whether that is a change. A
/// first commit has no previous tree.
pub open spec fn observed(
    m: EditorModel,
    first: bool,
    path: Seq<char>,
    state: PathState,
) -> Result<(EditorModel, bool), GitErrorView> {
    match state {
        PathState::Directory => Ok((m, false)),
        PathState::File { oid, previous } => if !first && previous == Some(oid) {
            Ok((m, false))
        } else {
            match m.upserted(path, oid) {
                (after, Ok(())) => Ok((after, true)),
                (_, Err(e)) => Err(e),
            }
        },
        PathState::Missing { previous } => if first || previous is None {
            Ok((m, false))
        } else {
            match m.removed(path) {
                (after, Ok(())) => Ok((after, true)),
                (_, Err(e)) => Err(e),
            }
        },
        PathState::Failed(e) => Err(e@),
    }
}

impl WorkView {
    /// Where the work stands once the state of the first pending path is known.
    pub open spec fn after(self, state: PathState) -> Result<WorkView, GitErrorView> {
        match observed(self.editor, self.prev_head is None, self.pending[0], state) {
            Err(e) => Err(e),
            Ok((editor, change)) => Ok(
                WorkView {
                    editor,
                    pending: self.pending.drop_first(),
                    changed: self.changed + if change {
                        1nat
                    } else {
                        0nat
                    },
                    ..self
                },
            ),
        }
    }

    /// Where the work stands once the states of as many pending paths are known.
    pub open spec fn after_all(self, states: Seq<PathState>) -> Result<WorkView, GitErrorView>
        decreases states.len(),
    {
        if states.len() == 0 {
            Ok(self)
        } else {
            match self.after_all(states.drop_last()) {
                Err(e) => Err(e),
                Ok(before) => before.after(states.last()),
            }
        }
    }
}

/// Where a commit stands once the state of every path is known.
#[derive(Debug)]
pub enum CommitFinish {
    /// Nothing has changed.
    Unchanged(CommitResponse),
    /// Something has changed.
    Changed(CommitWrite),
}

impl CommitWork {
    #[verifier::type_invariant]
    spec fn well_formed(self) -> bool {
        &&& self.next <= self.candidates@.len()
        &&& self.changed + (self.candidates@.len() - self.next) <= usize::MAX
    }

    /// The first pending path, relative to the account.
    pub fn path(&self) -> (path: Option<String>)
        ensures
            match path {
                Some(p) => self@.pending.len() > 0 && p@ == self@.pending[0],
                None => self@.pending.len() == 0,
            },
    {
        proof {
            use_type_invariant(&*self);
        }
        if self.next < self.candidates.len() {
            Some(self.candidates[self.next].clone())
        } else {
            None
        }
    }

    /// Where the first pending path stands in the file system.
    pub fn absolute_path(&self) -> (path: Option<String>)
        ensures
            match path {
                Some(p) => self@.pending.len() > 0 && p@ == absolute(
                    self@.context.account,
                    self@.pending[0],
                ),
                None => self@.pending.len() == 0,
            },
    {
        match self.path() {
            Some(p) => Some(absolute_path(self.context.account.as_str(), p.as_str())),
            None => None,
        }
    }

    /// Goes on with the state of the first pending path.
    pub fn record(self, state: PathState) -> (result: Result<CommitWork, GitError>)
        requires
            self@.pending.len() > 0,
        ensures
            match result {
                Ok(w) => self@.after(state) == Ok::<_, GitErrorView>(w@),
                Err(e) => self@.after(state) == Err::<WorkView, _>(e@),
            },
    {
        proof {
            use_type_invariant(&self);
        }
        let ghost start = self@;
        let CommitWork { context, prev_head, editor, candidates, next, changed, ignored } = self;
        let mut editor = editor;
        let mut changed: usize = changed;
        let ghost all = views(candidates@);
        assert(candidates@.len() == candidates.len());
        assert(start.pending.drop_first() =~= all.skip(next + 1));
        assert(start.pending[0] == candidates@[next as int]@);
        match state {
            PathState::Directory => {},
            PathState::File { oid, previous } => {
                let same = prev_head.is_some() && match previous {
                    Some(p) => p == oid,
                    None => false,
                };
                assert(same == (prev_head is Some && previous == Some(oid))) by {
                    broadcast use lemma_same_bytes;

                }
                if !same {
                    match editor.upsert(candidates[next].as_str(), oid) {
                        Ok(()) => {
                            changed = changed + 1;
                        },
                        Err(e) => {
                            return Err(e);
                        },
                    }
                }
            },
            PathState::Missing { previous } => {
                if prev_head.is_some() && previous.is_some() {
                    match editor.remove(candidates[next].as_str()) {
                        Ok(()) => {
                            changed = changed + 1;
                        },
                        Err(e) => {
                            return Err(e);
                        },
                    }
                }
            },
            PathState::Failed(e) => {
                return Err(e);
            },
        }
        Ok(CommitWork { context, prev_head, editor, candidates, next: next + 1, changed, ignored })
    }

    /// Goes on once no path is pending.
    pub fn finish(self) -> (finish: CommitFinish)
        requires
            self@.pending.len() == 0,
        ensures
            match finish {
                CommitFinish::Unchanged(CommitResponse::Noop { commit_oid, ignored }) => {
                    &&& self@.changed == 0
                    &&& ignored == self@.ignored
                    &&& match self@.prev_head {
                        Some(head) => commit_oid == head,
                        None => commit_oid.is_null(),
                    }
                },
                CommitFinish::Changed(w) => self@.changed > 0 && w.context@ == self@.context
                    && w.prev_head == self@.prev_head && w.editor@ == self@.editor && w.changed
                    == self@.changed && w.ignored == self@.ignored,
                _ => false,
            },
    {
        if self.changed == 0 {
            CommitFinish::Unchanged(
                CommitResponse::Noop {
                    commit_oid: match self.prev_head {
                        Some(head) => head,
                        None => ObjectId::null(),
                    },
                    ignored: self.ignored,
                },
            )
        } else {
            CommitFinish::Changed(
                CommitWrite {
                    context: self.context,
                    prev_head: self.prev_head,
                    editor: self.editor,
                    changed: self.changed,
                    ignored: self.ignored,
                },
            )
        }
    }
}

// ---- Writing the commit ----------------------------------------------------

/// Waits for the tree of `editor` to be stored.
#[derive(Debug)]
pub struct CommitWrite {
    pub context: CommitContext,
    pub prev_head: Option<ObjectId>,
    pub editor: TreeEditor,
    pub changed: usize,
    pub ignored: usize,
}

/// Waits for a commit with these fields to be stored: the author is also the
/// committer.
#[derive(Debug)]
pub struct CommitRecord {
    pub context: CommitContext,
    pub tree: ObjectId,
    pub parents: Vec<ObjectId>,
    pub prev_head: Option<ObjectId>,
    pub changed: usize,
    pub ignored: usize,
}

/// Waits for the ref `context.ref_name` to be moved from `expected` to `new`.
#[derive(Debug)]
pub struct CommitUpdate {
    pub context: CommitContext,
    pub expected: Option<ObjectId>,
    pub new: ObjectId,
    pub changed: usize,
    pub ignored: usize,
}

/// The parents of a commit: the head of the branch, where there is one.
pub open spec fn parents_of(head: Option<ObjectId>) -> Seq<ObjectId> {
    match head {
        Some(oid) => seq![oid],
        None => Seq::empty(),
    }
}

impl CommitWrite {
    /// Goes on with the identifier of the stored tree.
    pub fn tree_written(self, tree: Result<ObjectId, GitError>) -> (result: Result<
        CommitRecord,
        GitError,
    >)
        ensures
            match (tree, result) {
                (Ok(tree), Ok(r)) => r.tree == tree && r.parents@ == parents_of(self.prev_head)
                    && r.prev_head == self.prev_head && r.context == self.context && r.changed
                    == self.changed && r.ignored == self.ignored,
                (Err(e), Err(r)) => r == e,
                _ => false,
            },
    {
        match tree {
            Err(e) => Err(e),
            Ok(tree) => {
                let mut parents: Vec<ObjectId> = Vec::new();
                if let Some(head) = self.prev_head {
                    parents.push(head);
                }
                assert(parents@ =~= parents_of(self.prev_head));
                Ok(
                    CommitRecord {
                        context: self.context,
                        tree,
                        parents,
                        prev_head: self.prev_head,
                        changed: self.changed,
                        ignored: self.ignored,
                    },
                )
            },
        }
    }
}

impl CommitRecord {
    /// Goes on with the identifier of the stored commit.
    pub fn commit_written(self, commit: Result<ObjectId, GitError>) -> (result: Result<
        CommitUpdate,
        GitError,
    >)
        ensures
            match (commit, result) {
                (Ok(oid), Ok(u)) => u.new == oid && u.expected == self.prev_head && u.context
                    == self.context && u.changed == self.changed && u.ignored == self.ignored,
                (Err(e), Err(r)) => r == e,
                _ => false,
            },
    {
        match commit {
            Err(e) => Err(e),
            Ok(new) => Ok(
                CommitUpdate {
                    context: self.context,
                    expected: self.prev_head,
                    new,
                    changed: self.changed,
                    ignored: self.ignored,
                },
            ),
        }
    }
}

impl CommitUpdate {
    /// Ends with the outcome of the update of the branch.
    pub fn updated(self, update: Result<(), RefStoreError>) -> (result: Result<
        CommitResponse,
        GitError,
    >)
        ensures
            match (update, result) {
                (Ok(()), Ok(CommitResponse::Created { commit_oid, changed, ignored })) => commit_oid
                    == self.new && changed == self.changed && ignored == self.ignored,
                (Err(e), Err(r)) => r@ == update_error(self.context.ref_name@, e@),
                _ => false,
            },
    {
        match update {
            Ok(()) => Ok(
                CommitResponse::Created {
                    commit_oid: self.new,
                    changed: self.changed,
                    ignored: self.ignored,
                },
            ),
            Err(e) => Err(ref_update_error(self.context.ref_name, e)),
        }
    }
}

// ---- Laws ------------------------------------------------------------------

/// The tree once the states of the paths have been recorded in turn, and the
/// number of changes.
pub open spec fn recorded(
    m: EditorModel,
    first: bool,
    steps: Seq<(Seq<char>, PathState)>,
) -> Result<(EditorModel, nat), GitErrorView>
    decreases steps.len(),
{
    if steps.len() == 0 {
        Ok((m, 0))
    } else {
        match recorded(m, first, steps.drop_last()) {
            Err(e) => Err(e),
            Ok((before, count)) => match observed(
                before,
                first,
                steps.last().0,
                steps.last().1,
            ) {
                Err(e) => Err(e),
                Ok((after, change)) => Ok(
                    (
                        after,
                        count + if change {
                            1nat
                        } else {
                            0nat
                        },
                    ),
                ),
            },
        }
    }
}

/// The states of the first pending paths, each with its path.
pub open spec fn with_paths(pending: Seq<Seq<char>>, states: Seq<PathState>) -> Seq<
    (Seq<char>, PathState),
> {
    Seq::new(states.len(), |i: int| (pending[i], states[i]))
}

/// Recording the states one after the other edits the tree as they do in turn,
/// and counts their changes.
pub proof fn law_work_records(work: WorkView, states: Seq<PathState>)
    requires
        states.len() <= work.pending.len(),
    ensures
        match (
            work.after_all(states),
            recorded(work.editor, work.prev_head is None, with_paths(work.pending, states)),
        ) {
            (Ok(after), Ok((tree, count))) => after == (WorkView {
                editor: tree,
                pending: work.pending.skip(states.len() as int),
                changed: work.changed + count,
                ..work
            }),
            (Err(a), Err(b)) => a == b,
            _ => false,
        },
    decreases states.len(),
{
    let steps = with_paths(work.pending, states);
    if states.len() > 0 {
        let front = states.drop_last();
        law_work_records(work, front);
        assert(steps.drop_last() =~= with_paths(work.pending, front));
        assert(work.pending.skip(front.len() as int)[0] == work.pending[front.len() as int]);
        assert(work.pending.skip(front.len() as int).drop_first() =~= work.pending.skip(
            states.len() as int,
        ));
    } else {
        assert(work.pending.skip(0) =~= work.pending);
    }
}

/// A path that occurs twice was found in one state.
pub open spec fn steady_steps(steps: Seq<(Seq<char>, PathState)>) -> bool {
    forall|i: int, j: int|
        0 <= i < j < steps.len() && (#[trigger] steps[i]).0 == (#[trigger] steps[j]).0
            ==> steps[i].1 == steps[j].1
}

/// What the tree holds at a path.
pub open spec fn oid_at(m: EditorModel, path: Seq<char>) -> Option<ObjectId> {
    match m.entry(path) {
        Some(node) => Some(node.oid),
        None => None,
    }
}

/// What was looked up in the previous tree is what the editor started with. A
/// first commit starts with the empty tree.
pub open spec fn agrees_with(
    m: EditorModel,
    first: bool,
    steps: Seq<(Seq<char>, PathState)>,
) -> bool {
    &&& first ==> m == EditorModel::empty()
    &&& !first ==> forall|i: int|
        0 <= i < steps.len() ==> match (#[trigger] steps[i]).1 {
            PathState::File { previous, .. } => previous == oid_at(m, steps[i].0),
            PathState::Missing { previous } => previous == oid_at(m, steps[i].0),
            _ => true,
        }
}

proof fn lemma_step_keeps(
    m: EditorModel,
    first: bool,
    path: Seq<char>,
    state: PathState,
    other: Seq<char>,
)
    requires
        observed(m, first, path, state) is Ok,
        other != path,
    ensures
        ({
            let after = observed(m, first, path, state)->Ok_0.0;
            &&& m.entry(other) is Some ==> after.entry(other) == m.entry(other)
            &&& m.entry(other) is None ==> after.entry(other) is None || after.entry(other)->0.mode
                == EntryKind::Tree
            &&& !on_the_way(other, path) ==> after.entry(other) == m.entry(
                other,
            )
        }),
{
    match state {
        PathState::File { oid, .. } => {
            if m.upserted(path, oid).1 is Ok {
                law_upsert(m, path, oid, other);
            }
        },
        PathState::Missing { .. } => {
            if m.removed(path).1 is Ok {
                law_remove(m, path, other);
            }
        },
        _ => {},
    }
}

proof fn lemma_recorded_prefix(
    m: EditorModel,
    first: bool,
    steps: Seq<(Seq<char>, PathState)>,
    n: int,
)
    requires
        0 <= n <= steps.len(),
        recorded(m, first, steps) is Ok,
    ensures
        recorded(m, first, steps.take(n)) is Ok,
    decreases steps.len(),
{
    if n < steps.len() {
        assert(steps.drop_last().take(n) =~= steps.take(n));
        lemma_recorded_prefix(m, first, steps.drop_last(), n);
    } else {
        assert(steps.take(n) =~= steps);
    }
}

/// Before its turn, a path holds what it held at the start, or has become a
/// directory.
proof fn lemma_untouched(
    m: EditorModel,
    first: bool,
    steps: Seq<(Seq<char>, PathState)>,
    other: Seq<char>,
)
    requires
        recorded(m, first, steps) is Ok,
        forall|k: int| 0 <= k < steps.len() ==> (#[trigger] steps[k]).0 != other,
    ensures
        ({
            let after = recorded(m, first, steps)->Ok_0.0;
            &&& m.entry(other) is Some ==> after.entry(other) == m.entry(other)
            &&& m.entry(other) is None ==> after.entry(other) is None || after.entry(other)->0.mode
                == EntryKind::Tree
        }),
    decreases steps.len(),
{
    if steps.len() > 0 {
        let front = steps.drop_last();
        assert forall|k: int| 0 <= k < front.len() implies (#[trigger] front[k]).0 != other by {
            assert(front[k] == steps[k]);
        }
        lemma_untouched(m, first, front, other);
        let before = recorded(m, first, front)->Ok_0.0;
        assert(steps[steps.len() - 1].0 != other);
        lemma_step_keeps(before, first, steps.last().0, steps.last().1, other);
    }
}

/// What a file or a missing path leaves at its path.
spec fn left_at(m: EditorModel, path: Seq<char>, state: PathState) -> bool {
    match state {
        PathState::File { oid, .. } => oid_at(m, path) == Some(oid),
        PathState::Missing { .. } => m.entry(path) is None || m.entry(path)->0.mode
            == EntryKind::Tree,
        _ => true,
    }
}

proof fn lemma_left_at(
    m: EditorModel,
    first: bool,
    steps: Seq<(Seq<char>, PathState)>,
    at: int,
    n: int,
)
    requires
        0 <= at < n <= steps.len(),
        recorded(m, first, steps) is Ok,
        steady_steps(steps),
        agrees_with(m, first, steps),
        !(steps[at].1 is Directory),
    ensures
        recorded(m, first, steps.take(n)) is Ok,
        left_at(recorded(m, first, steps.take(n))->Ok_0.0, steps[at].0, steps[at].1),
    decreases n,
{
    let path = steps[at].0;
    let state = steps[at].1;
    lemma_recorded_prefix(m, first, steps, n);
    lemma_recorded_prefix(m, first, steps, n - 1);
    let here = steps.take(n);
    assert(here.drop_last() =~= steps.take(n - 1));
    assert(here.last() == steps[n - 1]);
    let before = recorded(m, first, steps.take(n - 1))->Ok_0.0;
    if steps[n - 1].0 == path {
        assert(steps[n - 1].1 == state) by {
            if at < n - 1 {
                assert(steps[at].1 == steps[n - 1].1);
            }
        }
        let front = steps.take(n - 1);
        if exists|k: int| 0 <= k < n - 1 && (#[trigger] steps[k]).0 == path {
            let k = choose|k: int| 0 <= k < n - 1 && (#[trigger] steps[k]).0 == path;
            assert(steps[k].1 == steps[n - 1].1);
            lemma_left_at(m, first, steps, k, n - 1);
        } else {
            assert forall|k: int| 0 <= k < front.len() implies (#[trigger] front[k]).0 != path by {
                assert(front[k] == steps[k]);
            }
            lemma_untouched(m, first, front, path);
        }
        match state {
            PathState::File { oid, previous } => {
                if first || previous != Some(oid) {
                    law_upsert(before, path, oid, path);
                } else {
                    assert(oid_at(m, path) == Some(oid));
                }
            },
            PathState::Missing { previous } => {
                if first {
                    assert(m.entry(path) is None);
                } else if previous is Some {
                    law_remove(before, path, path);
                } else {
                    assert(m.entry(path) is None);
                }
            },
            _ => {},
        }
    } else {
        lemma_left_at(m, first, steps, at, n - 1);
        lemma_step_keeps(before, first, steps[n - 1].0, steps[n - 1].1, path);
    }
}

/// The tree of a commit holds every file that was found, with its content, and
/// no file where none was found.
pub proof fn law_commit_reflects_files(
    m: EditorModel,
    first: bool,
    steps: Seq<(Seq<char>, PathState)>,
    at: int,
)
    requires
        0 <= at < steps.len(),
        recorded(m, first, steps) is Ok,
        steady_steps(steps),
        agrees_with(m, first, steps),
    ensures
        match steps[at].1 {
            PathState::File { oid, .. } => oid_at(
                recorded(m, first, steps)->Ok_0.0,
                steps[at].0,
            ) == Some(oid),
            PathState::Missing { .. } => recorded(m, first, steps)->Ok_0.0.entry(steps[at].0) is None
                || recorded(m, first, steps)->Ok_0.0.entry(steps[at].0)->0.mode == EntryKind::Tree,
            _ => true,
        },
{
    if !(steps[at].1 is Directory) {
        lemma_left_at(m, first, steps, at, steps.len() as int);
        assert(steps.take(steps.len() as int) =~= steps);
    }
}

/// Every directory on the way to `path` is one.
pub open spec fn way_is_open(m: EditorModel, path: Seq<char>) -> bool {
    forall|dir: Seq<char>| #[trigger]
        on_the_way(dir, path) ==> is_directory(m, dir)
}

/// A directory stands at the path.
pub open spec fn is_directory(m: EditorModel, path: Seq<char>) -> bool {
    m.entry(path) is Some && m.entry(path)->0.mode == EntryKind::Tree
}

proof fn lemma_directory_stays(
    m: EditorModel,
    first: bool,
    steps: Seq<(Seq<char>, PathState)>,
    dir: Seq<char>,
    from: int,
)
    requires
        0 <= from <= steps.len(),
        recorded(m, first, steps) is Ok,
        recorded(m, first, steps.take(from)) is Ok,
        is_directory(recorded(m, first, steps.take(from))->Ok_0.0, dir),
        forall|k: int|
            from <= k < steps.len() && (#[trigger] steps[k]).0 == dir ==> steps[k].1 is Directory,
    ensures
        is_directory(recorded(m, first, steps)->Ok_0.0, dir),
    decreases steps.len(),
{
    if from < steps.len() {
        let front = steps.drop_last();
        assert(front.take(from) =~= steps.take(from));
        assert forall|k: int| from <= k < front.len() && (#[trigger] front[k]).0 == dir implies
            front[k].1 is Directory by {
            assert(front[k] == steps[k]);
        }
        lemma_directory_stays(m, first, front, dir, from);
        assert(steps.last() == steps[steps.len() - 1]);
        if steps.last().0 != dir {
            lemma_step_keeps(
                recorded(m, first, front)->Ok_0.0,
                first,
                steps.last().0,
                steps.last().1,
                dir,
            );
        }
    } else {
        assert(steps.take(from) =~= steps);
    }
}

/// A file of a commit can be reached in its tree: every directory on the way to
/// it is one. The tree that the commit starts with has such ways to its entries,
/// and where a path of the commit lies on the way, a directory was found there.
pub proof fn law_commit_files_reachable(
    m: EditorModel,
    first: bool,
    steps: Seq<(Seq<char>, PathState)>,
    at: int,
)
    requires
        0 <= at < steps.len(),
        recorded(m, first, steps) is Ok,
        agrees_with(m, first, steps),
        forall|path: Seq<char>| (#[trigger] m.entry(path)) is Some ==> way_is_open(m, path),
        steps[at].1 is File,
        forall|k: int|
            0 <= k < steps.len() && on_the_way((#[trigger] steps[k]).0, steps[at].0)
                ==> steps[k].1 is Directory,
    ensures
        way_is_open(recorded(m, first, steps)->Ok_0.0, steps[at].0),
{
    let path = steps[at].0;
    let end = recorded(m, first, steps)->Ok_0.0;
    assert forall|dir: Seq<char>| #[trigger]
        on_the_way(dir, path) implies is_directory(end, dir) by {
        assert forall|k: int| 0 <= k < steps.len() && (#[trigger] steps[k]).0 == dir implies
            steps[k].1 is Directory by {
            assert(on_the_way(steps[k].0, path));
        }
        match steps[at].1 {
            PathState::File { oid, previous } => {
                if !first && previous == Some(oid) {
                    assert(m.entry(path) is Some);
                    assert(way_is_open(m, path));
                    assert(is_directory(m, dir));
                    assert(steps.take(0) =~= Seq::<(Seq<char>, PathState)>::empty());
                    lemma_directory_stays(m, first, steps, dir, 0);
                } else {
                    let here = steps.take(at + 1);
                    lemma_recorded_prefix(m, first, steps, at + 1);
                    lemma_recorded_prefix(m, first, steps, at);
                    assert(here.drop_last() =~= steps.take(at));
                    assert(here.last() == steps[at]);
                    let before = recorded(m, first, steps.take(at))->Ok_0.0;
                    law_upsert(before, path, oid, dir);
                    lemma_directory_stays(m, first, steps, dir, at + 1);
                }
            },
            _ => {},
        }
    }
}

/// A commit leaves every entry alone that is neither at one of its paths nor on
/// the way to one.
pub proof fn law_commit_leaves_the_rest(
    m: EditorModel,
    first: bool,
    steps: Seq<(Seq<char>, PathState)>,
    other: Seq<char>,
)
    requires
        recorded(m, first, steps) is Ok,
        forall|k: int|
            0 <= k < steps.len() ==> (#[trigger] steps[k]).0 != other
                && !on_the_way(other, steps[k].0),
    ensures
        recorded(m, first, steps)->Ok_0.0.entry(other) == m.entry(other),
    decreases steps.len(),
{
    if steps.len() > 0 {
        let front = steps.drop_last();
        assert forall|k: int| 0 <= k < front.len() implies (#[trigger] front[k]).0 != other
            && !on_the_way(other, front[k].0) by {
            assert(front[k] == steps[k]);
        }
        law_commit_leaves_the_rest(m, first, front, other);
        assert(steps[steps.len() - 1] == steps.last());
        lemma_step_keeps(
            recorded(m, first, front)->Ok_0.0,
            first,
            steps.last().0,
            steps.last().1,
            other,
        );
    }
}

/// The state of a path counts as a change.
pub open spec fn counts(first: bool, state: PathState) -> bool {
    match state {
        PathState::File { oid, previous } => first || previous != Some(oid),
        PathState::Missing { previous } => !first && previous is Some,
        _ => false,
    }
}

/// The number of changes is that of the paths that were found otherwise than the
/// previous tree has them.
pub proof fn law_changes_are_counted(
    m: EditorModel,
    first: bool,
    steps: Seq<(Seq<char>, PathState)>,
)
    requires
        recorded(m, first, steps) is Ok,
    ensures
        recorded(m, first, steps)->Ok_0.1 == steps.filter(
            |s: (Seq<char>, PathState)| counts(first, s.1),
        ).len(),
    decreases steps.len(),
{
    reveal(Seq::filter);
    if steps.len() > 0 {
        law_changes_are_counted(m, first, steps.drop_last());
    }
}

/// Where nothing counts as a change, the tree is what it was.
pub proof fn law_no_change(m: EditorModel, first: bool, steps: Seq<(Seq<char>, PathState)>)
    requires
        recorded(m, first, steps) is Ok,
        recorded(m, first, steps)->Ok_0.1 == 0,
    ensures
        recorded(m, first, steps)->Ok_0.0 == m,
    decreases steps.len(),
{
    if steps.len() > 0 {
        law_no_change(m, first, steps.drop_last());
    }
}

/// Committing the same files again changes nothing.
pub proof fn law_commit_again(
    m: EditorModel,
    first: bool,
    steps: Seq<(Seq<char>, PathState)>,
    again: Seq<(Seq<char>, PathState)>,
)
    requires
        recorded(m, first, steps) is Ok,
        steady_steps(steps),
        agrees_with(m, first, steps),
        again.len() == steps.len(),
        forall|i: int|
            0 <= i < steps.len() ==> (#[trigger] again[i]).0 == steps[i].0 && match steps[i].1 {
                PathState::File { oid, .. } => again[i].1 matches PathState::File { oid: o, .. }
                    && o == oid,
                PathState::Directory => again[i].1 is Directory,
                _ => false,
            },
        agrees_with(recorded(m, first, steps)->Ok_0.0, false, again),
    ensures
        recorded(recorded(m, first, steps)->Ok_0.0, false, again) == Ok::<
            (EditorModel, nat),
            GitErrorView,
        >((recorded(m, first, steps)->Ok_0.0, 0)),
{
    let tree = recorded(m, first, steps)->Ok_0.0;
    assert forall|i: int| 0 <= i < again.len() implies observed(
        tree,
        false,
        (#[trigger] again[i]).0,
        again[i].1,
    ) == Ok::<(EditorModel, bool), GitErrorView>((tree, false)) by {
        law_commit_reflects_files(m, first, steps, i);
        assert(steps[i].0 == again[i].0);
    }
    lemma_all_same(tree, again);
}

proof fn lemma_all_same(tree: EditorModel, steps: Seq<(Seq<char>, PathState)>)
    requires
        forall|i: int|
            0 <= i < steps.len() ==> observed(tree, false, (#[trigger] steps[i]).0, steps[i].1)
                == Ok::<(EditorModel, bool), GitErrorView>((tree, false)),
    ensures
        recorded(tree, false, steps) == Ok::<(EditorModel, nat), GitErrorView>((tree, 0)),
    decreases steps.len(),
{
    if steps.len() > 0 {
        let front = steps.drop_last();
        assert forall|i: int| 0 <= i < front.len() implies observed(
            tree,
            false,
            (#[trigger] front[i]).0,
            front[i].1,
        ) == Ok::<(EditorModel, bool), GitErrorView>((tree, false)) by {
            assert(front[i] == steps[i]);
        }
        lemma_all_same(tree, front);
        assert(steps.last() == steps[steps.len() - 1]);
    }
}

/// Without an ignore file a commit looks at exactly those of its paths that the
/// runtime does not keep, and counts none as left out. Of given paths it begins with
/// the previous tree as it is; of the whole account, without the files that are
/// gone and what the runtime keeps.
pub proof fn law_no_ignore_file(
    base: WorkBase,
    full: bool,
    paths: Seq<Seq<char>>,
    previous: Seq<Seq<char>>,
)
    ensures
        ({
            let rules = CommitRules { patterns: None, filters_previous: full, full };
            let work = work_on(base, rules, paths, previous);
            let gone = previous.filter(|p: Seq<char>| pruned(p) || !paths.contains(p));
            &&& work matches Ok(w) ==> w.pending == paths.filter(|p: Seq<char>| !pruned(p))
                && w.ignored == 0
            &&& !full ==> (work matches Ok(w) && w.editor == base.editor && w.changed == 0)
            &&& full ==> match (work, without_paths(base.editor, gone)) {
                (Ok(w), Ok(editor)) => w.editor == editor && w.changed == gone.len(),
                (Err(a), Err(b)) => a == b,
                _ => false,
            }
        }),
{
    let rules = CommitRules { patterns: None, filters_previous: full, full };
    lemma_ignore_file_not_pruned();
    lemma_same_filter(
        paths,
        |p: Seq<char>| candidate(None, p),
        |p: Seq<char>| !pruned(p),
    );
    lemma_same_filter(
        paths,
        |p: Seq<char>| !pruned(p) && excluded(None, p),
        |p: Seq<char>| false,
    );
    lemma_same_filter(
        previous,
        |p: Seq<char>| !pruned(p) && excluded(None, p),
        |p: Seq<char>| false,
    );
    lemma_no_filter(paths);
    lemma_no_filter(previous);
    if full {
        lemma_same_filter(
            previous,
            |p: Seq<char>| unwanted(rules, paths, p),
            |p: Seq<char>| pruned(p) || !paths.contains(p),
        );
    } else {
        lemma_same_filter(
            previous,
            |p: Seq<char>| unwanted(rules, paths, p),
            |p: Seq<char>| false,
        );
    }
}

proof fn lemma_same_filter<A>(s: Seq<A>, a: spec_fn(A) -> bool, b: spec_fn(A) -> bool)
    requires
        forall|x: A| #[trigger] a(x) == b(x),
    ensures
        s.filter(a) == s.filter(b),
{
    assert(a =~= b);
}

proof fn lemma_no_filter<A>(s: Seq<A>)
    ensures
        s.filter(|x: A| false) == Seq::<A>::empty(),
    decreases s.len(),
{
    reveal(Seq::filter);
    if s.len() > 0 {
        lemma_no_filter(s.drop_last());
    }
}

/// The paths that a commit looks at are those that belong to snapshots. This
/// leaves out the paths that cannot be held against patterns.
pub proof fn law_candidates_belong_to_snapshots(patterns: Option<Seq<Seq<char>>>, path: Seq<char>)
    requires
        can_match(patterns, path),
    ensures
        candidate(patterns, path) == in_snapshots(patterns, path),
{
    lemma_ignore_file_not_pruned();
}

proof fn lemma_without_paths(m: EditorModel, paths: Seq<Seq<char>>, path: Seq<char>)
    requires
        without_paths(m, paths) is Ok,
    ensures
        paths.contains(path) ==> without_paths(m, paths)->Ok_0.entry(path) is None,
        !paths.contains(path) ==> without_paths(m, paths)->Ok_0.entry(path) == m.entry(path),
    decreases paths.len(),
{
    if paths.len() > 0 {
        let front = paths.drop_last();
        lemma_without_paths(m, front, path);
        law_remove(without_paths(m, front)->Ok_0, paths.last(), path);
        assert(paths =~= front.push(paths.last()));
        if paths.contains(path) && path != paths.last() {
            let i = choose|i: int| 0 <= i < paths.len() && paths[i] == path;
            assert(front[i] == path);
        }
        if front.contains(path) {
            let i = choose|i: int| 0 <= i < front.len() && front[i] == path;
            assert(paths[i] == path);
        }
        assert(paths[paths.len() - 1] == paths.last());
    }
}

proof fn lemma_proper_paths_go(m: EditorModel, paths: Seq<Seq<char>>)
    requires
        forall|i: int| 0 <= i < paths.len() ==> path_error(#[trigger] paths[i]) is None,
    ensures
        without_paths(m, paths) is Ok,
    decreases paths.len(),
{
    if paths.len() > 0 {
        lemma_proper_paths_go(m, paths.drop_last());
        assert(paths.last() == paths[paths.len() - 1]);
    }
}

/// `previous` are paths of files in a tree, each a proper path.
pub open spec fn names_files(m: EditorModel, previous: Seq<Seq<char>>) -> bool {
    &&& forall|i: int| 0 <= i < previous.len() ==> path_error(#[trigger] previous[i]) is None
    &&& forall|path: Seq<char>| #[trigger]
        previous.contains(path) ==> m.entry(path) is Some && m.entry(path)->0.mode
            != EntryKind::Tree
}

/// `previous` are the paths of all files in a tree.
pub open spec fn lists_files(m: EditorModel, previous: Seq<Seq<char>>) -> bool {
    &&& names_files(m, previous)
    &&& forall|path: Seq<char>|
        (#[trigger] m.entry(path)) is Some && m.entry(path)->0.mode != EntryKind::Tree
            ==> previous.contains(path)
}

/// The files that the next tree does not hold can be taken out of the tree. They
/// are gone then, and every other entry is as it was.
pub proof fn law_unwanted_files_are_dropped(
    m: EditorModel,
    rules: CommitRules,
    paths: Seq<Seq<char>>,
    previous: Seq<Seq<char>>,
    path: Seq<char>,
)
    requires
        forall|i: int| 0 <= i < previous.len() ==> path_error(#[trigger] previous[i]) is None,
    ensures
        ({
            let rest = without_paths(m, dropped(rules, paths, previous));
            let gone = previous.contains(path) && unwanted(rules, paths, path);
            &&& rest is Ok
            &&& gone ==> rest->Ok_0.entry(path) is None
            &&& !gone ==> rest->Ok_0.entry(path) == m.entry(path)
        }),
{
    let out = |p: Seq<char>| unwanted(rules, paths, p);
    let gone = dropped(rules, paths, previous);
    assert(gone == previous.filter(out));
    assert forall|i: int| 0 <= i < gone.len() implies path_error(#[trigger] gone[i]) is None by {
        assert(gone.contains(gone[i]));
        lemma_filter_iff(previous, out, gone[i]);
        let j = choose|j: int| 0 <= j < previous.len() && previous[j] == gone[i];
        assert(path_error(previous[j]) is None);
    }
    lemma_proper_paths_go(m, gone);
    lemma_without_paths(m, gone, path);
    lemma_filter_iff(previous, out, path);
}

/// What a commit looks at is among its paths and belongs to snapshots.
proof fn lemma_pending(
    rules: CommitRules,
    paths: Seq<Seq<char>>,
    path: Seq<char>,
)
    ensures
        candidates(rules.patterns, paths).contains(path) <==> paths.contains(path)
            && candidate(rules.patterns, path),
        candidates(rules.patterns, paths).contains(path) ==> !unwanted(rules, paths, path),
{
    lemma_filter_iff(paths, |p: Seq<char>| candidate(rules.patterns, p), path);
}

/// The tree of a commit holds no file that does not belong to snapshots, and a
/// commit of the whole account none that is gone, whatever the previous tree held.
/// A file of the previous tree that is left out for this is a change.
pub proof fn law_commit_holds_what_belongs(
    base: WorkBase,
    rules: CommitRules,
    paths: Seq<Seq<char>>,
    previous: Seq<Seq<char>>,
    states: Seq<PathState>,
    path: Seq<char>,
)
    requires
        lists_files(base.editor, previous),
        work_on(base, rules, paths, previous) is Ok,
        ({
            let work = work_on(base, rules, paths, previous)->Ok_0;
            states.len() == work.pending.len() && work.after_all(states) is Ok
        }),
    ensures
        ({
            let after = work_on(base, rules, paths, previous)->Ok_0.after_all(
                states,
            )->Ok_0;
            let gone = unwanted(rules, paths, path);
            &&& gone ==> after.editor.entry(path) is None || after.editor.entry(path)->0.mode
                == EntryKind::Tree
            &&& gone && previous.contains(path) ==> after.changed > 0
        }),
{
    let work = work_on(base, rules, paths, previous)->Ok_0;
    let steps = with_paths(work.pending, states);
    law_work_records(work, states);
    law_unwanted_files_are_dropped(base.editor, rules, paths, previous, path);
    if unwanted(rules, paths, path) {
        assert forall|k: int| 0 <= k < steps.len() implies (#[trigger] steps[k]).0 != path by {
            assert(steps[k].0 == work.pending[k]);
            assert(work.pending.contains(work.pending[k]));
            lemma_pending(rules, paths, work.pending[k]);
        }
        lemma_untouched(work.editor, work.prev_head is None, steps, path);
        if previous.contains(path) {
            let out = |p: Seq<char>| unwanted(rules, paths, p);
            lemma_filter_iff(previous, out, path);
            assert(dropped(rules, paths, previous).contains(path));
        } else {
            assert(previous.contains(path) <==> base.editor.entry(path) is Some
                && base.editor.entry(path)->0.mode != EntryKind::Tree);
        }
    }
}

/// A commit that looks at a file puts it in its tree, with its content, and the
/// way to it is open. The tree at the head has open ways; a directory was found
/// where a path of the commit lies on the way; and no directory has the
/// identifier of the content.
pub proof fn law_commit_holds_the_file(
    base: WorkBase,
    rules: CommitRules,
    paths: Seq<Seq<char>>,
    previous: Seq<Seq<char>>,
    states: Seq<PathState>,
    path: Seq<char>,
    blob: ObjectId,
)
    requires
        base.prev_head is None ==> base.editor == EditorModel::empty(),
        names_files(base.editor, previous),
        forall|p: Seq<char>| (#[trigger] base.editor.entry(p)) is Some ==> way_is_open(
            base.editor,
            p,
        ),
        work_on(base, rules, paths, previous) is Ok,
        ({
            let work = work_on(base, rules, paths, previous)->Ok_0;
            let steps = with_paths(work.pending, states);
            &&& states.len() == work.pending.len()
            &&& work.after_all(states) is Ok
            &&& agrees_with(base.editor, base.prev_head is None, steps)
            &&& forall|k: int|
                0 <= k < steps.len() && (#[trigger] steps[k]).0 == path ==> (steps[k].1 matches
                    PathState::File { oid, .. } && oid == blob)
            &&& forall|k: int|
                0 <= k < steps.len() && on_the_way((#[trigger] steps[k]).0, path)
                    ==> steps[k].1 is Directory
        }),
        paths.contains(path),
        candidate(rules.patterns, path),
        is_directory(base.editor, path) ==> base.editor.entry(path)->0.oid != blob,
    ensures
        ({
            let after = work_on(base, rules, paths, previous)->Ok_0.after_all(
                states,
            )->Ok_0;
            &&& after.editor.entry(path) matches Some(node)
            &&& node.oid == blob
            &&& node.mode != EntryKind::Tree
            &&& way_is_open(after.editor, path)
        }),
{
    let first = base.prev_head is None;
    let work = work_on(base, rules, paths, previous)->Ok_0;
    let steps = with_paths(work.pending, states);
    let rest = work.editor;
    law_work_records(work, states);
    lemma_pending(rules, paths, path);
    let at = choose|at: int| 0 <= at < work.pending.len() && work.pending[at] == path;
    assert(steps[at].0 == path);
    assert forall|i: int| 0 <= i < steps.len() implies rest.entry((#[trigger] steps[i]).0)
        == base.editor.entry(steps[i].0) by {
        assert(work.pending.contains(work.pending[i]));
        lemma_pending(rules, paths, work.pending[i]);
        law_unwanted_files_are_dropped(base.editor, rules, paths, previous, steps[i].0);
    }
    if first {
        assert(dropped(rules, paths, previous).len() == 0) by {
            let gone = dropped(rules, paths, previous);
            if gone.len() > 0 {
                assert(gone.contains(gone[0]));
                lemma_filter_iff(previous, |p: Seq<char>| unwanted(rules, paths, p), gone[0]);
                assert(base.editor.entry(gone[0]) is Some);
            }
        }
    }
    assert(agrees_with(rest, first, steps)) by {
        assert forall|i: int| 0 <= i < steps.len() && !first implies match (#[trigger] steps[i]).1 {
            PathState::File { previous, .. } => previous == oid_at(rest, steps[i].0),
            PathState::Missing { previous } => previous == oid_at(rest, steps[i].0),
            _ => true,
        } by {
            assert(rest.entry(steps[i].0) == base.editor.entry(steps[i].0));
        }
    }
    assert forall|p: Seq<char>| (#[trigger] rest.entry(p)) is Some implies way_is_open(rest, p) by {
        law_unwanted_files_are_dropped(base.editor, rules, paths, previous, p);
        assert(way_is_open(base.editor, p));
        assert forall|dir: Seq<char>| #[trigger] on_the_way(dir, p) implies is_directory(
            rest,
            dir,
        ) by {
            assert(is_directory(base.editor, dir));
            assert(!previous.contains(dir));
            law_unwanted_files_are_dropped(base.editor, rules, paths, previous, dir);
        }
    }
    law_commit_files_reachable(rest, first, steps, at);
    lemma_file_stands(rest, first, steps, at, steps.len() as int, blob);
    assert(steps.take(steps.len() as int) =~= steps);
}

/// Once a file was recorded, it stands at its path.
proof fn lemma_file_stands(
    m: EditorModel,
    first: bool,
    steps: Seq<(Seq<char>, PathState)>,
    at: int,
    n: int,
    blob: ObjectId,
)
    requires
        0 <= at < n <= steps.len(),
        recorded(m, first, steps) is Ok,
        agrees_with(m, first, steps),
        forall|k: int|
            0 <= k < steps.len() && (#[trigger] steps[k]).0 == steps[at].0 ==> (steps[k].1 matches
                PathState::File { oid, .. } && oid == blob),
        is_directory(m, steps[at].0) ==> m.entry(steps[at].0)->0.oid != blob,
    ensures
        recorded(m, first, steps.take(n)) is Ok,
        oid_at(recorded(m, first, steps.take(n))->Ok_0.0, steps[at].0) == Some(blob),
        !is_directory(recorded(m, first, steps.take(n))->Ok_0.0, steps[at].0),
    decreases n,
{
    let path = steps[at].0;
    let last = steps[n - 1];
    let front = steps.take(n - 1);
    lemma_recorded_prefix(m, first, steps, n);
    lemma_recorded_prefix(m, first, steps, n - 1);
    assert(steps.take(n).drop_last() =~= front);
    assert(steps.take(n).last() == last);
    let before = recorded(m, first, front)->Ok_0.0;
    if last.0 == path {
        if exists|k: int| 0 <= k < n - 1 && (#[trigger] steps[k]).0 == path {
            let k = choose|k: int| 0 <= k < n - 1 && (#[trigger] steps[k]).0 == path;
            lemma_file_stands(m, first, steps, k, n - 1, blob);
        } else {
            assert forall|k: int| 0 <= k < front.len() implies (#[trigger] front[k]).0 != path by {
                assert(front[k] == steps[k]);
            }
            lemma_untouched(m, first, front, path);
        }
        match last.1 {
            PathState::File { oid, previous } => {
                if first || previous != Some(oid) {
                    law_upsert(before, path, oid, path);
                } else {
                    assert(oid_at(m, path) == Some(oid));
                }
            },
            _ => {},
        }
    } else {
        lemma_file_stands(m, first, steps, at, n - 1, blob);
        lemma_step_keeps(before, first, last.0, last.1, path);
    }
}

} // verus!
