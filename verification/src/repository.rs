//! The stores of an account as a whole, and what whole operations make of them. An
//! operation asks the stores for one thing after the other; here the answers are
//! those that the stores hold.

use crate::commit::{
    agrees_with, branch_ref, candidate, counts, dropped, is_directory, law_changes_are_counted,
    law_commit_holds_the_file, law_commit_leaves_the_rest, law_commit_reflects_files,
    law_no_change, law_no_ignore_file, law_unwanted_files_are_dropped, law_work_records,
    names_files, oid_at, steady_steps, unwanted, way_is_open, with_paths, work_on, CommitRules,
    PathState, WorkBase, WorkView,
};
use crate::diff::{distinct_paths, files, law_same_subtree};
use crate::enumerate::pruned;
use crate::error::{GitError, GitErrorView, ObjectStoreErrorView, RefStoreErrorView};
use crate::object::{
    blob_of, commit_of, header, header_of, law_blob_round_trip, CommitMetaView, ObjectKind,
};
use crate::oid::{hex, lemma_same_bytes, ObjectId};
use crate::order::lemma_filter_iff;
use crate::resolve::{
    all_hex, fits, law_branch_name, law_first_digits, law_full_oid, law_full_ref_name,
    law_search_answers, law_search_goes_on, law_search_loads, law_search_starts, target_of,
    within, RefTargetView, SearchStepView, SearchView, SEARCH_ABORTED,
};
use crate::restore::{as_directory, RestoreDecision, RestoreFiles};
use crate::s3::{key_of, law_accounts_apart, object_place};
use crate::show::{
    begins_show, blob_to_show, ShowBlob, ShowCommit, ShowNext, ShowPath, ShowStart,
};
use crate::text::begins;
use crate::tree_builder::{
    law_upsert_subtree, on_the_way, path_error, EditorModel, EntryKind, Node,
};
use crate::types::{RestoreResponse, ShowRequest, ShowResponse};
use crate::util::ref_name_error;
use vstd::prelude::*;
use vstd::utf8::encode_utf8;

verus! {

// ---- The stores ------------------------------------------------------------

/// What a stored tree holds, by path, at every depth.
pub type StoredTree = Map<Seq<char>, (ObjectId, EntryKind)>;

/// The stores of one account.
pub struct Repository {
    /// The stored form of each object.
    pub objects: Map<ObjectId, Seq<u8>>,
    /// What each stored tree holds.
    pub trees: Map<ObjectId, StoredTree>,
    /// The refs, by their full names.
    pub refs: Map<Seq<char>, ObjectId>,
}

/// What a map holds at a key.
pub open spec fn found_at<K, V>(map: Map<K, V>, key: K) -> Option<V> {
    if map.contains_key(key) {
        Some(map[key])
    } else {
        None
    }
}

/// The paths of a stored tree are proper ones, and what is on the way to each is a
/// directory.
pub open spec fn tree_is_sound(tree: StoredTree) -> bool {
    &&& forall|path: Seq<char>| #[trigger] tree.contains_key(path) ==> path_error(path) is None
    &&& forall|path: Seq<char>, dir: Seq<char>| #[trigger]
        tree.contains_key(path) && #[trigger] on_the_way(dir, path) ==> tree.contains_key(dir)
            && tree[dir].1 == EntryKind::Tree
}

impl Repository {
    /// Every object has a header; a commit has its tree, and a directory is stored
    /// as a tree.
    pub open spec fn sound(self) -> bool {
        &&& forall|oid: ObjectId| #[trigger]
            self.objects.contains_key(oid) ==> header_of(self.objects[oid]) is Some
        &&& forall|oid: ObjectId|
            (#[trigger] self.commit(oid)) matches Ok(meta) ==> self.trees.contains_key(meta.tree)
        &&& forall|oid: ObjectId| #[trigger]
            self.trees.contains_key(oid) ==> tree_is_sound(self.trees[oid])
        &&& forall|oid: ObjectId, path: Seq<char>|
            self.trees.contains_key(oid) && #[trigger] self.trees[oid].contains_key(path)
                && self.trees[oid][path].1 == EntryKind::Tree ==> self.holds_tree(
                self.trees[oid][path].0,
            )
    }

    /// The object is stored as a tree.
    pub open spec fn holds_tree(self, oid: ObjectId) -> bool {
        self.objects.contains_key(oid) && (header_of(self.objects[oid]) matches Some(h) && h.0
            == ObjectKind::Tree)
    }

    /// The stored form of an object.
    pub open spec fn object(self, oid: ObjectId) -> Result<Seq<u8>, GitErrorView> {
        if self.objects.contains_key(oid) {
            Ok(self.objects[oid])
        } else {
            Err(GitErrorView::ObjectStore(ObjectStoreErrorView::NotFound(oid)))
        }
    }

    /// What a stored commit records.
    pub open spec fn commit(self, oid: ObjectId) -> Result<CommitMetaView, GitErrorView> {
        match self.object(oid) {
            Ok(raw) => commit_of(raw),
            Err(e) => Err(e),
        }
    }

    /// The commits, each with its parents.
    pub open spec fn graph(self) -> Map<ObjectId, Seq<ObjectId>> {
        Map::new(
            |oid: ObjectId| self.commit(oid) is Ok,
            |oid: ObjectId| self.commit(oid)->Ok_0.parents,
        )
    }

    /// The entry at a path of a stored tree.
    pub open spec fn entry(self, tree: ObjectId, path: Seq<char>) -> Option<(ObjectId, EntryKind)> {
        found_at(self.trees[tree], path)
    }

    /// `tips` are the values of the refs.
    pub open spec fn has_tips(self, tips: Seq<ObjectId>) -> bool {
        forall|oid: ObjectId| #[trigger]
            tips.contains(oid) <==> exists|name: Seq<char>| #[trigger]
                self.refs.contains_key(name) && self.refs[name] == oid
    }

    /// What was stored before is stored still.
    pub open spec fn extends(self, before: Repository) -> bool {
        &&& before.objects.submap_of(self.objects)
        &&& before.trees.submap_of(self.trees)
    }
}

// ---- A show ----------------------------------------------------------------

/// What a show gives.
pub enum ShownView {
    Commit { oid: ObjectId, meta: CommitMetaView },
    Blob { oid: ObjectId, size: u64, bytes: Seq<u8> },
}

/// The search for an abbreviated identifier once `n` commits were looked at.
pub open spec fn search_after(
    repo: Repository,
    tips: Seq<ObjectId>,
    prefix: Seq<char>,
    n: nat,
) -> Result<SearchView, GitErrorView>
    decreases n,
{
    if n == 0 {
        Ok(SearchView::started(prefix, tips))
    } else {
        match search_after(repo, tips, prefix, (n - 1) as nat) {
            Err(e) => Err(e),
            Ok(search) => match search.next() {
                SearchStepView::Load { oid, search } => search.loaded(oid, repo.commit(oid)),
                SearchStepView::Done(_) => Ok(search),
            },
        }
    }
}

/// `result` is the commit that a target names. A search goes on until it ends.
pub open spec fn resolves(
    repo: Repository,
    tips: Seq<ObjectId>,
    target: RefTargetView,
    result: Result<ObjectId, GitErrorView>,
) -> bool {
    match target {
        RefTargetView::Oid(oid) => result == Ok::<_, GitErrorView>(oid),
        RefTargetView::Name(name) => result == match found_at(repo.refs, name) {
            Some(oid) => Ok::<_, GitErrorView>(oid),
            None => Err(GitErrorView::RefStore(RefStoreErrorView::NotFound(name))),
        },
        RefTargetView::Abbreviated(prefix) => exists|n: nat|
            match #[trigger] search_after(repo, tips, prefix, n) {
                Ok(search) => search.next() == SearchStepView::Done(result),
                Err(e) => result == Err::<ObjectId, _>(e),
            },
    }
}

/// What a show of a commit gives, or of a file in it.
pub open spec fn shown_at(repo: Repository, commit: ObjectId, path: Option<Seq<char>>) -> Result<
    ShownView,
    GitErrorView,
> {
    match (repo.commit(commit), path) {
        (Err(e), _) => Err(e),
        (Ok(meta), None) => Ok(ShownView::Commit { oid: commit, meta }),
        (Ok(meta), Some(path)) => match blob_to_show(path, repo.entry(meta.tree, path)) {
            Err(e) => Err(e),
            Ok(oid) => match repo.object(oid) {
                Err(e) => Err(e),
                Ok(raw) => match blob_of(raw, Some(path)) {
                    Err(e) => Err(e),
                    Ok((size, bytes)) => Ok(ShownView::Blob { oid, size, bytes }),
                },
            },
        },
    }
}

/// `commit` is what the text of a target leads to.
pub open spec fn leads_to(
    repo: Repository,
    tips: Seq<ObjectId>,
    target: Seq<char>,
    commit: Result<ObjectId, GitErrorView>,
) -> bool {
    exists|named: Result<RefTargetView, GitErrorView>| #[trigger]
        target_of(target, named) && match named {
            Ok(t) => resolves(repo, tips, t, commit),
            Err(e) => commit == Err::<ObjectId, _>(e),
        }
}

/// `result` is what a show gives, of the target and the path that it is asked for.
pub open spec fn shows(
    repo: Repository,
    tips: Seq<ObjectId>,
    target: Seq<char>,
    path: Option<Seq<char>>,
    result: Result<ShownView, GitErrorView>,
) -> bool {
    exists|commit: Result<ObjectId, GitErrorView>| #[trigger]
        leads_to(repo, tips, target, commit) && result == match commit {
            Ok(oid) => shown_at(repo, oid, path),
            Err(e) => Err(e),
        }
}

/// The answer of a show, by what it holds.
pub open spec fn shown(response: Result<ShowResponse, GitError>) -> Result<
    ShownView,
    GitErrorView,
> {
    match response {
        Ok(ShowResponse::Commit { oid, tree, parents, author, committer, message }) => Ok(
            ShownView::Commit {
                oid,
                meta: CommitMetaView {
                    tree,
                    parents: parents@,
                    author: author@,
                    committer: committer@,
                    message: message@,
                },
            },
        ),
        Ok(ShowResponse::Blob { oid, size, bytes }) => Ok(
            ShownView::Blob { oid, size, bytes: bytes@ },
        ),
        Err(e) => Err(e@),
    }
}

/// The course of a show: the points at which it waited, and the answers that it got.
pub struct ShowRun {
    pub req: ShowRequest,
    pub start: ShowStart,
    pub named: Result<ObjectId, GitError>,
    pub commit: ShowCommit,
    pub raw_commit: Result<Vec<u8>, GitError>,
    pub path: ShowPath,
    pub entry: Option<(ObjectId, EntryKind)>,
    pub blob: ShowBlob,
    pub raw_blob: Result<Vec<u8>, GitError>,
    pub response: Result<ShowResponse, GitError>,
}

/// The stores answer with the stored form of an object.
pub open spec fn answers_object(
    repo: Repository,
    oid: ObjectId,
    read: Result<Vec<u8>, GitError>,
) -> bool {
    match read {
        Ok(raw) => repo.object(oid) == Ok::<_, GitErrorView>(raw@),
        Err(e) => repo.object(oid) == Err::<Seq<u8>, _>(e@),
    }
}

impl ShowRun {
    /// The stores answered what the show asked for.
    pub open spec fn answered(self, repo: Repository, tips: Seq<ObjectId>) -> bool {
        &&& resolves(
            repo,
            tips,
            self.start.target@,
            match self.named {
                Ok(oid) => Ok(oid),
                Err(e) => Err(e@),
            },
        )
        &&& answers_object(repo, self.commit.commit, self.raw_commit)
        &&& self.entry == repo.entry(self.path.tree, self.path.path@)
        &&& answers_object(repo, self.blob.blob, self.raw_blob)
    }

    /// The show went from one point to the next, and ended with the response. At an
    /// error it ends at once.
    pub open spec fn went(self) -> bool {
        if begins_show(self.req, Ok(self.start)) {
            if self.start.goes_to(self.named, Ok(self.commit)) {
                ||| self.commit.goes_to(self.raw_commit, Ok(ShowNext::Path(self.path))) && if (
                self.path.goes_to(Ok(self.entry), Ok(self.blob))) {
                    self.blob.ends_with(self.raw_blob, self.response)
                } else {
                    self.response matches Err(e) && self.path.goes_to(Ok(self.entry), Err(e))
                }
                ||| self.response matches Ok(r) && self.commit.goes_to(
                    self.raw_commit,
                    Ok(ShowNext::Done(r)),
                )
                ||| self.response matches Err(e) && self.commit.goes_to(self.raw_commit, Err(e))
            } else {
                self.response matches Err(e) && self.start.goes_to(self.named, Err(e))
            }
        } else {
            self.response matches Err(e) && begins_show(self.req, Err(e))
        }
    }
}

/// A show whose questions the stores answer gives what `shows` says of them.
pub proof fn law_course_of_a_show(repo: Repository, tips: Seq<ObjectId>, run: ShowRun)
    requires
        run.answered(repo, tips),
        run.went(),
    ensures
        shows(
            repo,
            tips,
            run.req.target_ref@,
            match run.req.path {
                Some(p) => Some(p@),
                None => None,
            },
            shown(run.response),
        ),
{
    let target = run.req.target_ref@;
    if begins_show(run.req, Ok(run.start)) {
        let found = match run.named {
            Ok(oid) => Ok::<_, GitErrorView>(oid),
            Err(e) => Err(e@),
        };
        assert(target_of(target, Ok(run.start.target@)));
        assert(leads_to(repo, tips, target, found));
    } else {
        let e = run.response->Err_0;
        assert(target_of(target, Err(e@)));
        assert(leads_to(repo, tips, target, Err(e@)));
    }
}

proof fn lemma_one_target(
    target: Seq<char>,
    a: Result<RefTargetView, GitErrorView>,
    b: Result<RefTargetView, GitErrorView>,
)
    requires
        target_of(target, a),
        target_of(target, b),
    ensures
        a == b,
{
    if let (Ok(RefTargetView::Oid(x)), Ok(RefTargetView::Oid(y))) = (a, b) {
        lemma_same_bytes(x, y);
    }
}

/// The search of a repository is on track all the way.
proof fn lemma_search(repo: Repository, tips: Seq<ObjectId>, prefix: Seq<char>, n: nat)
    requires
        repo.sound(),
    ensures
        search_after(repo, tips, prefix, n) matches Ok(search) && search.prefix == prefix
            && search.on_track(repo.graph(), tips, None),
    decreases n,
{
    let graph = repo.graph();
    if n == 0 {
        law_search_starts(graph, tips, prefix);
    } else {
        lemma_search(repo, tips, prefix, (n - 1) as nat);
        let search = search_after(repo, tips, prefix, (n - 1) as nat)->Ok_0;
        if let SearchStepView::Load { oid, search: waiting } = search.next() {
            law_search_goes_on(graph, tips, search);
            assert(waiting.visited.last() == oid);
            assert(waiting.visited.contains(oid));
            assert(waiting.loaded(oid, repo.commit(oid)) is Ok) by {
                if repo.objects.contains_key(oid) {
                    assert(header_of(repo.objects[oid]) is Some);
                }
            }
            law_search_loads(graph, tips, waiting, oid, repo.commit(oid));
        }
    }
}

/// A target that names a commit by its first digits leads to it, where no other
/// commit of the repository fits them. A search that looked at too many commits
/// is given up, and is left out here.
proof fn lemma_unique_digits(
    repo: Repository,
    tips: Seq<ObjectId>,
    commit: ObjectId,
    prefix: Seq<char>,
    result: Result<ObjectId, GitErrorView>,
)
    requires
        repo.sound(),
        resolves(repo, tips, RefTargetView::Abbreviated(prefix), result),
        !(result matches Err(GitErrorView::Other(_))),
        fits(repo.graph(), tips, prefix, commit),
        forall|o: ObjectId| #[trigger] fits(repo.graph(), tips, prefix, o) ==> o == commit,
    ensures
        result == Ok::<_, GitErrorView>(commit),
{
    let n = choose|n: nat|
        match #[trigger] search_after(repo, tips, prefix, n) {
            Ok(search) => search.next() == SearchStepView::Done(result),
            Err(e) => result == Err::<ObjectId, _>(e),
        };
    lemma_search(repo, tips, prefix, n);
    law_search_answers(repo.graph(), tips, search_after(repo, tips, prefix, n)->Ok_0);
}

/// The ways to name the commit at the head of a branch: the branch, the full name
/// of the ref, the whole identifier, and its first `n` digits.
pub open spec fn names_head(
    branch: Seq<char>,
    commit: ObjectId,
    n: int,
    target: Seq<char>,
) -> bool {
    ||| target == branch
    ||| target == branch_ref(branch)
    ||| target == hex(commit.bytes@)
    ||| target == hex(commit.bytes@).take(n)
}

/// All ways to name the commit at the head of a branch show the same: that commit,
/// or the file in it. The name of the branch is no run of hexadecimal digits that
/// would be taken for an identifier, the first digits fit no other commit, and their
/// search is not given up.
pub proof fn law_one_commit_for_all_targets(
    repo: Repository,
    tips: Seq<ObjectId>,
    branch: Seq<char>,
    commit: ObjectId,
    n: int,
    target: Seq<char>,
    path: Option<Seq<char>>,
    result: Result<ShownView, GitErrorView>,
)
    requires
        repo.sound(),
        repo.has_tips(tips),
        repo.refs.contains_key(branch_ref(branch)),
        repo.refs[branch_ref(branch)] == commit,
        repo.commit(commit) is Ok,
        ref_name_error(branch_ref(branch)) is None,
        !begins(branch, "refs/"@),
        !(all_hex(encode_utf8(branch)) && 4 <= encode_utf8(branch).len() <= 40),
        4 <= n < 40,
        forall|o: ObjectId| #[trigger]
            fits(repo.graph(), tips, hex(commit.bytes@).take(n), o) ==> o == commit,
        !leads_to(repo, tips, target, Err(GitErrorView::Other(SEARCH_ABORTED@))),
        names_head(branch, commit, n, target),
        shows(repo, tips, target, path, result),
    ensures
        result == shown_at(repo, commit, path),
        path is None ==> result == Ok::<_, GitErrorView>(
            ShownView::Commit { oid: commit, meta: repo.commit(commit)->Ok_0 },
        ),
{
    let found = choose|found: Result<ObjectId, GitErrorView>| #[trigger]
        leads_to(repo, tips, target, found) && result == match found {
            Ok(oid) => shown_at(repo, oid, path),
            Err(e) => Err(e),
        };
    let named = choose|named: Result<RefTargetView, GitErrorView>| #[trigger]
        target_of(target, named) && match named {
            Ok(t) => resolves(repo, tips, t, found),
            Err(e) => found == Err::<ObjectId, _>(e),
        };
    let digits = hex(commit.bytes@);
    let name = branch_ref(branch);
    if target == branch {
        law_branch_name(branch);
        lemma_one_target(target, named, Ok(RefTargetView::Name(name)));
    } else if target == name {
        lemma_branch_is_full_name(branch);
        law_full_ref_name(name);
        lemma_one_target(target, named, Ok(RefTargetView::Name(name)));
    } else if target == digits {
        law_full_oid(commit);
        lemma_one_target(target, named, Ok(RefTargetView::Oid(commit)));
    } else {
        let prefix = digits.take(n);
        law_first_digits(commit, n);
        lemma_one_target(target, named, Ok(RefTargetView::Abbreviated(prefix)));
        assert(fits(repo.graph(), tips, prefix, commit)) by {
            assert(tips.contains(commit));
            assert(within(repo.graph(), tips, commit, 0));
        }
        lemma_search_ends(repo, tips, prefix, found);
        lemma_unique_digits(repo, tips, commit, prefix, found);
    }
}

proof fn lemma_branch_is_full_name(branch: Seq<char>)
    ensures
        begins(branch_ref(branch), "refs/"@),
{
    reveal_strlit("refs/");
    reveal_strlit("refs/heads/");
    assert(branch_ref(branch).subrange(0, 5) =~= "refs/"@);
}

/// A search that ends with a message was given up.
proof fn lemma_search_ends(
    repo: Repository,
    tips: Seq<ObjectId>,
    prefix: Seq<char>,
    result: Result<ObjectId, GitErrorView>,
)
    requires
        repo.sound(),
        resolves(repo, tips, RefTargetView::Abbreviated(prefix), result),
    ensures
        result matches Err(GitErrorView::Other(t)) ==> t == SEARCH_ABORTED@,
{
    let n = choose|n: nat|
        match #[trigger] search_after(repo, tips, prefix, n) {
            Ok(search) => search.next() == SearchStepView::Done(result),
            Err(e) => result == Err::<ObjectId, _>(e),
        };
    lemma_search(repo, tips, prefix, n);
}

/// What an account stored cannot be read through another: a show that is asked for
/// the identifier of a commit answers that there is no such object. The names of
/// accounts hold no slash, every key belongs to another account, and the account has
/// only the objects that stand at its own keys.
pub proof fn law_accounts_do_not_share(
    keys: Set<Seq<char>>,
    prefix: Seq<char>,
    account: Seq<char>,
    repo: Repository,
    tips: Seq<ObjectId>,
    commit: ObjectId,
    path: Option<Seq<char>>,
    result: Result<ShownView, GitErrorView>,
)
    requires
        !account.contains('/'),
        forall|key: Seq<char>| #[trigger] keys.contains(key) ==> of_another(prefix, account, key),
        forall|oid: ObjectId| #[trigger]
            repo.objects.contains_key(oid) ==> keys.contains(
                key_of(prefix, account, object_place(oid)),
            ),
        shows(repo, tips, hex(commit.bytes@), path, result),
    ensures
        result == Err::<ShownView, _>(
            GitErrorView::ObjectStore(ObjectStoreErrorView::NotFound(commit)),
        ),
{
    let found = choose|found: Result<ObjectId, GitErrorView>| #[trigger]
        leads_to(repo, tips, hex(commit.bytes@), found) && result == match found {
            Ok(oid) => shown_at(repo, oid, path),
            Err(e) => Err(e),
        };
    let named = choose|named: Result<RefTargetView, GitErrorView>| #[trigger]
        target_of(hex(commit.bytes@), named) && match named {
            Ok(t) => resolves(repo, tips, t, found),
            Err(e) => found == Err::<ObjectId, _>(e),
        };
    law_full_oid(commit);
    lemma_one_target(hex(commit.bytes@), named, Ok(RefTargetView::Oid(commit)));
    if repo.objects.contains_key(commit) {
        let key = key_of(prefix, account, object_place(commit));
        assert(keys.contains(key));
        let (other, rest) = choose|other: Seq<char>, rest: Seq<char>|
            other != account && !other.contains('/') && key == #[trigger] key_of(
                prefix,
                other,
                rest,
            );
        law_accounts_apart(prefix, account, other, object_place(commit), rest);
    }
}

/// The key belongs to another account.
pub open spec fn of_another(prefix: Seq<char>, account: Seq<char>, key: Seq<char>) -> bool {
    exists|other: Seq<char>, rest: Seq<char>|
        other != account && !other.contains('/') && key == #[trigger] key_of(prefix, other, rest)
}

// ---- A commit --------------------------------------------------------------

/// The files and directories of an account.
pub struct WorkingTree {
    pub files: Map<Seq<char>, Seq<u8>>,
    pub dirs: Set<Seq<char>>,
}

impl WorkingTree {
    /// A file is no directory, and what is on the way to it is one.
    pub open spec fn sound(self) -> bool {
        &&& forall|path: Seq<char>| #[trigger]
            self.files.contains_key(path) ==> !self.dirs.contains(path)
        &&& forall|path: Seq<char>, dir: Seq<char>| #[trigger]
            self.files.contains_key(path) && #[trigger] on_the_way(dir, path)
                ==> self.dirs.contains(dir)
    }
}

/// An entry of an editor, as a stored tree holds it.
pub open spec fn as_stored(node: Option<Node>) -> Option<(ObjectId, EntryKind)> {
    match node {
        Some(n) => Some((n.oid, n.mode)),
        None => None,
    }
}

/// The editor holds what the stored tree holds.
pub open spec fn opens(editor: EditorModel, tree: StoredTree) -> bool {
    forall|path: Seq<char>| as_stored(#[trigger] editor.entry(path)) == found_at(tree, path)
}

/// The stored tree holds what the editor held: every file that can be reached, and
/// every directory that the editor did not open. The identifier of another
/// directory is computed, and an empty one is left out.
pub open spec fn stores(editor: EditorModel, tree: StoredTree) -> bool {
    forall|path: Seq<char>|
        (#[trigger] editor.entry(path)) is Some && way_is_open(editor, path) && (editor.entry(
            path,
        )->0.mode != EntryKind::Tree || !editor.subtrees.contains_key(path)) ==> found_at(
            tree,
            path,
        ) == as_stored(editor.entry(path))
}

/// A commit that came to its end: what it was asked for, the files of the account,
/// the stores before and after, and the answers that it got.
pub struct CommitRun {
    pub before: Repository,
    pub after: Repository,
    pub account: WorkingTree,
    /// The identifier under which content is stored.
    pub blob_id: spec_fn(Seq<u8>) -> ObjectId,
    pub branch: Seq<char>,
    pub rules: CommitRules,
    /// The paths that were given, or all files of the account.
    pub paths: Seq<Seq<char>>,
    pub base: WorkBase,
    pub previous: Seq<Seq<char>>,
    pub states: Seq<PathState>,
}

impl CommitRun {
    /// The tree at the head: none where the branch does not exist.
    pub open spec fn head_tree(self) -> StoredTree {
        match self.base.prev_head {
            Some(head) => self.before.trees[self.before.commit(head)->Ok_0.tree],
            None => Map::empty(),
        }
    }

    /// What the tree at the head holds at a path.
    pub open spec fn previous_at(self, path: Seq<char>) -> Option<ObjectId> {
        match found_at(self.head_tree(), path) {
            Some((oid, _)) => Some(oid),
            None => None,
        }
    }

    /// The state in which a path is found.
    pub open spec fn finds(self, path: Seq<char>, state: PathState) -> bool {
        if self.account.dirs.contains(path) {
            state is Directory
        } else if self.account.files.contains_key(path) {
            state == (PathState::File {
                oid: (self.blob_id)(self.account.files[path]),
                previous: self.previous_at(path),
            })
        } else {
            state == (PathState::Missing { previous: self.previous_at(path) })
        }
    }

    /// The commit begins at the head of the branch, with an editor of its tree. The
    /// files of that tree are asked for where the commit needs them.
    pub open spec fn began(self) -> bool {
        &&& self.base.prev_head == found_at(self.before.refs, branch_ref(self.branch))
        &&& self.base.prev_head matches Some(head) ==> self.before.commit(head) is Ok
        &&& self.base.prev_head is None ==> self.base.editor == EditorModel::empty()
        &&& opens(self.base.editor, self.head_tree())
        &&& forall|path: Seq<char>| #[trigger]
            self.previous.contains(path) ==> (found_at(self.head_tree(), path) matches Some(e)
                && e.1 != EntryKind::Tree)
        &&& self.rules.filters_previous ==> forall|path: Seq<char>| #[trigger]
            self.head_tree().contains_key(path) && self.head_tree()[path].1 != EntryKind::Tree
                ==> self.previous.contains(path)
        &&& self.rules.full ==> forall|path: Seq<char>| #[trigger]
            self.paths.contains(path) <==> self.account.files.contains_key(path)
    }

    /// The work that the commit begins with.
    pub open spec fn work(self) -> Result<WorkView, GitErrorView> {
        work_on(self.base, self.rules, self.paths, self.previous)
    }

    /// The work once every path was looked at.
    pub open spec fn worked(self) -> WorkView {
        self.work()->Ok_0.after_all(self.states)->Ok_0
    }

    /// Every path was looked at, and the content of the files was stored.
    pub open spec fn looked(self) -> bool {
        &&& self.work() is Ok
        &&& self.states.len() == self.work()->Ok_0.pending.len()
        &&& forall|i: int|
            0 <= i < self.states.len() ==> self.finds(
                self.work()->Ok_0.pending[i],
                #[trigger] self.states[i],
            )
        &&& self.work()->Ok_0.after_all(self.states) is Ok
        &&& forall|path: Seq<char>| #[trigger]
            self.work()->Ok_0.pending.contains(path) && self.account.files.contains_key(path)
                ==> self.holds_blob(self.account.files[path])
    }

    /// Content is stored as a blob.
    pub open spec fn holds_blob(self, bytes: Seq<u8>) -> bool {
        found_at(self.after.objects, (self.blob_id)(bytes)) == Some(
            header(ObjectKind::Blob, bytes.len()) + bytes,
        )
    }

    /// Where nothing changed, the refs are as they were. Else the branch is at a new
    /// commit, whose tree was written from the editor.
    pub open spec fn ended(self) -> bool {
        let name = branch_ref(self.branch);
        &&& self.after.extends(self.before)
        &&& self.worked().changed == 0 ==> self.after.refs == self.before.refs
        &&& self.worked().changed > 0 ==> {
            &&& self.after.refs == self.before.refs.insert(name, self.after.refs[name])
            &&& self.after.commit(self.after.refs[name]) matches Ok(meta) && stores(
                self.worked().editor,
                self.after.trees[meta.tree],
            )
        }
    }

    /// The commit went from its beginning to its end.
    pub open spec fn ran(self) -> bool {
        &&& self.before.sound()
        &&& self.after.sound()
        &&& self.account.sound()
        &&& self.began()
        &&& self.looked()
        &&& self.ended()
    }
}

proof fn lemma_opened_tree(run: CommitRun)
    requires
        run.ran(),
    ensures
        tree_is_sound(run.head_tree()),
        names_files(run.base.editor, run.previous),
        forall|p: Seq<char>| (#[trigger] run.base.editor.entry(p)) is Some ==> way_is_open(
            run.base.editor,
            p,
        ),
{
    let m = run.base.editor;
    let tree = run.head_tree();
    if let Some(head) = run.base.prev_head {
        assert(run.before.commit(head) is Ok);
        assert(run.before.trees.contains_key(run.before.commit(head)->Ok_0.tree));
    }
    assert forall|p: Seq<char>| (#[trigger] m.entry(p)) is Some implies way_is_open(m, p) by {
        assert(as_stored(m.entry(p)) == found_at(tree, p));
        assert forall|dir: Seq<char>| #[trigger] on_the_way(dir, p) implies is_directory(
            m,
            dir,
        ) by {
            assert(tree.contains_key(p));
            assert(tree.contains_key(dir));
            assert(as_stored(m.entry(dir)) == found_at(tree, dir));
        }
    }
    assert forall|i: int| 0 <= i < run.previous.len() implies path_error(
        #[trigger] run.previous[i],
    ) is None by {
        assert(run.previous.contains(run.previous[i]));
        assert(tree.contains_key(run.previous[i]));
    }
    assert forall|p: Seq<char>| #[trigger] run.previous.contains(p) implies m.entry(p) is Some
        && m.entry(p)->0.mode != EntryKind::Tree by {
        assert(as_stored(m.entry(p)) == found_at(tree, p));
    }
}

/// The tree that a commit comes to holds every file of the account that it looked
/// at, with its content, and the way to it is open.
proof fn lemma_committed_file(run: CommitRun, path: Seq<char>)
    requires
        run.ran(),
        run.account.files.contains_key(path),
        run.paths.contains(path),
        candidate(run.rules.patterns, path),
        run.account.files[path].len() <= u64::MAX,
    ensures
        run.work()->Ok_0.pending.contains(path),
        run.worked().editor.entry(path) matches Some(node) && node.oid == (run.blob_id)(
            run.account.files[path],
        ) && node.mode != EntryKind::Tree,
        way_is_open(run.worked().editor, path),
{
    let m = run.base.editor;
    let tree = run.head_tree();
    let first = run.base.prev_head is None;
    let work = run.work()->Ok_0;
    let steps = with_paths(work.pending, run.states);
    let bytes = run.account.files[path];
    let blob = (run.blob_id)(bytes);
    lemma_opened_tree(run);
    lemma_looked(run, path);
    assert forall|i: int| 0 <= i < steps.len() implies run.finds(
        (#[trigger] steps[i]).0,
        steps[i].1,
    ) by {
        assert(run.finds(work.pending[i], run.states[i]));
    }
    assert(agrees_with(m, first, steps)) by {
        assert forall|i: int| 0 <= i < steps.len() && !first implies match (#[trigger] steps[i]).1 {
            PathState::File { previous, .. } => previous == oid_at(m, steps[i].0),
            PathState::Missing { previous } => previous == oid_at(m, steps[i].0),
            _ => true,
        } by {
            assert(run.finds(steps[i].0, steps[i].1));
            assert(as_stored(m.entry(steps[i].0)) == found_at(tree, steps[i].0));
        }
    }
    assert(!run.account.dirs.contains(path));
    assert forall|k: int| 0 <= k < steps.len() && on_the_way((#[trigger] steps[k]).0, path) implies
        steps[k].1 is Directory by {
        assert(run.finds(steps[k].0, steps[k].1));
        assert(run.account.dirs.contains(steps[k].0));
    }
    assert(is_directory(m, path) ==> m.entry(path)->0.oid != blob) by {
        if is_directory(m, path) && m.entry(path)->0.oid == blob {
            assert(as_stored(m.entry(path)) == found_at(tree, path));
            assert(tree.contains_key(path));
            assert(!first);
            let root = run.before.commit(run.base.prev_head->0)->Ok_0.tree;
            assert(run.before.commit(run.base.prev_head->0) is Ok);
            assert(run.before.trees.contains_key(root));
            assert(run.before.trees[root].contains_key(path));
            assert(run.before.holds_tree(blob));
            assert(run.holds_blob(bytes));
            assert(run.before.objects.contains_key(blob));
            assert(run.after.objects[blob] == run.before.objects[blob]);
            law_blob_round_trip(bytes, None);
        }
    }
    law_commit_holds_the_file(
        run.base,
        run.rules,
        run.paths,
        run.previous,
        run.states,
        path,
        blob,
    );
}

/// The tree that a commit comes to. At a path that it looked at stands the file that
/// was found there; where nothing was found, no file. An entry that is neither at
/// such a path nor on the way to one is as at the head, unless it is a file that does
/// not belong there by now.
pub proof fn law_commit_tree(run: CommitRun, path: Seq<char>)
    requires
        run.ran(),
        run.account.files.contains_key(path) ==> run.account.files[path].len() <= u64::MAX,
    ensures
        ({
            let looked = run.work()->Ok_0.pending;
            let entry = as_stored(run.worked().editor.entry(path));
            &&& looked.contains(path) && run.account.files.contains_key(path) ==> (
            entry matches Some(e) && e.0 == (run.blob_id)(run.account.files[path]) && e.1
                != EntryKind::Tree)
            &&& looked.contains(path) && !run.account.files.contains_key(path)
                && !run.account.dirs.contains(path) ==> (entry matches Some(e) ==> e.1
                == EntryKind::Tree)
            &&& !looked.contains(path) && (forall|q: Seq<char>| #[trigger]
                looked.contains(q) ==> !on_the_way(path, q)) ==> entry == if run.previous.contains(
                path,
            ) && unwanted(run.rules, run.paths, path) {
                None
            } else {
                found_at(run.head_tree(), path)
            }
        }),
{
    let m = run.base.editor;
    let first = run.base.prev_head is None;
    let work = run.work()->Ok_0;
    let steps = with_paths(work.pending, run.states);
    lemma_opened_tree(run);
    lemma_work_entry(run, path);
    lemma_looked(run, path);
    law_work_records(work, run.states);
    assert(as_stored(m.entry(path)) == found_at(run.head_tree(), path));
    if work.pending.contains(path) {
        if run.account.files.contains_key(path) {
            lemma_committed_file(run, path);
        } else if !run.account.dirs.contains(path) {
            lemma_steps_agree(run);
            let at = choose|at: int| 0 <= at < work.pending.len() && work.pending[at] == path;
            assert(steps[at].0 == path);
            assert(run.finds(work.pending[at], run.states[at]));
            law_commit_reflects_files(work.editor, first, steps, at);
        }
    } else if forall|q: Seq<char>| #[trigger]
        work.pending.contains(q) ==> !on_the_way(path, q) {
        assert forall|k: int| 0 <= k < steps.len() implies (#[trigger] steps[k]).0 != path
            && !on_the_way(path, steps[k].0) by {
            assert(work.pending.contains(work.pending[k]));
        }
        law_commit_leaves_the_rest(work.editor, first, steps, path);
    }
}

/// What a commit looks at is among its paths and belongs to snapshots.
proof fn lemma_looked(run: CommitRun, path: Seq<char>)
    requires
        run.work() is Ok,
    ensures
        run.work()->Ok_0.pending.contains(path) <==> run.paths.contains(path) && candidate(
            run.rules.patterns,
            path,
        ),
{
    lemma_filter_iff(run.paths, |p: Seq<char>| candidate(run.rules.patterns, p), path);
}

/// The work begins with what the head holds, but for what does not belong by now.
proof fn lemma_work_entry(run: CommitRun, path: Seq<char>)
    requires
        run.ran(),
    ensures
        run.work()->Ok_0.editor.entry(path) == if run.previous.contains(path) && unwanted(
            run.rules,
            run.paths,
            path,
        ) {
            None
        } else {
            run.base.editor.entry(path)
        },
        run.work()->Ok_0.pending.contains(path) ==> !unwanted(run.rules, run.paths, path),
{
    lemma_opened_tree(run);
    lemma_looked(run, path);
    law_unwanted_files_are_dropped(run.base.editor, run.rules, run.paths, run.previous, path);
}

/// What was looked up agrees with the tree that the work begins with, and a path that
/// occurs twice was found in one state.
proof fn lemma_steps_agree(run: CommitRun)
    requires
        run.ran(),
    ensures
        ({
            let work = run.work()->Ok_0;
            let steps = with_paths(work.pending, run.states);
            &&& agrees_with(work.editor, run.base.prev_head is None, steps)
            &&& steady_steps(steps)
        }),
{
    let m = run.base.editor;
    let first = run.base.prev_head is None;
    let work = run.work()->Ok_0;
    let steps = with_paths(work.pending, run.states);
    assert forall|i: int| 0 <= i < steps.len() implies run.finds(
        (#[trigger] steps[i]).0,
        steps[i].1,
    ) by {
        assert(run.finds(work.pending[i], run.states[i]));
    }
    if first {
        assert(run.previous.len() == 0) by {
            if run.previous.len() > 0 {
                assert(run.previous.contains(run.previous[0]));
            }
        }
        assert(dropped(run.rules, run.paths, run.previous).len() == 0) by {
            reveal(Seq::filter);
        }
    } else {
        assert forall|i: int| 0 <= i < steps.len() implies match (#[trigger] steps[i]).1 {
            PathState::File { previous, .. } => previous == oid_at(work.editor, steps[i].0),
            PathState::Missing { previous } => previous == oid_at(work.editor, steps[i].0),
            _ => true,
        } by {
            assert(run.finds(steps[i].0, steps[i].1));
            assert(work.pending.contains(work.pending[i]));
            lemma_work_entry(run, steps[i].0);
            assert(as_stored(m.entry(steps[i].0)) == found_at(run.head_tree(), steps[i].0));
        }
    }
    assert forall|i: int, j: int|
        0 <= i < j < steps.len() && (#[trigger] steps[i]).0 == (#[trigger] steps[j]).0 implies
        steps[i].1 == steps[j].1 by {
        assert(run.finds(steps[i].0, steps[i].1));
        assert(run.finds(steps[j].0, steps[j].1));
    }
}

/// The account has at a path what the head of the branch has: a directory counts as
/// the same as anything.
pub open spec fn is_same(run: CommitRun, path: Seq<char>) -> bool {
    ||| run.account.dirs.contains(path)
    ||| run.previous_at(path) == if run.account.files.contains_key(path) {
        Some((run.blob_id)(run.account.files[path]))
    } else {
        None
    }
}

/// Without an ignore file, a commit of given paths changes something if and only if
/// one of them that the runtime does not keep is not the same as at the head. Where
/// nothing changes, the refs are as they were.
pub proof fn law_scoped_noop(run: CommitRun)
    requires
        run.ran(),
        run.rules == (CommitRules { patterns: None, filters_previous: false, full: false }),
    ensures
        run.worked().changed == 0 <==> forall|path: Seq<char>| #[trigger]
            run.paths.contains(path) && !pruned(path) ==> is_same(run, path),
        run.worked().changed == 0 ==> run.after.refs == run.before.refs,
{
    let first = run.base.prev_head is None;
    let work = run.work()->Ok_0;
    let steps = with_paths(work.pending, run.states);
    let change = |s: (Seq<char>, PathState)| counts(first, s.1);
    law_no_ignore_file(run.base, false, run.paths, run.previous);
    law_work_records(work, run.states);
    law_changes_are_counted(work.editor, first, steps);
    assert forall|path: Seq<char>| work.pending.contains(path) <==> #[trigger] run.paths.contains(
        path,
    ) && !pruned(path) by {
        lemma_filter_iff(run.paths, |p: Seq<char>| !pruned(p), path);
    }
    assert forall|i: int| 0 <= i < steps.len() implies change(#[trigger] steps[i]) == !is_same(
        run,
        steps[i].0,
    ) by {
        assert(run.finds(work.pending[i], run.states[i]));
    }
    if run.worked().changed == 0 {
        assert forall|path: Seq<char>| #[trigger]
            run.paths.contains(path) && !pruned(path) implies is_same(run, path) by {
            assert(work.pending.contains(path));
            let i = choose|i: int| 0 <= i < work.pending.len() && work.pending[i] == path;
            assert(steps[i].0 == path);
            assert(steps.contains(steps[i]));
            lemma_filter_iff(steps, change, steps[i]);
            assert(!steps.filter(change).contains(steps[i]));
        }
    } else {
        let s = steps.filter(change)[0];
        assert(steps.filter(change).contains(s));
        lemma_filter_iff(steps, change, s);
        let i = choose|i: int| 0 <= i < steps.len() && steps[i] == s;
        assert(change(steps[i]));
        assert(work.pending.contains(work.pending[i]));
        assert(run.paths.contains(steps[i].0) && !is_same(run, steps[i].0));
    }
}

/// What a commit wrote, a show of the branch gives back: for every file of the
/// account that the commit looked at, exactly its bytes, with their number and the
/// blob under which they were stored. This holds of a commit that found nothing to
/// change as well.
pub proof fn law_show_gives_back_the_commit(
    run: CommitRun,
    tips: Seq<ObjectId>,
    path: Seq<char>,
    result: Result<ShownView, GitErrorView>,
)
    requires
        run.ran(),
        run.account.files.contains_key(path),
        run.rules.full || run.paths.contains(path),
        candidate(run.rules.patterns, path),
        run.account.files[path].len() <= u64::MAX,
        ref_name_error(branch_ref(run.branch)) is None,
        shows(run.after, tips, branch_ref(run.branch), Some(path), result),
    ensures
        result == Ok::<_, GitErrorView>(
            ShownView::Blob {
                oid: (run.blob_id)(run.account.files[path]),
                size: run.account.files[path].len() as u64,
                bytes: run.account.files[path],
            },
        ),
{
    let name = branch_ref(run.branch);
    let bytes = run.account.files[path];
    let blob = (run.blob_id)(bytes);
    let work = run.work()->Ok_0;
    let end = run.worked();
    lemma_committed_file(run, path);
    assert(run.holds_blob(bytes));
    law_blob_round_trip(bytes, Some(path));
    lemma_branch_is_full_name(run.branch);
    law_full_ref_name(name);
    let found = choose|found: Result<ObjectId, GitErrorView>| #[trigger]
        leads_to(run.after, tips, name, found) && result == match found {
            Ok(oid) => shown_at(run.after, oid, Some(path)),
            Err(e) => Err(e),
        };
    let named = choose|named: Result<RefTargetView, GitErrorView>| #[trigger]
        target_of(name, named) && match named {
            Ok(t) => resolves(run.after, tips, t, found),
            Err(e) => found == Err::<ObjectId, _>(e),
        };
    lemma_one_target(name, named, Ok(RefTargetView::Name(name)));
    if end.changed == 0 {
        let steps = with_paths(work.pending, run.states);
        law_work_records(work, run.states);
        law_no_change(work.editor, run.base.prev_head is None, steps);
        lemma_unchanged_work(run);
        assert(end.editor == run.base.editor);
        assert(as_stored(run.base.editor.entry(path)) == found_at(run.head_tree(), path));
        assert(run.base.prev_head is Some);
        let head = run.base.prev_head->0;
        assert(run.before.commit(head) is Ok);
        assert(run.before.objects.contains_key(head));
        assert(run.after.objects[head] == run.before.objects[head]);
        let tree = run.before.commit(head)->Ok_0.tree;
        assert(run.before.trees.contains_key(tree));
        assert(run.after.trees[tree] == run.before.trees[tree]);
    } else {
        assert(end.editor.entry(path) is Some);
    }
}

/// Work that begins without a change begins with the tree as it is.
proof fn lemma_unchanged_work(run: CommitRun)
    requires
        run.work() is Ok,
        run.work()->Ok_0.changed == 0,
    ensures
        run.work()->Ok_0.editor == run.base.editor,
{
}

// ---- A restore -------------------------------------------------------------

/// The files of a stored tree.
pub open spec fn tree_files(tree: StoredTree) -> Map<Seq<char>, ObjectId> {
    Map::new(
        |path: Seq<char>| tree.contains_key(path) && tree[path].1 != EntryKind::Tree,
        |path: Seq<char>| tree[path].0,
    )
}

/// `list` are the files of a stored tree, each once.
pub open spec fn flattens(repo: Repository, tree: ObjectId, list: Seq<(String, ObjectId)>) -> bool {
    distinct_paths(list) && files(list) == tree_files(repo.trees[tree])
}

/// `point` is where a restore waits for the files of the two directories, once the
/// stores have answered.
pub open spec fn restore_reaches(
    repo: Repository,
    tips: Seq<ObjectId>,
    target: Seq<char>,
    branch: Seq<char>,
    dir: Seq<char>,
    point: RestoreFiles,
) -> bool {
    &&& leads_to(repo, tips, target, Ok(point.source))
    &&& point.context.project_dir@ == dir
    &&& found_at(repo.refs, branch_ref(branch)) == Some(point.head)
    &&& repo.commit(point.source) matches Ok(source) && repo.entry(source.tree, dir) == Some(
        (point.source_subtree, EntryKind::Tree),
    )
    &&& repo.commit(point.head) matches Ok(head) && point.head_tree == head.tree
        && point.head_subtree == as_directory(repo.entry(head.tree, dir))
}

/// A restore that was carried out: the stores before and after, where it stood, and
/// the editor of the tree at the head.
pub struct RestoreRun {
    pub before: Repository,
    pub after: Repository,
    pub branch: Seq<char>,
    pub dir: Seq<char>,
    pub point: RestoreFiles,
    pub editor: EditorModel,
}

impl RestoreRun {
    /// The commit that the restore made.
    pub open spec fn new_commit(self) -> ObjectId {
        self.after.refs[branch_ref(self.branch)]
    }

    /// The branch is at a new commit, whose tree was written from the editor once the
    /// directory in it had become that of the source.
    pub open spec fn applied(self, tips: Seq<ObjectId>, target: Seq<char>) -> bool {
        let name = branch_ref(self.branch);
        &&& self.before.sound()
        &&& restore_reaches(self.before, tips, target, self.branch, self.dir, self.point)
        &&& opens(self.editor, self.before.trees[self.point.head_tree])
        &&& self.editor.spliced(self.dir, self.point.source_subtree).1 is Ok
        &&& self.after.extends(self.before)
        &&& self.after.refs == self.before.refs.insert(name, self.new_commit())
        &&& self.after.commit(self.new_commit()) matches Ok(meta) && stores(
            self.editor.spliced(self.dir, self.point.source_subtree).0,
            self.after.trees[meta.tree],
        )
    }
}

/// Restoring a directory once more from the same source finds nothing to do: the
/// answer names the commit that the first restore made and the source.
pub proof fn law_restore_again(
    run: RestoreRun,
    tips: Seq<ObjectId>,
    target: Seq<char>,
    new_tips: Seq<ObjectId>,
    again: RestoreFiles,
    source_list: Seq<(String, ObjectId)>,
    head_list: Seq<(String, ObjectId)>,
    decision: RestoreDecision,
)
    requires
        run.applied(tips, target),
        restore_reaches(
            run.after,
            new_tips,
            hex(run.point.source.bytes@),
            run.branch,
            run.dir,
            again,
        ),
        flattens(run.after, again.source_subtree, source_list),
        again.head_subtree matches Some(tree) ==> flattens(run.after, tree, head_list),
        !again.context.dry_run,
        again.decides(source_list, head_list, decision),
    ensures
        decision == RestoreDecision::Done(
            RestoreResponse::Noop { head: run.new_commit(), source: run.point.source },
        ),
{
    let sub = run.point.source_subtree;
    lemma_same_source(run, tips, target, new_tips, again);
    lemma_spliced_is_stored(run, tips, target);
    assert(again.head == run.new_commit());
    assert(again.head_subtree == Some(sub));
    lemma_nothing_to_do(again, source_list, head_list, decision);
}

/// A second restore from the same source has the same directory to restore.
proof fn lemma_same_source(
    run: RestoreRun,
    tips: Seq<ObjectId>,
    target: Seq<char>,
    new_tips: Seq<ObjectId>,
    again: RestoreFiles,
)
    requires
        run.applied(tips, target),
        restore_reaches(
            run.after,
            new_tips,
            hex(run.point.source.bytes@),
            run.branch,
            run.dir,
            again,
        ),
    ensures
        again.source == run.point.source,
        again.source_subtree == run.point.source_subtree,
{
    let source = run.point.source;
    law_full_oid(source);
    let named = choose|named: Result<RefTargetView, GitErrorView>| #[trigger]
        target_of(hex(source.bytes@), named) && match named {
            Ok(t) => resolves(run.after, new_tips, t, Ok(again.source)),
            Err(e) => Ok::<_, GitErrorView>(again.source) == Err::<ObjectId, _>(e),
        };
    lemma_one_target(hex(source.bytes@), named, Ok(RefTargetView::Oid(source)));
    assert(again.source == source);
    assert(run.before.commit(source) is Ok);
    assert(run.before.objects.contains_key(source));
    assert(run.after.objects[source] == run.before.objects[source]);
    let root = run.before.commit(source)->Ok_0.tree;
    assert(run.before.trees.contains_key(root));
    assert(run.after.trees.contains_key(root));
    assert(run.after.trees[root] == run.before.trees[root]);
}

/// In the tree of the new commit the directory is that of the source.
proof fn lemma_spliced_is_stored(run: RestoreRun, tips: Seq<ObjectId>, target: Seq<char>)
    requires
        run.applied(tips, target),
    ensures
        run.after.commit(run.new_commit()) matches Ok(meta) && run.after.entry(meta.tree, run.dir)
            == Some((run.point.source_subtree, EntryKind::Tree)),
{
    let sub = run.point.source_subtree;
    let spliced = run.editor.spliced(run.dir, sub).0;
    law_upsert_subtree(run.editor, run.dir, sub, run.dir);
    assert(way_is_open(spliced, run.dir)) by {
        assert forall|dir: Seq<char>| #[trigger] on_the_way(dir, run.dir) implies is_directory(
            spliced,
            dir,
        ) by {
            law_upsert_subtree(run.editor, run.dir, sub, dir);
        }
    }
    assert(!spliced.subtrees.contains_key(run.dir));
    assert(spliced.entry(run.dir) is Some);
}

/// Where the two directories have the same files, nothing is to be done.
proof fn lemma_nothing_to_do(
    point: RestoreFiles,
    source_list: Seq<(String, ObjectId)>,
    head_list: Seq<(String, ObjectId)>,
    decision: RestoreDecision,
)
    requires
        !point.context.dry_run,
        point.head_subtree is Some,
        distinct_paths(source_list),
        distinct_paths(head_list),
        files(source_list) == files(head_list),
        point.decides(source_list, head_list, decision),
    ensures
        decision == RestoreDecision::Done(
            RestoreResponse::Noop { head: point.head, source: point.source },
        ),
{
    if let RestoreDecision::Apply(apply) = decision {
        law_same_subtree(source_list, head_list, apply.diff);
    }
}

} // verus!
