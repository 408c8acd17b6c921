//! What the steps of a restore are for.

use crate::diff::{
    changed, compute_subtree_diff, files, gone, is_diff, kept, prune_candidates, same_in,
    RestoreDiff,
};
use crate::error::{FsError, GitError, GitErrorView, RefStoreError};
use crate::laws::names::{is_target, lemma_target};
use crate::laws::text::{comes_before, holds_at, lemma_holds_at, lemma_text_order};
use crate::laws::objects::has_header;
use crate::object::{commit_fields, ObjectKind};
use crate::oid::{hex, ObjectId};
use crate::order::{having, keys, lemma_filter_iff, lemma_having_contains};
use crate::restore::{
    delete_outcome, prune_decision, RestoreApply, RestoreDecision, RestoreFiles, RestoreHead,
    RestoreParent, RestoreRecord, RestoreSource, RestoreStart, RestoreSubtree, RestoreTrees,
    RestoreUpdate, RestoreWrite,
};
use crate::text::views;
use crate::tree_builder::{path_error, EntryKind, TreeEditor};
use crate::types::{RestoreRequest, RestoreResponse};
use vstd::prelude::*;

verus! {

// ---- The difference --------------------------------------------------------

/// The list has the file with the blob.
pub open spec fn lists(list: Seq<(String, ObjectId)>, path: Seq<char>, oid: ObjectId) -> bool {
    exists|i: int| 0 <= i < list.len() && (#[trigger] list[i]).0@ == path && list[i].1 == oid
}

/// The list has a file at the path.
pub open spec fn has_path(list: Seq<(String, ObjectId)>, path: Seq<char>) -> bool {
    exists|i: int| 0 <= i < list.len() && (#[trigger] list[i]).0@ == path
}

/// No two files of the list have one path.
pub open spec fn one_each(list: Seq<(String, ObjectId)>) -> bool {
    forall|i: int, j: int|
        0 <= i < j < list.len() ==> (#[trigger] list[i]).0@ != (#[trigger] list[j]).0@
}

/// The texts hold the text.
pub open spec fn names(list: Seq<String>, path: Seq<char>) -> bool {
    exists|i: int| 0 <= i < list.len() && (#[trigger] list[i])@ == path
}

proof fn lemma_files(list: Seq<(String, ObjectId)>, path: Seq<char>)
    ensures
        files(list).contains_key(path) <==> has_path(list, path),
        one_each(list) ==> forall|oid: ObjectId| #[trigger]
            lists(list, path, oid) <==> files(list).contains_key(path) && files(list)[path] == oid,
    decreases list.len(),
{
    if list.len() > 0 {
        let front = list.drop_last();
        lemma_files(front, path);
        assert(list.last() == list[list.len() - 1]);
        if has_path(front, path) {
            let i = choose|i: int| 0 <= i < front.len() && (#[trigger] front[i]).0@ == path;
            assert(list[i].0@ == path);
        }
        if has_path(list, path) && list.last().0@ != path {
            let i = choose|i: int| 0 <= i < list.len() && (#[trigger] list[i]).0@ == path;
            assert(front[i].0@ == path);
        }
        if one_each(list) {
            assert forall|i: int, j: int| 0 <= i < j < front.len() implies (#[trigger] front[i]).0@
                != (#[trigger] front[j]).0@ by {
                assert(front[i] == list[i] && front[j] == list[j]);
            }
            assert forall|oid: ObjectId| #[trigger] lists(list, path, oid) <==> files(
                list,
            ).contains_key(path) && files(list)[path] == oid by {
                if lists(list, path, oid) {
                    let i = choose|i: int|
                        0 <= i < list.len() && (#[trigger] list[i]).0@ == path && list[i].1 == oid;
                    if i < front.len() {
                        assert(front[i].0@ == path);
                        assert(lists(front, path, oid));
                    }
                }
                if lists(front, path, oid) {
                    let i = choose|i: int|
                        0 <= i < front.len() && (#[trigger] front[i]).0@ == path && front[i].1
                            == oid;
                    assert(list[i].0@ == path && list[i].1 == oid);
                }
            }
        }
    }
}

proof fn lemma_same_names(before: Seq<(String, ObjectId)>, after: Seq<String>, path: Seq<char>)
    requires
        crate::order::sorted_texts(keys(before), views(after)),
    ensures
        names(after, path) <==> has_path(before, path),
{
    broadcast use vstd::seq_lib::group_to_multiset_ensures;

    let x = keys(before);
    let y = views(after);
    assert(x.contains(path) <==> x.to_multiset().count(path) > 0);
    assert(y.contains(path) <==> y.to_multiset().count(path) > 0);
    if names(after, path) {
        let i = choose|i: int| 0 <= i < after.len() && (#[trigger] after[i])@ == path;
        assert(y[i] == path);
    }
    if y.contains(path) {
        let i = choose|i: int| 0 <= i < y.len() && y[i] == path;
        assert(after[i]@ == path);
    }
    if has_path(before, path) {
        let i = choose|i: int| 0 <= i < before.len() && (#[trigger] before[i]).0@ == path;
        assert(x[i] == path);
    }
    if x.contains(path) {
        let i = choose|i: int| 0 <= i < x.len() && x[i] == path;
        assert(before[i].0@ == path);
    }
}

proof fn lemma_same_files(
    before: Seq<(String, ObjectId)>,
    after: Seq<(String, ObjectId)>,
    e: (String, ObjectId),
)
    requires
        crate::order::sorted_by_key(before, after),
    ensures
        before.contains(e) <==> after.contains(e),
{
    lemma_having_contains(before, e.0@, e);
    lemma_having_contains(after, e.0@, e);
    assert(having(after, e.0@) == having(before, e.0@));
}

proof fn lemma_has(list: Seq<(String, ObjectId)>, path: Seq<char>, oid: ObjectId)
    ensures
        lists(list, path, oid) <==> exists|e: (String, ObjectId)| #[trigger]
            list.contains(e) && e.0@ == path && e.1 == oid,
{
    if lists(list, path, oid) {
        let i = choose|i: int|
            0 <= i < list.len() && (#[trigger] list[i]).0@ == path && list[i].1 == oid;
        assert(list.contains(list[i]));
    }
    if exists|e: (String, ObjectId)| #[trigger] list.contains(e) && e.0@ == path && e.1 == oid {
        let e = choose|e: (String, ObjectId)| #[trigger]
            list.contains(e) && e.0@ == path && e.1 == oid;
        let i = choose|i: int| 0 <= i < list.len() && list[i] == e;
        assert(list[i].0@ == path);
    }
}

/// What a difference says of a path: it is written where the source has it with a
/// blob with which the head does not, deleted where the head has it and the source
/// does not, and unchanged where both have it with one blob.
pub open spec fn tells_apart(
    source: Seq<(String, ObjectId)>,
    head: Seq<(String, ObjectId)>,
    diff: RestoreDiff,
) -> bool {
    &&& forall|path: Seq<char>| #[trigger]
        names(diff.to_delete@, path) <==> has_path(head, path) && !has_path(source, path)
    &&& one_each(source) && one_each(head) ==> {
        &&& forall|path: Seq<char>, oid: ObjectId| #[trigger]
            lists(diff.to_write@, path, oid) <==> lists(source, path, oid) && !lists(head, path, oid)
        &&& forall|path: Seq<char>| #[trigger]
            names(diff.unchanged@, path) <==> exists|oid: ObjectId| #[trigger]
                lists(source, path, oid) && lists(head, path, oid)
    }
}

/// The texts stand in their order.
pub open spec fn in_order(list: Seq<Seq<char>>) -> bool {
    forall|i: int, j: int|
        0 <= i < j < list.len() ==> !comes_before(#[trigger] list[j], #[trigger] list[i])
}

proof fn lemma_in_order(list: Seq<Seq<char>>)
    requires
        crate::order::ascending(list),
    ensures
        in_order(list),
{
    assert forall|i: int, j: int| 0 <= i < j < list.len() implies !comes_before(
        #[trigger] list[j],
        #[trigger] list[i],
    ) by {
        lemma_text_order(list[j], list[i]);
    }
}

/// A difference tells the two sides apart.
pub proof fn lemma_tells_apart(
    source: Seq<(String, ObjectId)>,
    head: Seq<(String, ObjectId)>,
    diff: RestoreDiff,
)
    requires
        is_diff(source, head, diff),
    ensures
        tells_apart(source, head, diff),
{
    assert forall|path: Seq<char>| #[trigger]
        names(diff.to_delete@, path) <==> has_path(head, path) && !has_path(source, path) by {
        lemma_same_names(gone(source, head), diff.to_delete@, path);
        lemma_files(source, path);
        let lost = gone(source, head);
        let out = |e: (String, ObjectId)| !files(source).contains_key(e.0@);
        if has_path(lost, path) {
            let i = choose|i: int| 0 <= i < lost.len() && (#[trigger] lost[i]).0@ == path;
            assert(lost.contains(lost[i]));
            lemma_filter_iff(head, out, lost[i]);
            let j = choose|j: int| 0 <= j < head.len() && head[j] == lost[i];
            assert(head[j].0@ == path);
        }
        if has_path(head, path) && !has_path(source, path) {
            let j = choose|j: int| 0 <= j < head.len() && (#[trigger] head[j]).0@ == path;
            assert(head.contains(head[j]));
            lemma_filter_iff(head, out, head[j]);
            let i = choose|i: int| 0 <= i < lost.len() && lost[i] == head[j];
            assert(lost[i].0@ == path);
        }
    }
    if one_each(source) && one_each(head) {
        assert forall|path: Seq<char>, oid: ObjectId| #[trigger]
            lists(diff.to_write@, path, oid) <==> lists(source, path, oid) && !lists(
                head,
                path,
                oid,
            ) by {
            lemma_files(head, path);
            lemma_has(diff.to_write@, path, oid);
            lemma_has(source, path, oid);
            let out = |e: (String, ObjectId)| !same_in(head, e);
            assert forall|e: (String, ObjectId)| #[trigger]
                diff.to_write@.contains(e) <==> source.contains(e) && out(e) by {
                lemma_same_files(changed(source, head), diff.to_write@, e);
                lemma_filter_iff(source, out, e);
            }
            if lists(diff.to_write@, path, oid) {
                let e = choose|e: (String, ObjectId)| #[trigger]
                    diff.to_write@.contains(e) && e.0@ == path && e.1 == oid;
                assert(source.contains(e) && out(e));
            }
            if lists(source, path, oid) && !lists(head, path, oid) {
                let e = choose|e: (String, ObjectId)| #[trigger]
                    source.contains(e) && e.0@ == path && e.1 == oid;
                assert(out(e));
                assert(diff.to_write@.contains(e));
            }
        }
        assert forall|path: Seq<char>| #[trigger]
            names(diff.unchanged@, path) <==> exists|oid: ObjectId| #[trigger]
                lists(source, path, oid) && lists(head, path, oid) by {
            lemma_same_names(kept(source, head), diff.unchanged@, path);
            lemma_files(head, path);
            let stays = kept(source, head);
            let same = |e: (String, ObjectId)| same_in(head, e);
            if has_path(stays, path) {
                let i = choose|i: int| 0 <= i < stays.len() && (#[trigger] stays[i]).0@ == path;
                assert(stays.contains(stays[i]));
                lemma_filter_iff(source, same, stays[i]);
                let oid = stays[i].1;
                lemma_has(source, path, oid);
                assert(lists(source, path, oid) && lists(head, path, oid));
            }
            if exists|oid: ObjectId| #[trigger]
                lists(source, path, oid) && lists(head, path, oid) {
                let oid = choose|oid: ObjectId| #[trigger]
                    lists(source, path, oid) && lists(head, path, oid);
                lemma_has(source, path, oid);
                let e = choose|e: (String, ObjectId)| #[trigger]
                    source.contains(e) && e.0@ == path && e.1 == oid;
                lemma_filter_iff(source, same, e);
                let i = choose|i: int| 0 <= i < stays.len() && stays[i] == e;
                assert(stays[i].0@ == path);
            }
        }
    }
}

/// A difference deletes exactly the files that the head has and the source has not,
/// writes exactly those that the source has otherwise than the head, and leaves
/// exactly those that are the same; each in the order of the paths. Carrying out
/// the writes first and the deletions afterwards makes the files of the head those
/// of the source.
pub proof fn law_difference(
    source: &[(String, ObjectId)],
    head: &[(String, ObjectId)],
    diff: RestoreDiff,
)
    requires
        call_ensures(compute_subtree_diff, (source, head), diff),
    ensures
        tells_apart(source@, head@, diff),
        forall|path: Seq<char>|
            !(#[trigger] names(diff.to_delete@, path) && has_path(diff.to_write@, path)),
        in_order(keys(diff.to_write@)),
        in_order(views(diff.to_delete@)),
        in_order(views(diff.unchanged@)),
        one_each(source@) && one_each(head@) ==> forall|path: Seq<char>, oid: ObjectId| #[trigger]
            left_after(head@, diff, path, oid) <==> lists(source@, path, oid),
        one_each(source@) && one_each(head@) ==> keys(diff.to_write@).no_duplicates() && views(
            diff.to_delete@,
        ).no_duplicates() && views(diff.unchanged@).no_duplicates(),
{
    if one_each(source@) && one_each(head@) {
        let out = |e: (String, ObjectId)| !same_in(head@, e);
        let same = |e: (String, ObjectId)| same_in(head@, e);
        let lost = |e: (String, ObjectId)| !files(source@).contains_key(e.0@);
        lemma_one_each(source@);
        lemma_one_each(head@);
        crate::diff::lemma_filtered_distinct(source@, out);
        crate::diff::lemma_filtered_distinct(source@, same);
        crate::diff::lemma_filtered_distinct(head@, lost);
        lemma_no_doubles(keys(changed(source@, head@)), keys(diff.to_write@));
        lemma_no_doubles(keys(gone(source@, head@)), views(diff.to_delete@));
        lemma_no_doubles(keys(kept(source@, head@)), views(diff.unchanged@));
    }
    lemma_tells_apart(source@, head@, diff);
    lemma_in_order(keys(diff.to_write@));
    lemma_in_order(views(diff.to_delete@));
    lemma_in_order(views(diff.unchanged@));
    assert forall|path: Seq<char>| !(#[trigger] names(diff.to_delete@, path) && has_path(
        diff.to_write@,
        path,
    )) by {
        if has_path(diff.to_write@, path) {
            let i = choose|i: int|
                0 <= i < diff.to_write@.len() && (#[trigger] diff.to_write@[i]).0@ == path;
            let e = diff.to_write@[i];
            assert(diff.to_write@.contains(e));
            lemma_same_files(changed(source@, head@), diff.to_write@, e);
            lemma_filter_iff(source@, |x: (String, ObjectId)| !same_in(head@, x), e);
            let j = choose|j: int| 0 <= j < source@.len() && source@[j] == e;
            assert(source@[j].0@ == path);
        }
    }
    if one_each(source@) && one_each(head@) {
        assert forall|path: Seq<char>, oid: ObjectId| #[trigger]
            left_after(head@, diff, path, oid) <==> lists(source@, path, oid) by {
            lemma_files(source@, path);
            lemma_files(head@, path);
            if has_path(diff.to_write@, path) {
                let i = choose|i: int|
                    0 <= i < diff.to_write@.len() && (#[trigger] diff.to_write@[i]).0@ == path;
                let o = diff.to_write@[i].1;
                assert(lists(diff.to_write@, path, o));
                assert(lists(source@, path, o));
            } else if has_path(head@, path) {
                let o = files(head@)[path];
                assert(lists(head@, path, o));
                if has_path(source@, path) {
                    let p = files(source@)[path];
                    assert(lists(source@, path, p));
                    if p != o {
                        assert(!lists(head@, path, p));
                        assert(lists(diff.to_write@, path, p));
                        lemma_has_path(diff.to_write@, path, p);
                    }
                }
            } else if lists(source@, path, oid) {
                if lists(head@, path, oid) {
                    lemma_has_path(head@, path, oid);
                }
                assert(lists(diff.to_write@, path, oid));
                lemma_has_path(diff.to_write@, path, oid);
            }
            if lists(head@, path, oid) {
                lemma_has_path(head@, path, oid);
            }
            if lists(source@, path, oid) {
                lemma_has_path(source@, path, oid);
            }
            if lists(diff.to_write@, path, oid) {
                lemma_has_path(diff.to_write@, path, oid);
            }
        }
    }
}

proof fn lemma_one_each(list: Seq<(String, ObjectId)>)
    requires
        one_each(list),
    ensures
        crate::diff::distinct_paths(list),
{
    let k = keys(list);
    assert forall|i: int, j: int| 0 <= i < k.len() && 0 <= j < k.len() && i != j implies k[i]
        != k[j] by {
        if i < j {
            assert(list[i].0@ != list[j].0@);
        } else {
            assert(list[j].0@ != list[i].0@);
        }
    }
}

proof fn lemma_no_doubles(x: Seq<Seq<char>>, y: Seq<Seq<char>>)
    requires
        x.no_duplicates(),
        x.to_multiset() == y.to_multiset(),
    ensures
        y.no_duplicates(),
{
    broadcast use vstd::seq_lib::group_to_multiset_ensures;

    x.lemma_multiset_has_no_duplicates();
    y.lemma_multiset_has_no_duplicates_conv();
}

proof fn lemma_has_path(list: Seq<(String, ObjectId)>, path: Seq<char>, oid: ObjectId)
    requires
        lists(list, path, oid),
    ensures
        has_path(list, path),
{
    let i = choose|i: int|
        0 <= i < list.len() && (#[trigger] list[i]).0@ == path && list[i].1 == oid;
    assert(list[i].0@ == path);
}

/// The file stands in the directory once everything was written and then everything
/// deleted.
pub open spec fn left_after(
    head: Seq<(String, ObjectId)>,
    diff: RestoreDiff,
    path: Seq<char>,
    oid: ObjectId,
) -> bool {
    &&& !names(diff.to_delete@, path)
    &&& lists(diff.to_write@, path, oid) || (!has_path(diff.to_write@, path) && lists(
        head,
        path,
        oid,
    ))
}

/// The directories that are looked at for pruning are exactly those in which a
/// deleted file lay, each once, and whatever lies in another comes before it.
pub proof fn law_prune_candidates(deleted: Vec<String>, dirs: Vec<String>)
    requires
        call_ensures(prune_candidates, (&deleted,), dirs),
    ensures
        forall|dir: Seq<char>| #[trigger]
            names(dirs@, dir) <==> exists|i: int|
                0 <= i < deleted@.len() && holds_at((#[trigger] deleted@[i])@, dir.push('/'), 0),
        forall|i: int, j: int|
            0 <= i < j < dirs@.len() ==> (#[trigger] dirs@[i])@ != (#[trigger] dirs@[j])@
                && !holds_at(dirs@[j]@, dirs@[i]@.push('/'), 0),
{
    broadcast use crate::order::lemma_text_irreflexive;

    let x = views(deleted@);
    let y = views(dirs@);
    assert forall|dir: Seq<char>| #[trigger] names(dirs@, dir) <==> exists|i: int|
        0 <= i < deleted@.len() && holds_at((#[trigger] deleted@[i])@, dir.push('/'), 0) by {
        if names(dirs@, dir) {
            let i = choose|i: int| 0 <= i < dirs@.len() && (#[trigger] dirs@[i])@ == dir;
            assert(y[i] == dir);
            assert(y.contains(dir));
            let k = choose|k: int|
                0 <= k < x.len() && crate::diff::holds_file(dir, #[trigger] x[k]);
            lemma_holds_at(deleted@[k]@, dir.push('/'), 0);
            assert(holds_at(deleted@[k]@, dir.push('/'), 0));
        }
        if exists|i: int|
            0 <= i < deleted@.len() && holds_at((#[trigger] deleted@[i])@, dir.push('/'), 0) {
            let k = choose|i: int|
                0 <= i < deleted@.len() && holds_at((#[trigger] deleted@[i])@, dir.push('/'), 0);
            lemma_holds_at(deleted@[k]@, dir.push('/'), 0);
            assert(crate::diff::holds_file(dir, x[k]));
            assert(y.contains(dir));
            let i = choose|i: int| 0 <= i < y.len() && y[i] == dir;
            assert(dirs@[i]@ == dir);
        }
    }
    assert forall|i: int, j: int| 0 <= i < j < dirs@.len() implies (#[trigger] dirs@[i])@ != (
    #[trigger] dirs@[j])@ && !holds_at(dirs@[j]@, dirs@[i]@.push('/'), 0) by {
        assert(crate::diff::pruned_before(y[i], y[j]));
        lemma_holds_at(dirs@[j]@, dirs@[i]@.push('/'), 0);
        if holds_at(dirs@[j]@, dirs@[i]@.push('/'), 0) {
            crate::diff::law_children_first(x, y, j, i);
        }
    }
}

// ---- The steps -------------------------------------------------------------

/// A restore begins with what was asked for: the branch by its full name, and the
/// source as a target names it.
pub proof fn law_restore_begins(req: RestoreRequest, start: RestoreStart)
    requires
        call_ensures(RestoreStart::new, (req,), Ok(start)),
    ensures
        start.context.account@ == req.account@,
        start.context.ref_name@ == "refs/heads/"@ + req.branch@,
        start.context.project_dir@ == req.project_dir@,
        start.context.dry_run == req.dry_run,
        start.context.message == req.message,
        start.context.author_name@ == req.author_name@,
        start.context.author_email@ == req.author_email@,
        is_target(req.source_commit@, Ok(start.target@)),
{
    lemma_target(req.source_commit@, Ok(start.target@));
}

/// A restore begins if and only if the directory can be restored and the source names
/// something; the directory is looked at first.
pub proof fn law_restore_refused(req: RestoreRequest, result: Result<RestoreStart, GitError>)
    requires
        call_ensures(RestoreStart::new, (req,), result),
    ensures
        match result {
            Ok(start) => path_error(req.project_dir@) is None && is_target(
                req.source_commit@,
                Ok(start.target@),
            ),
            Err(e) => if path_error(req.project_dir@) is Some {
                e is InvalidProjectDir
            } else {
                is_target(req.source_commit@, Err(e@))
            },
        },
{
    crate::diff::law_project_dir_is_path(
        req.project_dir@,
        crate::diff::quoted(req.project_dir@),
    );
    match result {
        Ok(start) => lemma_target(req.source_commit@, Ok(start.target@)),
        Err(e) => {
            if path_error(req.project_dir@) is None {
                lemma_target(req.source_commit@, Err(e@));
            }
        },
    }
}

/// Whatever fails on the way ends the restore as it is, and an object that is no commit
/// does, too.
pub proof fn law_restore_failures(
    start: RestoreStart,
    source: RestoreSource,
    parent: RestoreParent,
    trees: RestoreTrees,
    subtree: RestoreSubtree,
    apply: RestoreApply,
    write: RestoreWrite,
    record: RestoreRecord,
    e: GitError,
    a: Result<RestoreHead, GitError>,
    b: Result<RestoreParent, GitError>,
    c: Result<RestoreTrees, GitError>,
    d: Result<RestoreSubtree, GitError>,
    f: Result<RestoreFiles, GitError>,
    g: Result<RestoreWrite, GitError>,
    h: Result<RestoreRecord, GitError>,
    i: Result<RestoreUpdate, GitError>,
)
    requires
        call_ensures(RestoreStart::resolved, (start, Err(e)), a),
        call_ensures(RestoreSource::source_object, (source, Err(e)), b),
        call_ensures(RestoreParent::head_object, (parent, Err(e)), c),
        call_ensures(RestoreTrees::source_entry, (trees, Err(e)), d),
        call_ensures(RestoreSubtree::head_entry, (subtree, Err(e)), f),
        call_ensures(RestoreApply::loaded, (apply, Err(e)), g),
        call_ensures(RestoreWrite::tree_written, (write, Err(e)), h),
        call_ensures(RestoreRecord::commit_written, (record, Err(e)), i),
    ensures
        a == Err::<RestoreHead, _>(e),
        b == Err::<RestoreParent, _>(e),
        c == Err::<RestoreTrees, _>(e),
        d == Err::<RestoreSubtree, _>(e),
        f == Err::<RestoreFiles, _>(e),
        g == Err::<RestoreWrite, _>(e),
        h == Err::<RestoreRecord, _>(e),
        i == Err::<RestoreUpdate, _>(e),
{
}

/// The source is the commit that the target names, and the two trees are those of the
/// source and of the head.
pub proof fn law_restore_reads_the_commits(
    start: RestoreStart,
    oid: ObjectId,
    head: RestoreHead,
    source: RestoreSource,
    raw: Vec<u8>,
    parent: Result<RestoreParent, GitError>,
    at: RestoreParent,
    other: Vec<u8>,
    trees: Result<RestoreTrees, GitError>,
    n: int,
    m: int,
    x: int,
    y: int,
)
    requires
        call_ensures(RestoreStart::resolved, (start, Ok(oid)), Ok(head)),
        call_ensures(RestoreSource::source_object, (source, Ok(raw)), parent),
        call_ensures(RestoreParent::head_object, (at, Ok(other)), trees),
        has_header(raw@, ObjectKind::Commit, n, x),
        has_header(other@, ObjectKind::Commit, m, y),
    ensures
        head.source == oid,
        head.context == start.context,
        match (commit_fields(raw@.skip(x)), parent) {
            (Ok(meta), Ok(p)) => p.source_tree == meta.tree && p.source == source.source && p.head
                == source.head && p.context == source.context,
            (Err(_), Err(e)) => e is Other,
            _ => false,
        },
        match (commit_fields(other@.skip(y)), trees) {
            (Ok(meta), Ok(t)) => t.head_tree == meta.tree && t.source_tree == at.source_tree
                && t.source == at.source && t.head == at.head && t.context == at.context,
            (Err(_), Err(e)) => e is Other,
            _ => false,
        },
{
    crate::laws::objects::lemma_header(raw@, ObjectKind::Commit, n, x);
    crate::laws::objects::lemma_header(other@, ObjectKind::Commit, m, y);
    if let Err(e) = parent {
        assert(crate::object::commit_of(raw@) matches Err(v) && e@ == v);
    }
    if let Err(e) = trees {
        assert(crate::object::commit_of(other@) matches Err(v) && e@ == v);
    }
}

/// The branch has to exist, and to be readable.
pub proof fn law_restore_needs_the_branch(
    at: RestoreHead,
    read: Result<ObjectId, RefStoreError>,
    result: Result<crate::restore::RestoreSource, GitError>,
)
    requires
        call_ensures(RestoreHead::head, (at, read), result),
    ensures
        match result {
            Ok(next) => read == Ok::<_, RefStoreError>(next.head) && next.source == at.source
                && next.context == at.context,
            Err(e) => read matches Err(r) && e@ == GitErrorView::RefStore(r@),
        },
{
}

/// In the source the directory has to be one; in the head it counts only where it is
/// one.
pub proof fn law_restore_takes_directories(
    trees: RestoreTrees,
    found: Option<(ObjectId, EntryKind)>,
    source: Result<RestoreSubtree, GitError>,
    subtree: RestoreSubtree,
    there: Option<(ObjectId, EntryKind)>,
    files: RestoreFiles,
)
    requires
        call_ensures(RestoreTrees::source_entry, (trees, Ok(found)), source),
        call_ensures(RestoreSubtree::head_entry, (subtree, Ok(there)), Ok(files)),
    ensures
        source is Ok <==> (found matches Some(e) && e.1 == EntryKind::Tree),
        source matches Ok(s) ==> (found matches Some((oid, _)) && s.source_subtree == oid)
            && s.head_tree == trees.head_tree
            && s.source == trees.source && s.head == trees.head && s.context == trees.context,
        source matches Err(e) ==> e@ == (GitErrorView::SubtreeNotFoundInCommit {
            project_dir: trees.context.project_dir@,
            commit: trees.source,
        }),
        files.head_subtree is Some <==> (there matches Some(e) && e.1 == EntryKind::Tree),
        files.head_subtree matches Some(oid) ==> (there matches Some((o, _)) && oid == o),
        files.source_subtree == subtree.source_subtree,
        files.head_tree == subtree.head_tree,
        files.source == subtree.source,
        files.head == subtree.head,
        files.context == subtree.context,
{
}

/// A dry run reports the difference and nothing else is done. Without one, nothing is
/// done if and only if both sides have the same files; else the difference is carried
/// out.
pub proof fn law_restore_decides(
    at: RestoreFiles,
    source: Vec<(String, ObjectId)>,
    head: Vec<(String, ObjectId)>,
    decision: RestoreDecision,
)
    requires
        call_ensures(RestoreFiles::flattened, (at, source, head), decision),
        at.head_subtree is Some,
        one_each(source@),
        one_each(head@),
    ensures
        match decision {
            RestoreDecision::Done(RestoreResponse::DryRun { diff, head: h, source: s }) => {
                &&& at.context.dry_run
                &&& tells_apart(source@, head@, diff)
                &&& h == at.head
                &&& s == at.source
            },
            RestoreDecision::Done(RestoreResponse::Noop { head: h, source: s }) => {
                &&& !at.context.dry_run
                &&& forall|path: Seq<char>, oid: ObjectId| #[trigger]
                    lists(source@, path, oid) <==> lists(head@, path, oid)
                &&& h == at.head
                &&& s == at.source
            },
            RestoreDecision::Apply(a) => {
                &&& !at.context.dry_run
                &&& tells_apart(source@, head@, a.diff)
                &&& exists|path: Seq<char>, oid: ObjectId|
                    #![trigger lists(source@, path, oid)]
                    #![trigger lists(head@, path, oid)]
                    lists(source@, path, oid) != lists(head@, path, oid)
                &&& a.head == at.head
                &&& a.source == at.source
                &&& a.source_subtree == at.source_subtree
                &&& a.head_tree == at.head_tree
                &&& a.context == at.context
            },
            _ => false,
        },
{
    match decision {
        RestoreDecision::Done(RestoreResponse::DryRun { diff, .. }) => {
            lemma_tells_apart(source@, head@, diff);
        },
        RestoreDecision::Done(RestoreResponse::Noop { .. }) => {
            let diff = choose|diff: RestoreDiff| #[trigger]
                is_diff(source@, at.head_list(head@), diff) && diff.to_write@.len() == 0
                    && diff.to_delete@.len() == 0;
            lemma_tells_apart(source@, head@, diff);
            assert forall|path: Seq<char>, oid: ObjectId| #[trigger]
                lists(source@, path, oid) <==> lists(head@, path, oid) by {
                assert(!lists(diff.to_write@, path, oid));
                assert(!names(diff.to_delete@, path));
                lemma_files(source@, path);
                lemma_files(head@, path);
                if lists(head@, path, oid) {
                    lemma_has_path(head@, path, oid);
                    let o = files(source@)[path];
                    assert(lists(source@, path, o));
                    assert(!lists(diff.to_write@, path, o));
                }
            }
        },
        RestoreDecision::Apply(a) => {
            lemma_tells_apart(source@, head@, a.diff);
            if a.diff.to_write@.len() > 0 {
                let e = a.diff.to_write@[0];
                assert(lists(a.diff.to_write@, e.0@, e.1));
                assert(lists(source@, e.0@, e.1) != lists(head@, e.0@, e.1));
            } else {
                let path = a.diff.to_delete@[0]@;
                assert(names(a.diff.to_delete@, path));
                lemma_files(head@, path);
                lemma_files(source@, path);
                let o = files(head@)[path];
                assert(lists(head@, path, o));
                if lists(source@, path, o) {
                    lemma_has_path(source@, path, o);
                }
            }
        },
        _ => {},
    }
}

/// A file that is gone already is as good as deleted; a directory is pruned only where
/// it is known to be empty.
pub proof fn law_deletions_and_prunes(
    removed: Result<(), FsError>,
    outcome: Result<(), GitError>,
    entries: Result<usize, FsError>,
    prune: bool,
)
    requires
        call_ensures(delete_outcome, (removed,), outcome),
        call_ensures(prune_decision, (entries,), prune),
    ensures
        outcome is Ok <==> removed is Ok || (removed matches Err(e) && e is NotFound),
        outcome matches Err(e) ==> removed matches Err(r) && e@ == GitErrorView::Vfs(r@),
        prune <==> (entries matches Ok(n) && n == 0),
{
}

/// The files that are written and deleted stand in the directory of the account, one
/// for each path of the difference.
pub proof fn law_where_files_stand(apply: RestoreApply, writes: Vec<String>, deletes: Vec<String>)
    requires
        call_ensures(RestoreApply::writes, (&apply,), writes),
        call_ensures(RestoreApply::deletes, (&apply,), deletes),
    ensures
        writes@.len() == apply.diff.to_write@.len(),
        deletes@.len() == apply.diff.to_delete@.len(),
        forall|i: int|
            0 <= i < writes@.len() ==> (#[trigger] writes@[i])@ == "/local/"@
                + apply.context.account@ + "/"@ + apply.context.project_dir@ + "/"@
                + apply.diff.to_write@[i].0@,
        forall|i: int|
            0 <= i < deletes@.len() ==> (#[trigger] deletes@[i])@ == "/local/"@
                + apply.context.account@ + "/"@ + apply.context.project_dir@ + "/"@
                + apply.diff.to_delete@[i]@,
{
    let base = apply.base();
    let w = crate::restore::all_in_dir(base, crate::restore::write_paths(apply.diff));
    let d = crate::restore::all_in_dir(base, views(apply.diff.to_delete@));
    assert(views(writes@).len() == w.len());
    assert(views(deletes@).len() == d.len());
    assert forall|i: int| 0 <= i < writes@.len() implies (#[trigger] writes@[i])@ == "/local/"@
        + apply.context.account@ + "/"@ + apply.context.project_dir@ + "/"@
        + apply.diff.to_write@[i].0@ by {
        assert(views(writes@)[i] == w[i]);
    }
    assert forall|i: int| 0 <= i < deletes@.len() implies (#[trigger] deletes@[i])@ == "/local/"@
        + apply.context.account@ + "/"@ + apply.context.project_dir@ + "/"@
        + apply.diff.to_delete@[i]@ by {
        assert(views(deletes@)[i] == d[i]);
    }
}

/// The directories that are pruned lie below the directory that is restored.
pub proof fn law_prunes_stay_below(apply: RestoreApply, prunes: Vec<String>, i: int)
    requires
        call_ensures(RestoreApply::prunes, (&apply,), prunes),
        0 <= i < prunes@.len(),
    ensures
        exists|dir: Seq<char>, k: int|
            prunes@[i]@ == #[trigger] ("/local/"@ + apply.context.account@ + "/"@
                + apply.context.project_dir@ + "/"@ + dir) && 0 <= k < apply.diff.to_delete@.len()
                && holds_at((#[trigger] apply.diff.to_delete@[k])@, dir.push('/'), 0),
{
    let deleted = views(apply.diff.to_delete@);
    let dirs = choose|dirs: Seq<Seq<char>>| #[trigger]
        crate::diff::is_prune_order(deleted, dirs) && views(prunes@)
            == crate::restore::all_in_dir(apply.base(), dirs);
    let all = crate::restore::all_in_dir(apply.base(), dirs);
    assert(views(prunes@).len() == all.len());
    assert(views(prunes@)[i] == all[i]);
    let dir = dirs[i];
    assert(dirs.contains(dir));
    let k = choose|k: int|
        0 <= k < deleted.len() && crate::diff::holds_file(dir, #[trigger] deleted[k]);
    lemma_holds_at(apply.diff.to_delete@[k]@, dir.push('/'), 0);
    assert(prunes@[i]@ == "/local/"@ + apply.context.account@ + "/"@ + apply.context.project_dir@
        + "/"@ + dir);
    assert(holds_at(apply.diff.to_delete@[k]@, dir.push('/'), 0));
}

/// In the tree of the restore the directory is that of the source. What lies neither in
/// it nor on the way to it is as at the head.
pub proof fn law_restore_puts_the_directory(
    apply: RestoreApply,
    editor: TreeEditor,
    at: RestoreWrite,
    other: Seq<char>,
)
    requires
        call_ensures(RestoreApply::loaded, (apply, Ok(editor)), Ok(at)),
    ensures
        ({
            let dir = apply.context.project_dir@;
            &&& at.editor@.entry(dir) matches Some(n) && n.oid == apply.source_subtree && n.mode
                == EntryKind::Tree
            &&& other != dir && !holds_at(other, dir.push('/'), 0) && !holds_at(
                dir,
                other.push('/'),
                0,
            ) ==> at.editor@.entry(other) == editor@.entry(other)
            &&& holds_at(other, dir.push('/'), 0) ==> at.editor@.entry(other) is None
            &&& at.head == apply.head
            &&& at.source == apply.source
            &&& at.diff == apply.diff
            &&& at.context == apply.context
        }),
{
    let dir = apply.context.project_dir@;
    crate::tree_builder::law_upsert_subtree(editor@, dir, apply.source_subtree, other);
    crate::laws::names::law_on_the_way(other, dir);
    lemma_holds_at(other, dir.push('/'), 0);
}

/// The new commit stands on top of the head, has the tree that was stored and the
/// message that was asked for; without one it says what was restored and from where.
pub proof fn law_restore_records(
    at: RestoreWrite,
    tree: ObjectId,
    record: RestoreRecord,
    oid: ObjectId,
    update: RestoreUpdate,
)
    requires
        call_ensures(RestoreWrite::tree_written, (at, Ok(tree)), Ok(record)),
        call_ensures(RestoreRecord::commit_written, (record, Ok(oid)), Ok(update)),
    ensures
        record.tree == tree,
        record.parents@.len() == 1,
        record.parents@[0] == at.head,
        at.context.message matches Some(m) ==> record.message@ == m@,
        at.context.message is None ==> record.message@ == "restore "@ + at.context.project_dir@
            + " from "@ + hex(at.source.bytes@).take(12),
        record.context == at.context,
        update.new == oid,
        update.head == at.head,
        update.source == at.source,
        update.diff == at.diff,
        update.context == at.context,
{
}

/// The answer of a restore counts and names the files of the difference; a branch that
/// has moved in the meantime is a concurrent commit.
pub proof fn law_restore_answers(
    at: RestoreUpdate,
    outcome: Result<(), RefStoreError>,
    result: Result<RestoreResponse, GitError>,
)
    requires
        call_ensures(RestoreUpdate::updated, (at, outcome), result),
    ensures
        match (outcome, result) {
            (
                Ok(()),
                Ok(
                    RestoreResponse::Applied {
                        new_commit_oid,
                        source_commit,
                        parent_commit,
                        written,
                        deleted,
                        unchanged,
                        written_paths,
                        deleted_paths,
                    },
                ),
            ) => {
                &&& new_commit_oid == at.new
                &&& source_commit == at.source
                &&& parent_commit == at.head
                &&& written == at.diff.to_write@.len()
                &&& deleted == at.diff.to_delete@.len()
                &&& unchanged == at.diff.unchanged@.len()
                &&& written_paths@.len() == written
                &&& deleted_paths@.len() == deleted
                &&& forall|i: int|
                    0 <= i < written ==> (#[trigger] written_paths@[i])@
                        == at.context.project_dir@ + "/"@ + at.diff.to_write@[i].0@
                &&& forall|i: int|
                    0 <= i < deleted ==> (#[trigger] deleted_paths@[i])@
                        == at.context.project_dir@ + "/"@ + at.diff.to_delete@[i]@
            },
            (Err(RefStoreError::Conflict { expected, actual }), Err(e)) => e@
                == (GitErrorView::ConcurrentCommit {
                ref_name: at.context.ref_name@,
                expected,
                actual,
            }),
            (Err(r), Err(e)) => e@ == GitErrorView::RefStore(r@),
            _ => false,
        },
{
    if let Ok(RestoreResponse::Applied { written_paths, deleted_paths, .. }) = result {
        let w = crate::restore::all_in_dir(
            at.context.project_dir@,
            crate::restore::write_paths(at.diff),
        );
        let d = crate::restore::all_in_dir(at.context.project_dir@, views(at.diff.to_delete@));
        assert(views(written_paths@).len() == w.len());
        assert(views(deleted_paths@).len() == d.len());
        assert forall|i: int| 0 <= i < written_paths@.len() implies (#[trigger] written_paths@[i])@
            == at.context.project_dir@ + "/"@ + at.diff.to_write@[i].0@ by {
            assert(views(written_paths@)[i] == w[i]);
        }
        assert forall|i: int| 0 <= i < deleted_paths@.len() implies (#[trigger] deleted_paths@[i])@
            == at.context.project_dir@ + "/"@ + at.diff.to_delete@[i]@ by {
            assert(views(deleted_paths@)[i] == d[i]);
        }
    }
}

} // verus!
