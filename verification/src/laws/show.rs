//! What the steps of a show and of the search for a commit are for.

use crate::error::{GitError, GitErrorView, ObjectStoreError, RefStoreError};
use crate::laws::names::{is_target, lemma_target};
use crate::laws::objects::has_header;
use crate::object::{commit_fields, CommitMeta, ObjectKind};
use crate::oid::{hex, ObjectId};
use crate::resolve::{oid_matches, OidLoad, OidSearch, SearchStep};
use crate::show::{named_commit, ShowBlob, ShowCommit, ShowNext, ShowPath, ShowStart};
use crate::text::join_with;
use crate::tree_builder::EntryKind;
use crate::types::{ShowRequest, ShowResponse};
use vstd::prelude::*;

verus! {

/// A show begins with what was asked for, the target taken for what it names; a target
/// that names nothing is an error.
pub proof fn law_show_begins(req: ShowRequest, result: Result<ShowStart, GitError>)
    requires
        call_ensures(ShowStart::new, (req,), result),
    ensures
        match result {
            Ok(start) => is_target(req.target_ref@, Ok(start.target@)) && start.account
                == req.account && start.path == req.path,
            Err(e) => is_target(req.target_ref@, Err(e@)),
        },
{
    match result {
        Ok(start) => lemma_target(req.target_ref@, Ok(start.target@)),
        Err(e) => lemma_target(req.target_ref@, Err(e@)),
    }
}

/// A ref names the commit that it holds; a ref that cannot be read is an error. The
/// show goes on to the commit that the target names, and to no other.
pub proof fn law_show_follows_the_target(
    read: Result<ObjectId, RefStoreError>,
    named: Result<ObjectId, GitError>,
    start: ShowStart,
    commit: Result<ObjectId, GitError>,
    next: Result<ShowCommit, GitError>,
)
    requires
        call_ensures(named_commit, (read,), named),
        call_ensures(ShowStart::resolved, (start, commit), next),
    ensures
        match read {
            Ok(oid) => named == Ok::<_, GitError>(oid),
            Err(r) => named matches Err(e) && e@ == GitErrorView::RefStore(r@),
        },
        match commit {
            Ok(oid) => next matches Ok(n) && n.commit == oid && n.path == start.path && n.account
                == start.account,
            Err(e) => next == Err::<ShowCommit, _>(e),
        },
{
}

/// Without a path the commit itself is shown, with everything that it records. With
/// one, the show goes on in its tree.
pub proof fn law_show_of_a_commit(
    at: ShowCommit,
    raw: Vec<u8>,
    result: Result<ShowNext, GitError>,
    size: int,
    payload: int,
)
    requires
        call_ensures(ShowCommit::commit_object, (at, Ok(raw)), result),
        has_header(raw@, ObjectKind::Commit, size, payload),
    ensures
        match (commit_fields(raw@.skip(payload)), result) {
            (Ok(meta), Ok(ShowNext::Done(ShowResponse::Commit { oid, tree, parents, author, committer, message }))) => {
                &&& at.path is None
                &&& oid == at.commit
                &&& tree == meta.tree
                &&& parents@ == meta.parents
                &&& author@ == meta.author
                &&& committer@ == meta.committer
                &&& message@ == meta.message
            },
            (Ok(meta), Ok(ShowNext::Path(p))) => {
                &&& at.path matches Some(path) && p.path@ == path@
                &&& p.tree == meta.tree
                &&& p.account == at.account
            },
            (Err(_), Err(e)) => e is Other,
            _ => false,
        },
{
    crate::laws::objects::lemma_header(raw@, ObjectKind::Commit, size, payload);
    if let Err(e) = result {
        assert(crate::object::commit_of(raw@) matches Err(x) && e@ == x);
    }
}

/// A file is shown by its blob; a directory is told from a path at which nothing
/// stands.
pub proof fn law_show_of_a_path(
    at: ShowPath,
    entry: Option<(ObjectId, EntryKind)>,
    result: Result<ShowBlob, GitError>,
)
    requires
        call_ensures(ShowPath::looked_up, (at, Ok(entry)), result),
    ensures
        match entry {
            None => result matches Err(GitError::PathNotFound(p)) && p@ == at.path@,
            Some((oid, kind)) => if kind == EntryKind::Tree {
                result matches Err(GitError::PathIsDirectory(p)) && p@ == at.path@
            } else {
                result matches Ok(b) && b.blob == oid && b.path == at.path && b.account
                    == at.account
            },
        },
{
    if let Err(e) = result {
        assert(crate::show::blob_to_show(at.path@, entry) == Err::<ObjectId, _>(e@));
    }
}

/// The bytes of a file are everything behind the header of its blob.
pub proof fn law_show_of_a_file(
    at: ShowBlob,
    raw: Vec<u8>,
    result: Result<ShowResponse, GitError>,
    size: int,
    payload: int,
)
    requires
        call_ensures(ShowBlob::blob_object, (at, Ok(raw)), result),
        has_header(raw@, ObjectKind::Blob, size, payload),
    ensures
        result matches Ok(ShowResponse::Blob { oid, size: s, bytes }) && oid == at.blob && s == size
            && bytes@ == raw@.skip(payload),
{
    crate::laws::objects::lemma_header(raw@, ObjectKind::Blob, size, payload);
}

/// Whatever fails on the way ends the show as it is; so does an object of another kind
/// than is looked for.
pub proof fn law_show_failures(
    commit: ShowCommit,
    path: ShowPath,
    blob: ShowBlob,
    e: GitError,
    a: Result<ShowNext, GitError>,
    b: Result<ShowBlob, GitError>,
    c: Result<ShowResponse, GitError>,
    raw: Vec<u8>,
    d: Result<ShowNext, GitError>,
    f: Result<ShowResponse, GitError>,
)
    requires
        call_ensures(ShowCommit::commit_object, (commit, Err(e)), a),
        call_ensures(ShowPath::looked_up, (path, Err(e)), b),
        call_ensures(ShowBlob::blob_object, (blob, Err(e)), c),
        call_ensures(ShowCommit::commit_object, (commit, Ok(raw)), d),
        call_ensures(ShowBlob::blob_object, (blob, Ok(raw)), f),
    ensures
        a == Err::<ShowNext, _>(e),
        b == Err::<ShowBlob, _>(e),
        c == Err::<ShowResponse, _>(e),
        (forall|size: int, at: int| !#[trigger] has_header(raw@, ObjectKind::Commit, size, at))
            ==> d is Err,
        (forall|size: int, at: int| !#[trigger] has_header(raw@, ObjectKind::Blob, size, at)) ==> (
        f matches Err(x) && x is CorruptedObject),
{
    if let Some((kind, s, at)) = crate::object::header_of(raw@) {
        crate::laws::objects::lemma_header(raw@, kind, s as int, at as int);
    }
}

// ---- Search ----------------------------------------------------------------

/// The digits are the first of the identifier, in either case.
pub open spec fn abbreviates(digits: Seq<char>, oid: ObjectId) -> bool {
    let all = hex(oid.bytes@);
    &&& digits.len() <= 40
    &&& forall|i: int|
        0 <= i < digits.len() ==> (#[trigger] digits[i] == all[i] && !('A' <= digits[i] <= 'Z')) || (
        'A' <= digits[i] <= 'Z' && digits[i] as int + 32 == all[i] as int)
}

/// A commit matches where the digits abbreviate it.
pub proof fn lemma_abbreviates(digits: Seq<char>, oid: ObjectId)
    ensures
        oid_matches(oid, digits) <==> abbreviates(digits, oid),
{
    let all = hex(oid.bytes@);
    let lower = crate::text::lowered(digits);
    assert(all.len() == 40);
    if oid_matches(oid, digits) {
        assert forall|i: int| 0 <= i < digits.len() implies (#[trigger] digits[i] == all[i] && !('A'
            <= digits[i] <= 'Z')) || ('A' <= digits[i] <= 'Z' && digits[i] as int + 32
            == all[i] as int) by {
            assert(all.subrange(0, lower.len() as int)[i] == lower[i]);
        }
    }
    if abbreviates(digits, oid) {
        assert forall|i: int| 0 <= i < lower.len() implies #[trigger] lower[i] == all[i] by {
            assert(digits[i] == all[i] || digits[i] as int + 32 == all[i] as int);
        }
        assert(all.subrange(0, lower.len() as int) =~= lower);
    }
}

/// A search starts at the tips, with nothing visited or matched.
pub proof fn law_search_begins(prefix: &str, tips: Vec<ObjectId>, search: OidSearch)
    requires
        call_ensures(OidSearch::start, (prefix, tips), search),
    ensures
        search@.prefix == prefix@,
        search@.queue == tips@,
        search@.visited.len() == 0,
        search@.matches.len() == 0,
{
}

/// A commit that is looked at matches if and only if the digits abbreviate it, and its
/// parents that were not visited are looked at, too. What is missing or no commit is
/// passed over, and any other failure ends the search.
pub proof fn law_search_looks_at(
    load: OidLoad,
    meta: Result<CommitMeta, GitError>,
    result: Result<OidSearch, GitError>,
)
    requires
        call_ensures(OidLoad::loaded, (load, meta), result),
    ensures
        match meta {
            Ok(m) => result matches Ok(s) && {
                &&& s@.prefix == load.search@.prefix
                &&& s@.visited == load.search@.visited
                &&& abbreviates(load.search@.prefix, load.oid) ==> s@.matches
                    == load.search@.matches.push(load.oid)
                &&& !abbreviates(load.search@.prefix, load.oid) ==> s@.matches
                    == load.search@.matches
                &&& s@.queue == load.search@.queue + m.parents@.filter(
                    |p: ObjectId| !load.search@.visited.contains(p),
                )
                &&& forall|o: ObjectId| #[trigger]
                    s@.queue.contains(o) <==> load.search@.queue.contains(o) || (
                    m.parents@.contains(o) && !load.search@.visited.contains(o))
            },
            Err(GitError::ObjectStore(ObjectStoreError::NotFound(_))) => result matches Ok(s) && s@
                == load.search@,
            Err(GitError::Other(_)) => result matches Ok(s) && s@ == load.search@,
            Err(e) => result matches Err(r) && r@ == e@,
        },
{
    lemma_abbreviates(load.search@.prefix, load.oid);
    if let Ok(m) = meta {
        let s = result->Ok_0;
        let fresh = |p: ObjectId| !load.search@.visited.contains(p);
        let added = m.parents@.filter(fresh);
        assert(s@.queue == load.search@.queue + added);
        assert forall|o: ObjectId| #[trigger] s@.queue.contains(o) <==> load.search@.queue.contains(
            o,
        ) || (m.parents@.contains(o) && !load.search@.visited.contains(o)) by {
            crate::order::lemma_filter_iff(m.parents@, fresh, o);
            let q = load.search@.queue;
            if s@.queue.contains(o) {
                let i = choose|i: int| 0 <= i < s@.queue.len() && s@.queue[i] == o;
                if i < q.len() {
                    assert(q[i] == o);
                } else {
                    assert(added[i - q.len()] == o);
                }
            }
            if q.contains(o) {
                let i = choose|i: int| 0 <= i < q.len() && q[i] == o;
                assert(s@.queue[i] == o);
            }
            if added.contains(o) {
                let i = choose|i: int| 0 <= i < added.len() && added[i] == o;
                assert(s@.queue[q.len() + i] == o);
            }
        }
    }
}

proof fn lemma_waiting(queue: Seq<ObjectId>, visited: Seq<ObjectId>)
    ensures
        ({
            let rest = crate::resolve::unvisited_end(queue, visited);
            &&& rest.len() <= queue.len()
            &&& rest == queue.take(rest.len() as int)
            &&& rest.len() > 0 ==> !visited.contains(rest[rest.len() - 1])
            &&& forall|i: int| rest.len() <= i < queue.len() ==> visited.contains(#[trigger] queue[i])
        }),
    decreases queue.len(),
{
    if queue.len() > 0 && visited.contains(queue.last()) {
        lemma_waiting(queue.drop_last(), visited);
        let rest = crate::resolve::unvisited_end(queue, visited);
        assert(queue.drop_last().take(rest.len() as int) =~= queue.take(rest.len() as int));
        assert forall|i: int| rest.len() <= i < queue.len() implies visited.contains(
            #[trigger] queue[i],
        ) by {
            if i < queue.len() - 1 {
                assert(queue.drop_last()[i] == queue[i]);
            }
        }
    } else {
        assert(queue.take(queue.len() as int) =~= queue);
    }
}

/// A search looks at each commit once. It ends where everything that it knows was
/// looked at, where more commits match than are reported, or where it has looked at
/// fifty thousand. One match is the answer, none is not found, and more are ambiguous:
/// they are counted, and at most five of them are named.
pub proof fn law_search_goes(search: OidSearch, step: SearchStep)
    requires
        call_ensures(OidSearch::next, (search,), step),
    ensures
        match step {
            SearchStep::Load(load) => {
                &&& search@.queue.contains(load.oid)
                &&& !search@.visited.contains(load.oid)
                &&& load.search@.visited == search@.visited.push(load.oid)
                &&& load.search@.matches == search@.matches
                &&& load.search@.prefix == search@.prefix
                &&& search@.matches.len() <= 5
                &&& search@.visited.len() < 50000
                &&& load.search@.queue.push(load.oid) == search@.queue.take(
                    load.search@.queue.len() as int + 1,
                )
                &&& forall|i: int|
                    load.search@.queue.len() < i < search@.queue.len() ==> search@.visited.contains(
                        #[trigger] search@.queue[i],
                    )
                &&& forall|o: ObjectId| #[trigger]
                    search@.queue.contains(o) ==> load.search@.queue.contains(o)
                        || load.search@.visited.contains(o)
            },
            SearchStep::Done(Ok(oid)) => search@.matches.len() == 1 && search@.matches[0] == oid,
            SearchStep::Done(Err(e)) => match e@ {
                GitErrorView::OidPrefixNotFound { prefix } => search@.matches.len() == 0 && prefix
                    == search@.prefix,
                GitErrorView::AmbiguousOid { prefix, count, candidates } => {
                    let shown = if count <= 5 {
                        search@.matches
                    } else {
                        search@.matches.take(5)
                    };
                    &&& search@.matches.len() >= 2
                    &&& prefix == search@.prefix
                    &&& count == search@.matches.len()
                    &&& candidates == join_with(
                        shown.map_values(|o: ObjectId| hex(o.bytes@)),
                        ", "@,
                    )
                },
                GitErrorView::Other(t) => search@.visited.len() >= 50000 && t
                    == "OID prefix resolution aborted: scanned over 50000 commits without converging"@,
                _ => false,
            },
        },
        step is Done && search@.matches.len() <= 5 && search@.visited.len() < 50000 ==> forall|
            o: ObjectId,
        | #[trigger] search@.queue.contains(o) ==> search@.visited.contains(o),
{
    let q = search@.queue;
    let rest = crate::resolve::unvisited_end(q, search@.visited);
    lemma_waiting(q, search@.visited);
    assert forall|o: ObjectId| #[trigger] q.contains(o) implies rest.contains(o)
        || search@.visited.contains(o) by {
        let i = choose|i: int| 0 <= i < q.len() && q[i] == o;
        if i < rest.len() {
            assert(rest[i] == o);
        }
    }
    if let SearchStep::Load(load) = step {
        assert(step@ == search@.next());
        let oid = load.oid;
        assert(rest[rest.len() - 1] == oid);
        assert(q[rest.len() - 1] == oid);
        assert forall|o: ObjectId| #[trigger] q.contains(o) implies load.search@.queue.contains(o)
            || load.search@.visited.contains(o) by {
            crate::order::lemma_push_contains(search@.visited, oid, o);
            crate::order::lemma_push_contains(rest.drop_last(), oid, o);
            assert(rest.drop_last().push(oid) =~= rest);
        }
    } else {
        assert(step@ == search@.next());
        assert(crate::resolve::hexes(crate::resolve::reported(search@.matches)) =~= (if search@.matches.len()
            <= 5 {
            search@.matches
        } else {
            search@.matches.take(5)
        }).map_values(|o: ObjectId| hex(o.bytes@)));
    }
}

} // verus!
