//! The paths of the working tree that are never part of a snapshot.

use crate::text::{ends_with, finishes, same_text, split, split_on, views};
use vstd::prelude::*;

verus! {

/// The first segments that belong to the runtime and not to the account.
pub open spec fn internal_first_segment(segment: Seq<char>) -> bool {
    ||| segment == "_system"@
    ||| segment == "tasks"@
    ||| segment == "temp"@
    ||| segment == "queue"@
    ||| segment == "upload"@
}

/// Paths that no snapshot holds: what lies in the directories of the runtime,
/// lock files, vector indexes and embedding caches.
pub open spec fn pruned(path: Seq<char>) -> bool {
    let segments = split(path, '/');
    ||| internal_first_segment(segments.first())
    ||| segments.contains(".path.ovlock"@)
    ||| finishes(path, ".faiss"@)
    ||| finishes(path, ".index"@)
    ||| segments.drop_last().contains("embedding_cache"@)
}

/// Whether the first `n` texts of a list hold `wanted`.
fn among_first(list: &Vec<String>, n: usize, wanted: &str) -> (found: bool)
    requires
        n <= list@.len(),
    ensures
        found == views(list@).take(n as int).contains(wanted@),
{
    let ghost front = views(list@).take(n as int);
    let mut i: usize = 0;
    while i < n
        invariant
            i <= n <= list@.len(),
            front == views(list@).take(n as int),
            forall|j: int| 0 <= j < i ==> front[j] != wanted@,
        decreases n - i,
    {
        if same_text(list[i].as_str(), wanted) {
            assert(front[i as int] == wanted@);
            return true;
        }
        i = i + 1;
    }
    false
}

/// Whether no snapshot holds `path`, which is relative to the account.
pub fn prune_path(path: &str) -> (prune: bool)
    ensures
        prune == pruned(path@),
{
    let segments = split_on(path, '/');
    let ghost all = split(path@, '/');
    proof {
        crate::text::lemma_split_len(path@, '/');
        assert(all.take(all.len() as int) =~= all);
        assert(all.take(all.len() - 1) =~= all.drop_last());
        assert(all.first() == segments@[0]@);
    }
    let first = segments[0].as_str();
    same_text(first, "_system") || same_text(first, "tasks") || same_text(first, "temp")
        || same_text(first, "queue") || same_text(first, "upload") || among_first(
        &segments,
        segments.len(),
        ".path.ovlock",
    ) || ends_with(path, ".faiss") || ends_with(path, ".index") || among_first(
        &segments,
        segments.len() - 1,
        "embedding_cache",
    )
}

} // verus!
