//! The difference between two subtrees, and the directories that it may leave
//! empty.

use crate::error::{GitError, GitErrorView};
use crate::oid::ObjectId;
use crate::order::{
    having, keys, law_one_order, law_one_order_of_pairs, law_order_of_a_set, lemma_filter_iff,
    lemma_having_contains, lemma_text_irreflexive, lemma_text_total, lemma_text_transitive,
    sort_by_key, sort_texts, sorted_by_key, sorted_texts, text_before, text_lt,
};
use crate::text::{begins, cat2, chars_of, split, split_on, text_of, views};
use crate::tree_builder::path_error;
use vstd::hash_map::StringHashMap;
use vstd::prelude::*;

verus! {

/// What a restore has to do to a subtree: the files to write, with their blobs,
/// the files to delete, and those that stay. Each list is in the order of paths,
/// which are relative to the subtree.
#[derive(Debug, Clone, PartialEq, Eq)]
pub struct RestoreDiff {
    pub to_write: Vec<(String, ObjectId)>,
    pub to_delete: Vec<String>,
    pub unchanged: Vec<String>,
}

/// The files of a flattened tree: a later entry of a path replaces an earlier one.
pub open spec fn files(list: Seq<(String, ObjectId)>) -> Map<Seq<char>, ObjectId>
    decreases list.len(),
{
    if list.len() == 0 {
        Map::empty()
    } else {
        files(list.drop_last()).insert(list.last().0@, list.last().1)
    }
}

/// The entry stands in `other` with the same blob.
pub open spec fn same_in(other: Seq<(String, ObjectId)>, e: (String, ObjectId)) -> bool {
    files(other).contains_key(e.0@) && files(other)[e.0@] == e.1
}

/// The entries of `source` that `head` does not hold with the same blob.
pub open spec fn changed(
    source: Seq<(String, ObjectId)>,
    head: Seq<(String, ObjectId)>,
) -> Seq<(String, ObjectId)> {
    source.filter(|e: (String, ObjectId)| !same_in(head, e))
}

/// The entries of `source` that `head` holds with the same blob.
pub open spec fn kept(
    source: Seq<(String, ObjectId)>,
    head: Seq<(String, ObjectId)>,
) -> Seq<(String, ObjectId)> {
    source.filter(|e: (String, ObjectId)| same_in(head, e))
}

/// The entries of `head` whose path is not in `source`.
pub open spec fn gone(
    source: Seq<(String, ObjectId)>,
    head: Seq<(String, ObjectId)>,
) -> Seq<(String, ObjectId)> {
    head.filter(|e: (String, ObjectId)| !files(source).contains_key(e.0@))
}

/// `diff` is what has to be done to `head` to make it `source`.
pub open spec fn is_diff(
    source: Seq<(String, ObjectId)>,
    head: Seq<(String, ObjectId)>,
    diff: RestoreDiff,
) -> bool {
    &&& sorted_by_key(changed(source, head), diff.to_write@)
    &&& sorted_texts(keys(gone(source, head)), views(diff.to_delete@))
    &&& sorted_texts(keys(kept(source, head)), views(diff.unchanged@))
}

fn file_map(list: &[(String, ObjectId)]) -> (map: StringHashMap<ObjectId>)
    ensures
        map@ == files(list@),
{
    let mut map: StringHashMap<ObjectId> = StringHashMap::new();
    let mut i: usize = 0;
    assert(list@.take(0) =~= Seq::<(String, ObjectId)>::empty());
    while i < list.len()
        invariant
            i <= list@.len(),
            map@ == files(list@.take(i as int)),
        decreases list.len() - i,
    {
        assert(list@.take(i + 1).drop_last() =~= list@.take(i as int));
        map.insert(list[i].0.clone(), list[i].1);
        i = i + 1;
    }
    assert(list@.take(i as int) =~= list@);
    map
}

/// The difference between two flattened subtrees, whose paths are relative to
/// the subtree.
pub fn compute_subtree_diff(source: &[(String, ObjectId)], head: &[(String, ObjectId)]) -> (diff:
    RestoreDiff)
    ensures
        is_diff(source@, head@, diff),
{
    let head_map = file_map(head);
    let source_map = file_map(source);
    let mut to_write: Vec<(String, ObjectId)> = Vec::new();
    let mut unchanged: Vec<String> = Vec::new();
    let mut to_delete: Vec<String> = Vec::new();
    let ghost is_changed = |e: (String, ObjectId)| !same_in(head@, e);
    let ghost is_kept = |e: (String, ObjectId)| same_in(head@, e);
    let ghost is_gone = |e: (String, ObjectId)| !files(source@).contains_key(e.0@);
    let mut i: usize = 0;
    proof {
        reveal(Seq::filter);
        assert(keys(source@.take(0).filter(is_kept)) =~= Seq::<Seq<char>>::empty());
        assert(views(unchanged@) =~= Seq::<Seq<char>>::empty());
    }
    while i < source.len()
        invariant
            head_map@ == files(head@),
            is_changed == (|e: (String, ObjectId)| !same_in(head@, e)),
            is_kept == (|e: (String, ObjectId)| same_in(head@, e)),
            i <= source@.len(),
            to_write@ == source@.take(i as int).filter(is_changed),
            views(unchanged@) == keys(source@.take(i as int).filter(is_kept)),
        decreases source.len() - i,
    {
        let path = source[i].0.clone();
        let oid = source[i].1;
        let ghost e = source@[i as int];
        let ghost before = unchanged@;
        let ghost taken = source@.take(i + 1);
        proof {
            reveal(Seq::filter);
            assert(taken.drop_last() =~= source@.take(i as int));
            assert(taken.last() == e);
        }
        let same = match head_map.get(path.as_str()) {
            Some(found) => *found == oid,
            None => false,
        };
        assert(same == same_in(head@, e)) by {
            broadcast use crate::oid::lemma_same_bytes;

        }
        if same {
            unchanged.push(path);
            assert(views(unchanged@) =~= views(before).push(e.0@));
            assert(keys(taken.filter(is_kept)) =~= keys(source@.take(i as int).filter(is_kept)).push(
                e.0@,
            ));
        } else {
            to_write.push((path, oid));
        }
        i = i + 1;
    }
    assert(source@.take(i as int) =~= source@);
    let mut j: usize = 0;
    proof {
        reveal(Seq::filter);
        assert(keys(head@.take(0).filter(is_gone)) =~= Seq::<Seq<char>>::empty());
        assert(views(to_delete@) =~= Seq::<Seq<char>>::empty());
    }
    while j < head.len()
        invariant
            source_map@ == files(source@),
            is_gone == (|e: (String, ObjectId)| !files(source@).contains_key(e.0@)),
            j <= head@.len(),
            views(to_delete@) == keys(head@.take(j as int).filter(is_gone)),
        decreases head.len() - j,
    {
        let ghost e = head@[j as int];
        let ghost before = to_delete@;
        let ghost taken = head@.take(j + 1);
        proof {
            reveal(Seq::filter);
            assert(taken.drop_last() =~= head@.take(j as int));
            assert(taken.last() == e);
        }
        if !source_map.contains_key(head[j].0.as_str()) {
            to_delete.push(head[j].0.clone());
            assert(views(to_delete@) =~= views(before).push(e.0@));
            assert(keys(taken.filter(is_gone)) =~= keys(head@.take(j as int).filter(is_gone)).push(
                e.0@,
            ));
        }
        j = j + 1;
    }
    assert(head@.take(j as int) =~= head@);
    RestoreDiff {
        to_write: sort_by_key(to_write),
        to_delete: sort_texts(to_delete),
        unchanged: sort_texts(unchanged),
    }
}

// ---- Laws of the difference ------------------------------------------------

/// No path occurs twice.
pub open spec fn distinct_paths(list: Seq<(String, ObjectId)>) -> bool {
    keys(list).no_duplicates()
}

/// The files of a subtree once a difference has been carried out on it.
pub open spec fn carried_out(head: Map<Seq<char>, ObjectId>, diff: RestoreDiff) -> Map<
    Seq<char>,
    ObjectId,
> {
    head.remove_keys(Set::new(|path: Seq<char>| views(diff.to_delete@).contains(path)))
        .union_prefer_right(files(diff.to_write@))
}

proof fn lemma_files_having(list: Seq<(String, ObjectId)>, path: Seq<char>)
    ensures
        files(list).contains_key(path) <==> having(list, path).len() > 0,
        files(list).contains_key(path) ==> files(list)[path] == having(list, path).last().1,
        files(list).contains_key(path) <==> keys(list).contains(path),
    decreases list.len(),
{
    reveal(Seq::filter);
    if list.len() > 0 {
        lemma_files_having(list.drop_last(), path);
        let front = keys(list.drop_last());
        assert(keys(list) =~= front.push(list.last().0@));
        assert(keys(list).contains(path) <==> front.contains(path) || list.last().0@ == path) by {
            if front.contains(path) {
                let i = choose|i: int| 0 <= i < front.len() && front[i] == path;
                assert(keys(list)[i] == path);
            }
            if list.last().0@ == path {
                assert(keys(list)[list.len() - 1] == path);
            }
        }
    }
}

/// A path of a flattened tree has an entry in it.
proof fn lemma_files_entry(list: Seq<(String, ObjectId)>, path: Seq<char>) -> (e: (String, ObjectId))
    requires
        files(list).contains_key(path),
    ensures
        list.contains(e),
        e.0@ == path,
        files(list)[path] == e.1,
{
    lemma_files_having(list, path);
    let found = having(list, path);
    let e = found.last();
    assert(found.contains(e)) by {
        assert(found[found.len() - 1] == e);
    }
    lemma_having_contains(list, path, e);
    e
}

/// In a flattened tree without double paths an entry is what its path holds.
proof fn lemma_distinct_entry(list: Seq<(String, ObjectId)>, e: (String, ObjectId))
    requires
        distinct_paths(list),
        list.contains(e),
    ensures
        files(list).contains_key(e.0@),
        files(list)[e.0@] == e.1,
{
    let i = choose|i: int| 0 <= i < list.len() && list[i] == e;
    assert(keys(list)[i] == e.0@);
    lemma_files_having(list, e.0@);
    let other = lemma_files_entry(list, e.0@);
    let j = choose|j: int| 0 <= j < list.len() && list[j] == other;
    assert(keys(list)[j] == e.0@);
    assert(i == j);
}

/// Carrying out the difference makes the files of the head those of the source.
pub proof fn law_diff_restores(
    source: Seq<(String, ObjectId)>,
    head: Seq<(String, ObjectId)>,
    diff: RestoreDiff,
)
    requires
        distinct_paths(source),
        is_diff(source, head, diff),
    ensures
        carried_out(files(head), diff) == files(source),
{
    let list = changed(source, head);
    let after = carried_out(files(head), diff);
    let deleted = views(diff.to_delete@);
    let lost = keys(gone(source, head));
    assert forall|path: Seq<char>|
        #![trigger after.dom().contains(path)]
        #![trigger files(source).dom().contains(path)]
        after.dom().contains(path) == files(source).dom().contains(path) && (after.dom().contains(
            path,
        ) ==> after[path] == files(source)[path]) by {
        lemma_files_having(list, path);
        lemma_files_having(diff.to_write@, path);
        assert(having(diff.to_write@, path) == having(list, path));
        lemma_files_having(gone(source, head), path);
        assert(deleted.contains(path) == lost.contains(path)) by {
            broadcast use vstd::seq_lib::group_to_multiset_ensures;

            assert(deleted.to_multiset().contains(path) == lost.to_multiset().contains(path));
        }
        if files(list).contains_key(path) {
            let e = lemma_files_entry(list, path);
            lemma_filter_iff(source, |x: (String, ObjectId)| !same_in(head, x), e);
            lemma_distinct_entry(source, e);
        } else if files(source).contains_key(path) {
            let e = lemma_files_entry(source, path);
            if !same_in(head, e) {
                lemma_filter_iff(source, |x: (String, ObjectId)| !same_in(head, x), e);
                let i = choose|i: int| 0 <= i < list.len() && list[i] == e;
                assert(keys(list)[i] == path);
                assert(files(list).contains_key(path));
            }
            if deleted.contains(path) {
                let d = lemma_files_entry(gone(source, head), path);
                lemma_filter_iff(
                    head,
                    |x: (String, ObjectId)| !files(source).contains_key(x.0@),
                    d,
                );
            }
        } else if files(head).contains_key(path) {
            let e = lemma_files_entry(head, path);
            lemma_filter_iff(head, |x: (String, ObjectId)| !files(source).contains_key(x.0@), e);
            let rest = gone(source, head);
            let i = choose|i: int| 0 <= i < rest.len() && rest[i] == e;
            assert(lost[i] == path);
        }
    }
    assert(after =~= files(source));
}

/// Where nothing is to be written or deleted, the files are the same already.
pub proof fn law_empty_diff(
    source: Seq<(String, ObjectId)>,
    head: Seq<(String, ObjectId)>,
    diff: RestoreDiff,
)
    requires
        distinct_paths(source),
        is_diff(source, head, diff),
        diff.to_write@.len() == 0,
        diff.to_delete@.len() == 0,
    ensures
        files(head) == files(source),
{
    law_diff_restores(source, head, diff);
    assert(files(diff.to_write@) =~= Map::empty());
    assert(carried_out(files(head), diff) =~= files(head));
}

/// A subtree differs in nothing from one with the same files: every file stays.
pub proof fn law_same_subtree(
    list: Seq<(String, ObjectId)>,
    other: Seq<(String, ObjectId)>,
    diff: RestoreDiff,
)
    requires
        distinct_paths(list),
        distinct_paths(other),
        files(list) == files(other),
        is_diff(list, other, diff),
    ensures
        diff.to_write@.len() == 0,
        diff.to_delete@.len() == 0,
        sorted_texts(keys(list), views(diff.unchanged@)),
{
    broadcast use vstd::seq_lib::group_to_multiset_ensures;

    let is_kept = |e: (String, ObjectId)| same_in(other, e);
    assert forall|e: (String, ObjectId)| list.contains(e) implies #[trigger] same_in(other, e) by {
        lemma_distinct_entry(list, e);
    }
    assert(changed(list, other).len() == 0) by {
        if changed(list, other).len() > 0 {
            let e = changed(list, other)[0];
            assert(changed(list, other).contains(e));
            lemma_filter_iff(list, |x: (String, ObjectId)| !same_in(other, x), e);
        }
    }
    assert(gone(list, other).len() == 0) by {
        if gone(list, other).len() > 0 {
            let e = gone(list, other)[0];
            assert(gone(list, other).contains(e));
            lemma_filter_iff(
                other,
                |x: (String, ObjectId)| !files(list).contains_key(x.0@),
                e,
            );
            lemma_distinct_entry(other, e);
        }
    }
    assert(keys(diff.to_write@).len() == keys(changed(list, other)).len()) by {
        assert(keys(diff.to_write@).to_multiset().len() == keys(
            changed(list, other),
        ).to_multiset().len());
    }
    assert(views(diff.to_delete@).len() == keys(gone(list, other)).len()) by {
        assert(views(diff.to_delete@).to_multiset().len() == keys(
            gone(list, other),
        ).to_multiset().len());
    }
    lemma_filter_all(list, is_kept);
}

proof fn lemma_filter_all<A>(s: Seq<A>, pred: spec_fn(A) -> bool)
    requires
        forall|x: A| s.contains(x) ==> #[trigger] pred(x),
    ensures
        s.filter(pred) == s,
    decreases s.len(),
{
    reveal(Seq::filter);
    if s.len() > 0 {
        let front = s.drop_last();
        assert forall|x: A| front.contains(x) implies #[trigger] pred(x) by {
            let i = choose|i: int| 0 <= i < front.len() && front[i] == x;
            assert(s[i] == x);
        }
        lemma_filter_all(front, pred);
        assert(s.contains(s.last()));
        assert(front.push(s.last()) =~= s);
    }
}

/// Two subtrees have one difference.
pub proof fn law_one_diff(
    source: Seq<(String, ObjectId)>,
    head: Seq<(String, ObjectId)>,
    a: RestoreDiff,
    b: RestoreDiff,
)
    requires
        is_diff(source, head, a),
        is_diff(source, head, b),
    ensures
        a.to_write@ == b.to_write@,
        views(a.to_delete@) == views(b.to_delete@),
        views(a.unchanged@) == views(b.unchanged@),
{
    law_one_order_of_pairs(changed(source, head), a.to_write@, b.to_write@);
    law_one_order(keys(gone(source, head)), views(a.to_delete@), views(b.to_delete@));
    law_one_order(keys(kept(source, head)), views(a.unchanged@), views(b.unchanged@));
}

/// The paths of a list, each with its blob.
pub open spec fn entries(list: Seq<(String, ObjectId)>) -> Seq<(Seq<char>, ObjectId)> {
    list.map_values(|e: (String, ObjectId)| (e.0@, e.1))
}

/// What a filter leaves of a list without double paths has none either.
pub proof fn lemma_filtered_distinct(
    list: Seq<(String, ObjectId)>,
    pred: spec_fn((String, ObjectId)) -> bool,
)
    requires
        distinct_paths(list),
    ensures
        distinct_paths(list.filter(pred)),
    decreases list.len(),
{
    reveal(Seq::filter);
    if list.len() > 0 {
        let front = list.drop_last();
        let last = list.last();
        let kept = front.filter(pred);
        assert(keys(list) =~= keys(front).push(last.0@));
        assert(keys(front).no_duplicates()) by {
            assert forall|i: int, j: int|
                0 <= i < keys(front).len() && 0 <= j < keys(front).len() && i != j implies keys(
                front,
            )[i] != keys(front)[j] by {
                assert(keys(list)[i] == keys(front)[i]);
                assert(keys(list)[j] == keys(front)[j]);
            }
        }
        lemma_filtered_distinct(front, pred);
        if pred(last) {
            assert(keys(kept.push(last)) =~= keys(kept).push(last.0@));
            assert(!keys(kept).contains(last.0@)) by {
                if keys(kept).contains(last.0@) {
                    let i = choose|i: int| 0 <= i < keys(kept).len() && keys(kept)[i] == last.0@;
                    assert(kept.contains(kept[i]));
                    lemma_filter_iff(front, pred, kept[i]);
                    let j = choose|j: int| 0 <= j < front.len() && front[j] == kept[i];
                    assert(keys(list)[j] == last.0@);
                    assert(keys(list)[list.len() - 1] == last.0@);
                }
            }
        }
    }
}

/// What a filter leaves of a list without double paths, by path.
proof fn lemma_filtered_keys(
    list: Seq<(String, ObjectId)>,
    pred: spec_fn((String, ObjectId)) -> bool,
    path: Seq<char>,
)
    requires
        distinct_paths(list),
    ensures
        keys(list.filter(pred)).contains(path) ==> files(list).contains_key(path) && exists|
            e: (String, ObjectId),
        |
            #[trigger] list.contains(e) && e.0@ == path && e.1 == files(list)[path] && pred(e),
        files(list).contains_key(path) && (forall|e: (String, ObjectId)|
            e.0@ == path && e.1 == files(list)[path] ==> #[trigger] pred(e)) ==> keys(
            list.filter(pred),
        ).contains(path),
{
    let left = list.filter(pred);
    if keys(left).contains(path) {
        let i = choose|i: int| 0 <= i < keys(left).len() && keys(left)[i] == path;
        assert(left.contains(left[i]));
        lemma_filter_iff(list, pred, left[i]);
        lemma_distinct_entry(list, left[i]);
        assert(list.contains(left[i]));
    }
    if files(list).contains_key(path) && (forall|e: (String, ObjectId)|
        e.0@ == path && e.1 == files(list)[path] ==> #[trigger] pred(e)) {
        let e = lemma_files_entry(list, path);
        assert(pred(e));
        lemma_filter_iff(list, pred, e);
        let i = choose|i: int| 0 <= i < left.len() && left[i] == e;
        assert(keys(left)[i] == path);
    }
}

/// The difference of two subtrees depends on their files alone, not on the order
/// in which these are given.
pub proof fn law_diff_of_files(
    source: Seq<(String, ObjectId)>,
    head: Seq<(String, ObjectId)>,
    other_source: Seq<(String, ObjectId)>,
    other_head: Seq<(String, ObjectId)>,
    a: RestoreDiff,
    b: RestoreDiff,
)
    requires
        distinct_paths(source),
        distinct_paths(head),
        distinct_paths(other_source),
        distinct_paths(other_head),
        files(source) == files(other_source),
        files(head) == files(other_head),
        is_diff(source, head, a),
        is_diff(other_source, other_head, b),
    ensures
        entries(a.to_write@) == entries(b.to_write@),
        views(a.to_delete@) == views(b.to_delete@),
        views(a.unchanged@) == views(b.unchanged@),
{
    let differs = |e: (String, ObjectId)| !same_in(head, e);
    let differs_too = |e: (String, ObjectId)| !same_in(other_head, e);
    let stays = |e: (String, ObjectId)| same_in(head, e);
    let stays_too = |e: (String, ObjectId)| same_in(other_head, e);
    let lost = |e: (String, ObjectId)| !files(source).contains_key(e.0@);
    let lost_too = |e: (String, ObjectId)| !files(other_source).contains_key(e.0@);
    assert(changed(source, head) == source.filter(differs));
    assert(changed(other_source, other_head) == other_source.filter(differs_too));
    assert(kept(source, head) == source.filter(stays));
    assert(kept(other_source, other_head) == other_source.filter(stays_too));
    assert(gone(source, head) == head.filter(lost));
    assert(gone(other_source, other_head) == other_head.filter(lost_too));
    lemma_filtered_distinct(source, differs);
    lemma_filtered_distinct(other_source, differs_too);
    lemma_filtered_distinct(source, stays);
    lemma_filtered_distinct(other_source, stays_too);
    lemma_filtered_distinct(head, lost);
    lemma_filtered_distinct(other_head, lost_too);
    assert forall|p: Seq<char>| #[trigger]
        keys(changed(source, head)).contains(p) <==> keys(
            changed(other_source, other_head),
        ).contains(p) by {
        lemma_filtered_keys(source, differs, p);
        lemma_filtered_keys(other_source, differs_too, p);
    }
    assert forall|p: Seq<char>| #[trigger]
        keys(kept(source, head)).contains(p) <==> keys(kept(other_source, other_head)).contains(
            p,
        ) by {
        lemma_filtered_keys(source, stays, p);
        lemma_filtered_keys(other_source, stays_too, p);
    }
    assert forall|p: Seq<char>| #[trigger]
        keys(gone(source, head)).contains(p) <==> keys(gone(other_source, other_head)).contains(
            p,
        ) by {
        lemma_filtered_keys(head, lost, p);
        lemma_filtered_keys(other_head, lost_too, p);
    }
    law_order_of_a_set(
        keys(changed(source, head)),
        keys(changed(other_source, other_head)),
        keys(a.to_write@),
        keys(b.to_write@),
    );
    law_order_of_a_set(
        keys(kept(source, head)),
        keys(kept(other_source, other_head)),
        views(a.unchanged@),
        views(b.unchanged@),
    );
    law_order_of_a_set(
        keys(gone(source, head)),
        keys(gone(other_source, other_head)),
        views(a.to_delete@),
        views(b.to_delete@),
    );
    assert(keys(a.to_write@).len() == a.to_write@.len());
    assert(keys(b.to_write@).len() == b.to_write@.len());
    assert forall|i: int| 0 <= i < a.to_write@.len() implies entries(a.to_write@)[i] == entries(
        b.to_write@,
    )[i] by {
        assert(keys(a.to_write@)[i] == a.to_write@[i].0@);
        assert(keys(b.to_write@)[i] == b.to_write@[i].0@);
        lemma_written_blob(source, differs, a.to_write@, i);
        lemma_written_blob(other_source, differs_too, b.to_write@, i);
    }
    assert(entries(a.to_write@) =~= entries(b.to_write@));
}

proof fn lemma_written_blob(
    source: Seq<(String, ObjectId)>,
    pred: spec_fn((String, ObjectId)) -> bool,
    written: Seq<(String, ObjectId)>,
    i: int,
)
    requires
        distinct_paths(source),
        sorted_by_key(source.filter(pred), written),
        0 <= i < written.len(),
    ensures
        written[i].1 == files(source)[written[i].0@],
{
    let e = written[i];
    assert(written.contains(e));
    lemma_having_contains(written, e.0@, e);
    lemma_having_contains(source.filter(pred), e.0@, e);
    assert(having(written, e.0@) == having(source.filter(pred), e.0@));
    lemma_filter_iff(source, pred, e);
    lemma_distinct_entry(source, e);
}

// ---- Directories to prune --------------------------------------------------

/// The number of components of a directory.
pub open spec fn depth(dir: Seq<char>) -> nat {
    split(dir, '/').len()
}

/// `dir` is one of the directories of the file `path`.
pub open spec fn holds_file(dir: Seq<char>, path: Seq<char>) -> bool {
    begins(path, dir.push('/'))
}

/// `a` is pruned before `b`: the deeper one, and of two at one depth the later
/// in the order of texts.
pub open spec fn pruned_before(a: Seq<char>, b: Seq<char>) -> bool {
    depth(a) > depth(b) || (depth(a) == depth(b) && text_lt(b, a))
}

/// `dirs` are the directories of the deleted files, each once, in the order in
/// which they are pruned.
pub open spec fn is_prune_order(deleted: Seq<Seq<char>>, dirs: Seq<Seq<char>>) -> bool {
    &&& forall|dir: Seq<char>| #[trigger]
        dirs.contains(dir) <==> exists|i: int|
            0 <= i < deleted.len() && holds_file(dir, #[trigger] deleted[i])
    &&& forall|i: int, j: int|
        0 <= i < j < dirs.len() ==> pruned_before(#[trigger] dirs[i], #[trigger] dirs[j])
}

/// Puts a directory in its place, unless it stands there.
fn insert_dir(dirs: &mut Vec<(usize, String)>, dir: String)
    requires
        forall|i: int| 0 <= i < old(dirs)@.len() ==> (#[trigger] old(dirs)@[i]).0 == depth(
            old(dirs)@[i].1@,
        ),
        forall|i: int, j: int|
            0 <= i < j < old(dirs)@.len() ==> pruned_before(
                (#[trigger] old(dirs)@[i]).1@,
                (#[trigger] old(dirs)@[j]).1@,
            ),
    ensures
        forall|i: int| 0 <= i < final(dirs)@.len() ==> (#[trigger] final(dirs)@[i]).0 == depth(
            final(dirs)@[i].1@,
        ),
        forall|i: int, j: int|
            0 <= i < j < final(dirs)@.len() ==> pruned_before(
                (#[trigger] final(dirs)@[i]).1@,
                (#[trigger] final(dirs)@[j]).1@,
            ),
        forall|d: Seq<char>| #[trigger]
            listed(final(dirs)@, d) <==> listed(old(dirs)@, d) || d == dir@,
{
    broadcast use lemma_text_irreflexive, lemma_text_transitive;

    let ghost before = dirs@;
    let n: usize = split_on(dir.as_str(), '/').len();
    assert(n == depth(dir@));
    let mut at: usize = 0;
    while at < dirs.len() && (dirs[at].0 > n || (dirs[at].0 == n && text_before(
        dir.as_str(),
        dirs[at].1.as_str(),
    )))
        invariant
            dirs@ == before,
            n == depth(dir@),
            at <= dirs@.len(),
            forall|i: int|
                0 <= i < before.len() ==> (#[trigger] before[i]).0 == depth(before[i].1@),
            forall|i: int| 0 <= i < at ==> pruned_before((#[trigger] before[i]).1@, dir@),
        decreases dirs.len() - at,
    {
        at = at + 1;
    }
    if at < dirs.len() && dirs[at].0 == n && !text_before(dirs[at].1.as_str(), dir.as_str()) {
        proof {
            lemma_text_total(dirs@[at as int].1@, dir@);
            assert(dirs@[at as int].1@ == dir@);
            assert(listed(before, dir@));
        }
        return;
    }
    let ghost placed = (n, dir);
    dirs.insert(at, (n, dir));
    proof {
        let after = before.insert(at as int, placed);
        assert forall|i: int| at <= i < before.len() implies pruned_before(
            placed.1@,
            (#[trigger] before[i]).1@,
        ) by {
            if i > at {
                assert(pruned_before(before[at as int].1@, before[i].1@));
            }
        }
        assert forall|i: int, j: int| 0 <= i < j < after.len() implies pruned_before(
            (#[trigger] after[i]).1@,
            (#[trigger] after[j]).1@,
        ) by {
            if i < at && j > at {
                assert(pruned_before(before[i].1@, before[j - 1].1@));
            } else if j < at {
                assert(pruned_before(before[i].1@, before[j].1@));
            } else if i > at {
                assert(pruned_before(before[i - 1].1@, before[j - 1].1@));
            } else if j == at {
                assert(pruned_before(before[i].1@, placed.1@));
            } else {
                assert(pruned_before(placed.1@, before[j - 1].1@));
            }
        }
        assert forall|d: Seq<char>| #[trigger]
            listed(after, d) <==> listed(before, d) || d == placed.1@ by {
            if listed(after, d) {
                let i = choose|i: int| 0 <= i < after.len() && (#[trigger] after[i]).1@ == d;
                if i < at {
                    assert(before[i].1@ == d);
                } else if i > at {
                    assert(before[i - 1].1@ == d);
                }
            }
            if listed(before, d) {
                let i = choose|i: int| 0 <= i < before.len() && (#[trigger] before[i]).1@ == d;
                if i < at {
                    assert(after[i].1@ == d);
                } else {
                    assert(after[i + 1].1@ == d);
                }
            }
            assert(after[at as int].1@ == placed.1@);
        }
    }
}

/// The directory is in the list.
spec fn listed(dirs: Seq<(usize, String)>, dir: Seq<char>) -> bool {
    exists|i: int| 0 <= i < dirs.len() && (#[trigger] dirs[i]).1@ == dir
}

/// The directories of the deleted files, in the order in which they are pruned:
/// the deepest first, so that a directory comes after everything in it.
pub fn prune_candidates(deleted: &Vec<String>) -> (dirs: Vec<String>)
    ensures
        is_prune_order(views(deleted@), views(dirs@)),
{
    let mut ranked: Vec<(usize, String)> = Vec::new();
    let ghost files = views(deleted@);
    let mut i: usize = 0;
    while i < deleted.len()
        invariant
            files == views(deleted@),
            i <= deleted@.len(),
            forall|k: int|
                0 <= k < ranked@.len() ==> (#[trigger] ranked@[k]).0 == depth(ranked@[k].1@),
            forall|k: int, l: int|
                0 <= k < l < ranked@.len() ==> pruned_before(
                    (#[trigger] ranked@[k]).1@,
                    (#[trigger] ranked@[l]).1@,
                ),
            forall|d: Seq<char>| #[trigger]
                listed(ranked@, d) <==> exists|k: int|
                    0 <= k < i && holds_file(d, #[trigger] files[k]),
        decreases deleted.len() - i,
    {
        let ghost file = files[i as int];
        let ghost known = ranked@;
        let chars = chars_of(deleted[i].as_str());
        assert(chars@ == file);
        let mut at: usize = 0;
        while at < chars.len()
            invariant
                chars@ == file,
                at <= chars@.len(),
                forall|k: int|
                    0 <= k < ranked@.len() ==> (#[trigger] ranked@[k]).0 == depth(ranked@[k].1@),
                forall|k: int, l: int|
                    0 <= k < l < ranked@.len() ==> pruned_before(
                        (#[trigger] ranked@[k]).1@,
                        (#[trigger] ranked@[l]).1@,
                    ),
                forall|d: Seq<char>| #[trigger]
                    listed(ranked@, d) <==> listed(known, d) || (holds_file(d, file) && d.len()
                        < at),
            decreases chars.len() - at,
        {
            if chars[at] == '/' {
                let dir = text_of(chars.as_slice(), 0, at);
                let ghost earlier = ranked@;
                insert_dir(&mut ranked, dir);
                proof {
                    assert forall|d: Seq<char>| holds_file(d, file) && d.len() == at implies d
                        == #[trigger] file.subrange(0, at as int) by {
                        assert(file.subrange(0, at + 1) == d.push('/'));
                        assert(d =~= d.push('/').drop_last());
                        assert(file.subrange(0, at + 1).drop_last() =~= file.subrange(0, at as int));
                    }
                    assert(file.subrange(0, at as int).push('/') =~= file.subrange(0, at + 1));
                    assert(holds_file(file.subrange(0, at as int), file));
                }
            } else {
                proof {
                    assert forall|d: Seq<char>| #[trigger] holds_file(d, file) implies d.len()
                        != at by {
                        if d.len() == at {
                            assert(file.subrange(0, at + 1)[at as int] == '/');
                        }
                    }
                }
            }
            at = at + 1;
        }
        proof {
            assert forall|d: Seq<char>| #[trigger]
                listed(ranked@, d) <==> exists|k: int|
                    0 <= k < i + 1 && holds_file(d, #[trigger] files[k]) by {
                if listed(known, d) {
                    let k = choose|k: int| 0 <= k < i && holds_file(d, #[trigger] files[k]);
                    assert(holds_file(d, files[k]));
                }
                if holds_file(d, file) {
                    assert(holds_file(d, files[i as int]));
                }
            }
        }
        i = i + 1;
    }
    let ghost order = ranked@;
    let mut dirs: Vec<String> = Vec::new();
    let mut j: usize = 0;
    while j < ranked.len()
        invariant
            ranked@ == order,
            j <= order.len(),
            dirs@.len() == j,
            forall|k: int| 0 <= k < j ==> (#[trigger] dirs@[k])@ == order[k].1@,
        decreases ranked.len() - j,
    {
        dirs.push(ranked[j].1.clone());
        j = j + 1;
    }
    proof {
        let list = views(dirs@);
        assert forall|d: Seq<char>| #[trigger]
            list.contains(d) <==> exists|k: int|
                0 <= k < files.len() && holds_file(d, #[trigger] files[k]) by {
            if list.contains(d) {
                let k = choose|k: int| 0 <= k < list.len() && list[k] == d;
                assert(order[k].1@ == d);
                assert(listed(order, d));
            }
            if listed(order, d) {
                let k = choose|k: int| 0 <= k < order.len() && (#[trigger] order[k]).1@ == d;
                assert(list[k] == d);
            }
        }
        assert forall|k: int, l: int| 0 <= k < l < list.len() implies pruned_before(
            #[trigger] list[k],
            #[trigger] list[l],
        ) by {
            assert(pruned_before(order[k].1@, order[l].1@));
        }
    }
    dirs
}

proof fn lemma_one_strict_order(a: Seq<Seq<char>>, b: Seq<Seq<char>>)
    requires
        forall|i: int, j: int|
            0 <= i < j < a.len() ==> pruned_before(#[trigger] a[i], #[trigger] a[j]),
        forall|i: int, j: int|
            0 <= i < j < b.len() ==> pruned_before(#[trigger] b[i], #[trigger] b[j]),
        forall|d: Seq<char>| #[trigger] a.contains(d) <==> b.contains(d),
    ensures
        a == b,
    decreases a.len(),
{
    broadcast use lemma_text_irreflexive, lemma_text_transitive;

    if a.len() == 0 {
        if b.len() > 0 {
            assert(b.contains(b[0]));
            assert(a.contains(b[0]));
        }
        assert(a =~= b);
    } else {
        assert(a.contains(a[a.len() - 1]));
        let i = choose|i: int| 0 <= i < b.len() && b[i] == a.last();
        assert(b.contains(b[b.len() - 1]));
        assert(a.contains(b.last()));
        let j = choose|j: int| 0 <= j < a.len() && a[j] == b.last();
        assert(a.last() == b.last()) by {
            if i < b.len() - 1 && j < a.len() - 1 {
                assert(pruned_before(b[i], b[b.len() - 1]));
                assert(pruned_before(a[j], a[a.len() - 1]));
            }
        }
        let front_a = a.drop_last();
        let front_b = b.drop_last();
        assert forall|d: Seq<char>| #[trigger]
            front_a.contains(d) <==> front_b.contains(d) by {
            if front_a.contains(d) {
                let k = choose|k: int| 0 <= k < front_a.len() && front_a[k] == d;
                assert(a[k] == d);
                assert(pruned_before(a[k], a[a.len() - 1]));
                assert(a.contains(d));
                let l = choose|l: int| 0 <= l < b.len() && b[l] == d;
                assert(front_b[l] == d);
            }
            if front_b.contains(d) {
                let k = choose|k: int| 0 <= k < front_b.len() && front_b[k] == d;
                assert(b[k] == d);
                assert(pruned_before(b[k], b[b.len() - 1]));
                assert(b.contains(d));
                assert(a.contains(d));
                let l = choose|l: int| 0 <= l < a.len() && a[l] == d;
                assert(front_a[l] == d);
            }
        }
        lemma_one_strict_order(front_a, front_b);
        assert(front_a.push(a.last()) =~= a);
        assert(front_b.push(b.last()) =~= b);
    }
}

/// The directories of deleted files are pruned in one order.
pub proof fn law_one_prune_order(deleted: Seq<Seq<char>>, a: Seq<Seq<char>>, b: Seq<Seq<char>>)
    requires
        is_prune_order(deleted, a),
        is_prune_order(deleted, b),
    ensures
        a == b,
{
    assert forall|d: Seq<char>| #[trigger] a.contains(d) <==> b.contains(d) by {
        assert(a.contains(d) <==> exists|k: int|
            0 <= k < deleted.len() && holds_file(d, #[trigger] deleted[k]));
        assert(b.contains(d) <==> exists|k: int|
            0 <= k < deleted.len() && holds_file(d, #[trigger] deleted[k]));
    }
    lemma_one_strict_order(a, b);
}

/// A directory is pruned after every directory that lies in it.
pub proof fn law_children_first(deleted: Seq<Seq<char>>, dirs: Seq<Seq<char>>, inner: int, outer: int)
    requires
        is_prune_order(deleted, dirs),
        0 <= inner < dirs.len(),
        0 <= outer < dirs.len(),
        begins(dirs[inner], dirs[outer].push('/')),
    ensures
        inner < outer,
{
    lemma_deeper(dirs[inner], dirs[outer]);
    if outer < inner {
        assert(pruned_before(dirs[outer], dirs[inner]));
    }
}

proof fn lemma_deeper(inner: Seq<char>, outer: Seq<char>)
    requires
        begins(inner, outer.push('/')),
    ensures
        depth(inner) > depth(outer),
    decreases inner.len(),
{
    if inner.len() == outer.len() + 1 {
        assert(inner.subrange(0, inner.len() as int) =~= inner);
        assert(inner.drop_last() =~= outer);
    } else {
        let shorter = inner.drop_last();
        assert(shorter.subrange(0, 1 + outer.len() as int) =~= inner.subrange(
            0,
            1 + outer.len() as int,
        ));
        lemma_deeper(shorter, outer);
    }
}

// ---- Project directory -----------------------------------------------------

/// The text in quotes, with escapes, as `format!` writes it for `{:?}`.
pub uninterp spec fn quoted(text: Seq<char>) -> Seq<char>;

/// `format!` with `{:?}` on a string: the text in quotes, with escapes, which
/// depends on the text alone.
#[verifier::external_body]
fn quote(text: &str) -> (shown: String)
    ensures
        shown@ == quoted(text@),
{
    format!("{:?}", text)
}

/// Why `dir` cannot be restored, given how it is shown in messages.
pub open spec fn project_dir_error(dir: Seq<char>, shown: Seq<char>) -> Option<Seq<char>> {
    if dir.len() == 0 {
        Some("project_dir must be non-empty"@)
    } else if dir.first() == '/' || dir.last() == '/' {
        Some("project_dir must not start or end with '/': "@ + shown)
    } else if split(dir, '/').contains(Seq::<char>::empty()) {
        Some("project_dir contains empty segment: "@ + shown)
    } else {
        None
    }
}

/// Checks the directory of a restore, given how it is shown in messages.
pub fn check_project_dir(dir: &str, shown: &str) -> (result: Result<(), GitError>)
    ensures
        match result {
            Ok(()) => project_dir_error(dir@, shown@) is None,
            Err(e) => project_dir_error(dir@, shown@) is Some && e@
                == GitErrorView::InvalidProjectDir(project_dir_error(dir@, shown@)->0),
        },
{
    if dir.is_empty() {
        return Err(GitError::InvalidProjectDir("project_dir must be non-empty".to_owned()));
    }
    let chars = chars_of(dir);
    if chars[0] == '/' || chars[chars.len() - 1] == '/' {
        return Err(
            GitError::InvalidProjectDir(
                cat2("project_dir must not start or end with '/': ", shown),
            ),
        );
    }
    let segments = split_on(dir, '/');
    let ghost all = split(dir@, '/');
    let mut i: usize = 0;
    while i < segments.len()
        invariant
            dir@.len() > 0,
            dir@.first() != '/',
            dir@.last() != '/',
            all == split(dir@, '/'),
            views(segments@) == all,
            i <= segments@.len(),
            forall|j: int| 0 <= j < i ==> all[j].len() > 0,
        decreases segments.len() - i,
    {
        assert(all[i as int] == segments@[i as int]@);
        if segments[i].as_str().is_empty() {
            assert(all[i as int] =~= Seq::<char>::empty());
            return Err(
                GitError::InvalidProjectDir(cat2("project_dir contains empty segment: ", shown)),
            );
        }
        i = i + 1;
    }
    assert(all.len() == segments@.len());
    assert(!all.contains(Seq::<char>::empty()));
    Ok(())
}

/// Checks the directory of a restore: it is not empty, does not start or end
/// with `/`, and has no empty segment.
pub fn validate_project_dir(project_dir: &str) -> (result: Result<(), GitError>)
    ensures
        match result {
            Ok(()) => project_dir_error(project_dir@, quoted(project_dir@)) is None,
            Err(e) => project_dir_error(project_dir@, quoted(project_dir@)) is Some && e@
                == GitErrorView::InvalidProjectDir(
                project_dir_error(project_dir@, quoted(project_dir@))->0,
            ),
        },
{
    check_project_dir(project_dir, quote(project_dir).as_str())
}

/// The directories that can be restored are the paths at which the tree editor
/// puts entries.
pub proof fn law_project_dir_is_path(dir: Seq<char>, shown: Seq<char>)
    ensures
        project_dir_error(dir, shown) is None <==> path_error(dir) is None,
{
    if dir.len() > 0 {
        crate::text::lemma_split_len(dir.drop_last(), '/');
        if dir.last() == '/' {
            let before = split(dir.drop_last(), '/');
            assert(split(dir, '/')[before.len() as int] == Seq::<char>::empty());
        }
        if dir.first() == '/' {
            lemma_leading_slash(dir);
            assert(split(dir, '/')[0] == Seq::<char>::empty());
        }
    }
}

proof fn lemma_leading_slash(dir: Seq<char>)
    requires
        dir.len() > 0,
        dir.first() == '/',
    ensures
        split(dir, '/').len() >= 2,
        split(dir, '/')[0] == Seq::<char>::empty(),
    decreases dir.len(),
{
    if dir.len() == 1 {
        assert(dir.drop_last() =~= Seq::<char>::empty());
        assert(split(dir.drop_last(), '/') == seq![Seq::<char>::empty()]);
    } else {
        lemma_leading_slash(dir.drop_last());
    }
}

} // verus!
