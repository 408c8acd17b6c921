//! What the editor of a tree is for.

use crate::error::GitError;
use crate::laws::names::law_on_the_way;
use crate::laws::text::{comes_before, holds_at, lemma_holds_at, lemma_text_order};
use crate::oid::ObjectId;
use crate::sorted::SortedMap;
use crate::text::{free_of, join, lemma_split_free, lemma_split_len, split};
use crate::tree_builder::{
    answer, blocks, law_remove, law_upsert, law_upsert_refused, law_upsert_subtree,
    lemma_free_prefix, lemma_opening_stops, lemma_way_entry, on_the_way, path_error, EditorModel,
    EntryKind, TreeEditor,
};
use vstd::prelude::*;

verus! {

/// Something that is no directory stands on the way to the path.
pub open spec fn is_blocked(m: EditorModel, path: Seq<char>) -> bool {
    exists|dir: Seq<char>| #[trigger]
        holds_at(path, dir.push('/'), 0) && (m.entry(dir) matches Some(n) && n.mode
            != EntryKind::Tree)
}

proof fn lemma_blocked(m: EditorModel, path: Seq<char>, oid: ObjectId)
    ensures
        m.upserted(path, oid).1 is Err <==> path_error(path) is Some || is_blocked(m, path),
{
    law_upsert_refused(m, path, oid);
    if exists|dir: Seq<char>| #[trigger] on_the_way(dir, path) && blocks(m, dir) {
        let dir = choose|dir: Seq<char>| #[trigger] on_the_way(dir, path) && blocks(m, dir);
        law_on_the_way(dir, path);
    }
    if is_blocked(m, path) {
        let dir = choose|dir: Seq<char>| #[trigger]
            holds_at(path, dir.push('/'), 0) && (m.entry(dir) matches Some(n) && n.mode
                != EntryKind::Tree);
        law_on_the_way(dir, path);
        assert(on_the_way(dir, path) && blocks(m, dir));
    }
}

/// The empty editor holds nothing.
pub proof fn law_empty_editor(editor: TreeEditor, path: Seq<char>)
    requires
        call_ensures(TreeEditor::empty, (), editor),
    ensures
        editor@.entry(path) is None,
{
}

/// A blob that is put at a path stands there, the directories on the way to it are ones,
/// and nothing else changes. It is refused if and only if the path is no proper one or
/// something that is no directory stands on the way.
pub proof fn law_putting_a_file(
    editor: &mut TreeEditor,
    path: &str,
    oid: ObjectId,
    result: Result<(), GitError>,
    other: Seq<char>,
)
    requires
        call_ensures(TreeEditor::upsert, (editor, path, oid), result),
    ensures
        result is Err <==> path_error(path@) is Some || is_blocked(old(editor)@, path@),
        result is Ok ==> {
            let before = old(editor)@;
            let after = final(editor)@;
            &&& after.entry(path@) matches Some(n) && n.oid == oid && n.mode == EntryKind::Blob
            &&& holds_at(path@, other.push('/'), 0) ==> (after.entry(other) matches Some(n)
                && n.mode == EntryKind::Tree)
            &&& other != path@ && !holds_at(path@, other.push('/'), 0) ==> after.entry(other)
                == before.entry(other)
        },
{
    lemma_blocked(old(editor)@, path@, oid);
    law_on_the_way(other, path@);
    if result is Ok {
        law_upsert(old(editor)@, path@, oid, path@);
        law_upsert(old(editor)@, path@, oid, other);
    }
}

/// `name` is the last segment of the path.
pub open spec fn ends_in(path: Seq<char>, name: Seq<char>) -> bool {
    &&& !name.contains('/')
    &&& path == name || exists|front: Seq<char>| path == #[trigger] front.push('/') + name
}

proof fn lemma_stop(m: EditorModel, dirs: Seq<Seq<char>>, n: nat) -> (at: int)
    requires
        free_of(dirs, '/'),
        n <= dirs.len(),
        m.opened(dirs, n).1 is Some,
    ensures
        0 <= at < n,
        m.opened(dirs, n).1 == Some(dirs[at]),
        m.at(dirs.take(at), dirs[at]) matches Some(e) && e.mode != EntryKind::Tree,
    decreases n,
{
    let k = (n - 1) as nat;
    lemma_opening_stops(m, dirs, n);
    lemma_opening_stops(m, dirs, k);
    if m.opened(dirs, k).1 is Some {
        lemma_stop(m, dirs, k)
    } else {
        k as int
    }
}

/// The first of the faults of a path is the one that is told; where the path is proper,
/// it is the name of something on the way that is no directory.
pub proof fn law_refused_paths(
    editor: &mut TreeEditor,
    path: &str,
    oid: ObjectId,
    result: Result<(), GitError>,
)
    requires
        call_ensures(TreeEditor::upsert, (editor, path, oid), result) || call_ensures(
            TreeEditor::upsert_subtree,
            (editor, path, oid),
            result,
        ),
    ensures
        result matches Err(e) ==> e matches GitError::Other(t) && if path@.len() == 0 {
            t@ == "empty path"@
        } else if path_error(path@) is Some {
            t@ == "empty path component"@
        } else {
            exists|dir: Seq<char>, name: Seq<char>| #[trigger]
                holds_at(path@, dir.push('/'), 0) && #[trigger] ends_in(dir, name) && (
                old(editor)@.entry(dir) matches Some(n) && n.mode != EntryKind::Tree) && t@
                    == "path component '"@ + name + "' is not a tree"@
        },
{
    let m = old(editor)@;
    let p = path@;
    if let Err(e) = result {
        assert(answer(result) == Err::<(), _>(e@));
        if path_error(p) is None {
            let components = split(p, '/');
            let dirs = components.drop_last();
            lemma_split_len(p, '/');
            lemma_split_free(p, '/');
            assert(dirs =~= components.take(components.len() - 1));
            lemma_free_prefix(components, components.len() - 1);
            let at = lemma_stop(m, dirs, dirs.len());
            lemma_way_entry(m, p, at);
            let front = components.take(at + 1);
            let dir = join(front, '/');
            let name = components[at];
            assert(dirs.take(at) =~= components.take(at));
            law_on_the_way(dir, p);
            assert(front.last() == name);
            if at > 0 {
                let above = join(front.drop_last(), '/');
                assert(dir == above.push('/') + name);
            }
            assert(ends_in(dir, name));
            assert(holds_at(p, dir.push('/'), 0));
        }
    }
}

/// A file that is removed is gone, and nothing else changes. Only a path that is no
/// proper one is refused.
pub proof fn law_removing_a_file(
    editor: &mut TreeEditor,
    path: &str,
    result: Result<(), GitError>,
    other: Seq<char>,
)
    requires
        call_ensures(TreeEditor::remove, (editor, path), result),
    ensures
        result is Err <==> path_error(path@) is Some,
        result matches Err(e) ==> e matches GitError::Other(t) && t@ == (if path@.len() == 0 {
            "empty path"@
        } else {
            "empty path component"@
        }),
        result is Ok ==> final(editor)@.entry(path@) is None && (other != path@
            ==> final(editor)@.entry(other) == old(editor)@.entry(other)),
{
    if let Err(e) = result {
        assert(answer(result) == Err::<(), _>(e@));
    }
    if result is Ok {
        law_remove(old(editor)@, path@, path@);
        law_remove(old(editor)@, path@, other);
    }
}

/// A stored tree that is put at a path stands there, with nothing of what the editor held
/// beneath it; what lies elsewhere and not on the way does not change.
pub proof fn law_putting_a_tree(
    editor: &mut TreeEditor,
    path: &str,
    oid: ObjectId,
    result: Result<(), GitError>,
    other: Seq<char>,
)
    requires
        call_ensures(TreeEditor::upsert_subtree, (editor, path, oid), result),
    ensures
        result is Ok ==> {
            let after = final(editor)@;
            &&& after.entry(path@) matches Some(n) && n.oid == oid && n.mode == EntryKind::Tree
            &&& holds_at(other, path@.push('/'), 0) ==> after.entry(other) is None
            &&& other != path@ && !holds_at(other, path@.push('/'), 0) && !holds_at(
                path@,
                other.push('/'),
                0,
            ) ==> after.entry(other) == old(editor)@.entry(other)
        },
        result is Err <==> path_error(path@) is Some || is_blocked(old(editor)@, path@),
{
    lemma_blocked(old(editor)@, path@, oid);
    law_on_the_way(other, path@);
    lemma_holds_at(other, path@.push('/'), 0);
    if result is Ok {
        law_upsert_subtree(old(editor)@, path@, oid, path@);
        law_upsert_subtree(old(editor)@, path@, oid, other);
    }
}

/// A sorted map gives back what was put in it, and what was taken out is gone; nothing
/// else changes. What lies in a directory, and the directory itself, go together.
pub proof fn law_sorted_map<V>(
    map: &mut SortedMap<V>,
    key: String,
    value: V,
    look: SortedMap<V>,
    name: &str,
    found: Option<&V>,
    less: &mut SortedMap<V>,
    gone: Option<V>,
    cut: &mut SortedMap<V>,
    any: Seq<char>,
)
    requires
        call_ensures(SortedMap::<V>::insert, (map, key, value), ()),
        call_ensures(SortedMap::<V>::get, (&look, name), found),
        call_ensures(SortedMap::<V>::remove, (less, name), gone),
        call_ensures(SortedMap::<V>::remove_beneath, (cut, name), ()),
    ensures
        final(map)@ == old(map)@.insert(key@, value),
        found is Some <==> look@.contains_key(name@),
        found matches Some(v) ==> *v == look@[name@],
        final(less)@ == old(less)@.remove(name@),
        gone is Some <==> old(less)@.contains_key(name@),
        gone matches Some(v) ==> v == old(less)@[name@],
        final(cut)@.contains_key(any) <==> old(cut)@.contains_key(any) && any != name@ && !holds_at(
            any,
            name@.push('/'),
            0,
        ),
        final(cut)@.contains_key(any) ==> final(cut)@[any] == old(cut)@[any],
{
    lemma_holds_at(any, name@.push('/'), 0);
}

/// A new sorted map is empty. The entries of a map are told one by one, in the order of
/// their keys and each once.
pub proof fn law_reading_a_sorted_map<V>(
    fresh: SortedMap<V>,
    map: SortedMap<V>,
    n: usize,
    none: bool,
    i: usize,
    one: (&String, &V),
    j: usize,
    other: (&String, &V),
)
    requires
        call_ensures(SortedMap::<V>::new, (), fresh),
        call_ensures(SortedMap::<V>::len, (&map,), n),
        call_ensures(SortedMap::<V>::is_empty, (&map,), none),
        call_ensures(SortedMap::<V>::entry_at, (&map, i), one),
        call_ensures(SortedMap::<V>::entry_at, (&map, j), other),
        i < j < n,
    ensures
        fresh@ == Map::<Seq<char>, V>::empty(),
        !none,
        map@.contains_key(one.0@) && map@[one.0@] == *one.1,
        comes_before(one.0@, other.0@),
{
    lemma_text_order(one.0@, other.0@);
}

/// A sorted map without entries is the empty one, and one with entries tells as many as
/// it has keys.
pub proof fn law_size_of_a_sorted_map<V>(map: SortedMap<V>, n: usize, none: bool)
    requires
        call_ensures(SortedMap::<V>::len, (&map,), n),
        call_ensures(SortedMap::<V>::is_empty, (&map,), none),
    ensures
        none <==> n == 0,
        none <==> map@ == Map::<Seq<char>, V>::empty(),
        map@.dom() == map.keys().to_set(),
        map.keys().no_duplicates(),
        map.keys().len() == n,
{
    assert forall|i: int, j: int|
        0 <= i < map.keys().len() && 0 <= j < map.keys().len() && i != j implies map.keys()[i]
        != map.keys()[j] by {
        crate::order::lemma_text_irreflexive(map.keys()[i]);
    }
    assert(map@.dom() =~= map.keys().to_set());
}

} // verus!
