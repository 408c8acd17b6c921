//! Editing a tree of directories in memory.

use crate::error::{GitError, GitErrorView};
use crate::oid::ObjectId;
use crate::sorted::{is_beneath, SortedMap};
use crate::text::{
    begins, cat3, free_of, join, lemma_join_split, lemma_split_free, lemma_split_join,
    lemma_split_len, split, split_on, views,
};
use vstd::prelude::*;

verus! {

/// What an entry of a tree names.
#[derive(Debug, Clone, Copy, PartialEq, Eq, Structural)]
pub enum EntryKind {
    Tree,
    Blob,
    BlobExecutable,
    Link,
    Commit,
}

/// An entry of a tree.
#[derive(Debug, Clone, PartialEq, Eq)]
pub struct TreeEntry {
    pub mode: EntryKind,
    pub filename: String,
    pub oid: ObjectId,
}

/// The entries of one directory, by name.
pub type TreeEntries = SortedMap<TreeEntry>;

/// A tree under construction: the entries of the root, and those of each other
/// directory at its path from the root.
#[derive(Debug)]
pub struct TreeEditor {
    pub root: TreeEntries,
    pub subtrees: SortedMap<TreeEntries>,
}

// ---- Model -----------------------------------------------------------------

/// An entry, by what it holds.
pub struct Node {
    pub mode: EntryKind,
    pub filename: Seq<char>,
    pub oid: ObjectId,
}

/// The entries of one directory, by name.
pub type Listing = Map<Seq<char>, Node>;

/// A tree under construction, by what it holds.
#[verifier::ext_equal]
pub struct EditorModel {
    pub root: Listing,
    pub subtrees: Map<Seq<char>, Listing>,
}

impl View for TreeEntry {
    type V = Node;

    open spec fn view(&self) -> Node {
        Node { mode: self.mode, filename: self.filename@, oid: self.oid }
    }
}

/// The entries of a directory, by what they hold.
pub open spec fn listing(entries: Map<Seq<char>, TreeEntry>) -> Listing {
    entries.map_values(|e: TreeEntry| e@)
}

impl View for TreeEditor {
    type V = EditorModel;

    open spec fn view(&self) -> EditorModel {
        EditorModel {
            root: listing(self.root@),
            subtrees: self.subtrees@.map_values(|entries: TreeEntries| listing(entries@)),
        }
    }
}

impl EditorModel {
    /// The tree without entries.
    pub open spec fn empty() -> EditorModel {
        EditorModel { root: Map::empty(), subtrees: Map::empty() }
    }

    /// The entries of the directory with these components.
    pub open spec fn dir(self, dir: Seq<Seq<char>>) -> Listing {
        if dir.len() == 0 {
            self.root
        } else if self.subtrees.contains_key(join(dir, '/')) {
            self.subtrees[join(dir, '/')]
        } else {
            Map::empty()
        }
    }

    /// The tree with other entries in one directory.
    pub open spec fn with_dir(self, dir: Seq<Seq<char>>, entries: Listing) -> EditorModel {
        if dir.len() == 0 {
            EditorModel { root: entries, ..self }
        } else {
            EditorModel { subtrees: self.subtrees.insert(join(dir, '/'), entries), ..self }
        }
    }

    /// The entry with this name in this directory.
    pub open spec fn at(self, dir: Seq<Seq<char>>, name: Seq<char>) -> Option<Node> {
        if self.dir(dir).contains_key(name) {
            Some(self.dir(dir)[name])
        } else {
            None
        }
    }

    /// The entry at a path.
    pub open spec fn entry(self, path: Seq<char>) -> Option<Node> {
        self.at(split(path, '/').drop_last(), split(path, '/').last())
    }

    /// The tree once the directory `name` in the directory `parent` has been
    /// opened, and whether it is one. A directory that is missing is created;
    /// its identifier is computed when the tree is written.
    pub open spec fn open_one(self, parent: Seq<Seq<char>>, name: Seq<char>) -> (EditorModel, bool) {
        match self.at(parent, name) {
            None => (
                self.with_dir(parent, self.dir(parent).insert(name, new_directory(name))),
                true,
            ),
            Some(node) => (
                self.with_dir(parent, self.dir(parent)),
                node.mode == EntryKind::Tree,
            ),
        }
    }

    /// The tree once the first `n` of the directories `dirs`, each in the one
    /// before it, have been opened, with the name of the first that is not a
    /// directory: none after it is opened.
    pub open spec fn opened(self, dirs: Seq<Seq<char>>, n: nat) -> (EditorModel, Option<Seq<char>>)
        decreases n,
    {
        if n == 0 {
            (self, None)
        } else {
            let (before, stop) = self.opened(dirs, (n - 1) as nat);
            if stop is Some {
                (before, stop)
            } else {
                let (after, is_tree) = before.open_one(dirs.take(n - 1), dirs[n - 1]);
                (
                    after,
                    if is_tree {
                        None
                    } else {
                        Some(dirs[n - 1])
                    },
                )
            }
        }
    }

    /// The tree and the answer once an entry has been put at `path`.
    pub open spec fn put(self, path: Seq<char>, mode: EntryKind, oid: ObjectId) -> (
        EditorModel,
        Result<(), GitErrorView>,
    ) {
        let components = split(path, '/');
        let dirs = components.drop_last();
        let name = components.last();
        let (open, stop) = self.opened(dirs, dirs.len());
        match (path_error(path), stop) {
            (Some(e), _) => (self, Err(GitErrorView::Other(e))),
            (None, Some(blocked)) => (open, Err(GitErrorView::Other(not_a_tree(blocked)))),
            (None, None) => (
                open.with_dir(
                    dirs,
                    open.dir(dirs).insert(name, Node { mode, filename: name, oid }),
                ),
                Ok(()),
            ),
        }
    }

    /// The tree and the answer once a blob has been put at `path`.
    pub open spec fn upserted(self, path: Seq<char>, oid: ObjectId) -> (
        EditorModel,
        Result<(), GitErrorView>,
    ) {
        self.put(path, EntryKind::Blob, oid)
    }

    /// The tree and the answer once the directory at `path` has been made the
    /// stored tree `oid`: what the editor held in it is forgotten.
    pub open spec fn spliced(self, path: Seq<char>, oid: ObjectId) -> (
        EditorModel,
        Result<(), GitErrorView>,
    ) {
        let (after, result) = self.put(path, EntryKind::Tree, oid);
        if result is Ok {
            (
                EditorModel {
                    subtrees: after.subtrees.remove_keys(
                        Set::new(|key: Seq<char>| is_beneath(key, path)),
                    ),
                    ..after
                },
                result,
            )
        } else {
            (after, result)
        }
    }

    /// The tree and the answer once the entry at `path` has been removed.
    pub open spec fn removed(self, path: Seq<char>) -> (EditorModel, Result<(), GitErrorView>) {
        let components = split(path, '/');
        let dirs = components.drop_last();
        let name = components.last();
        match path_error(path) {
            Some(e) => (self, Err(GitErrorView::Other(e))),
            None => if dirs.len() == 0 || self.subtrees.contains_key(join(dirs, '/')) {
                (self.with_dir(dirs, self.dir(dirs).remove(name)), Ok(()))
            } else {
                (self, Ok(()))
            },
        }
    }
}

/// The entry of a directory whose identifier is not computed yet.
pub open spec fn new_directory(name: Seq<char>) -> Node {
    Node { mode: EntryKind::Tree, filename: name, oid: null_oid() }
}

/// The identifier whose bytes are all zero.
pub open spec fn null_oid() -> ObjectId {
    choose|oid: ObjectId| oid.is_null()
}

/// Why `path` does not name an entry.
pub open spec fn path_error(path: Seq<char>) -> Option<Seq<char>> {
    if path.len() == 0 {
        Some("empty path"@)
    } else if split(path, '/').contains(Seq::<char>::empty()) {
        Some("empty path component"@)
    } else {
        None
    }
}

/// The message for a component of a path that is not a directory.
pub open spec fn not_a_tree(name: Seq<char>) -> Seq<char> {
    "path component '"@ + name + "' is not a tree"@
}

/// The view of an answer without a value.
pub open spec fn answer(result: Result<(), GitError>) -> Result<(), GitErrorView> {
    match result {
        Ok(()) => Ok(()),
        Err(e) => Err(e@),
    }
}

proof fn lemma_null_unique(oid: ObjectId)
    requires
        oid.is_null(),
    ensures
        oid == null_oid(),
{
    let other = null_oid();
    assert(other.is_null());
    assert(oid.bytes@ =~= other.bytes@);
    crate::oid::lemma_same_bytes(oid, other);
}

// ---- Operations ------------------------------------------------------------

/// Splits a path into its components, none of which may be empty.
fn split_path(path: &str) -> (result: Result<Vec<String>, GitError>)
    ensures
        match result {
            Ok(components) => path_error(path@) is None && views(components@) == split(path@, '/')
                && components@.len() > 0,
            Err(e) => path_error(path@) is Some && e@ == GitErrorView::Other(path_error(path@)->0),
        },
{
    if path.is_empty() {
        return Err(GitError::Other("empty path".to_owned()));
    }
    let components = split_on(path, '/');
    proof {
        lemma_split_len(path@, '/');
    }
    let mut i: usize = 0;
    while i < components.len()
        invariant
            path@.len() > 0,
            views(components@) == split(path@, '/'),
            i <= components@.len(),
            forall|j: int| 0 <= j < i ==> split(path@, '/')[j].len() > 0,
        decreases components.len() - i,
    {
        assert(split(path@, '/')[i as int] == components@[i as int]@);
        if components[i].as_str().is_empty() {
            assert(split(path@, '/')[i as int] =~= Seq::<char>::empty());
            return Err(GitError::Other("empty path component".to_owned()));
        }
        i = i + 1;
    }
    assert(split(path@, '/').len() == components@.len());
    assert(!split(path@, '/').contains(Seq::<char>::empty()));
    Ok(components)
}

/// Joins the first `n` components into the path of a directory.
fn join_prefix(parts: &Vec<String>, n: usize) -> (joined: String)
    requires
        n <= parts@.len(),
    ensures
        joined@ == join(views(parts@).take(n as int), '/'),
{
    let mut joined = String::new();
    let mut i: usize = 0;
    let ghost all = views(parts@);
    assert(all.take(0) =~= Seq::<Seq<char>>::empty());
    while i < n
        invariant
            i <= n <= parts@.len(),
            all == views(parts@),
            joined@ == join(all.take(i as int), '/'),
        decreases n - i,
    {
        let ghost before = all.take(i as int);
        let ghost after = all.take(i + 1);
        assert(after.drop_last() =~= before);
        assert(after.last() == parts@[i as int]@);
        let ghost text = joined@;
        if i > 0 {
            joined.push('/');
        }
        joined.append(parts[i].as_str());
        assert(joined@ =~= join(after, '/'));
        i = i + 1;
    }
    joined
}

proof fn lemma_listing_insert(entries: Map<Seq<char>, TreeEntry>, name: Seq<char>, e: TreeEntry)
    ensures
        listing(entries.insert(name, e)) == listing(entries).insert(name, e@),
{
    assert(listing(entries.insert(name, e)) =~= listing(entries).insert(name, e@));
}

impl TreeEditor {
    /// The tree without entries.
    pub fn empty() -> (editor: TreeEditor)
        ensures
            editor@ == EditorModel::empty(),
            editor.root.keys().len() == 0,
            editor.subtrees.keys().len() == 0,
    {
        let editor = TreeEditor { root: SortedMap::new(), subtrees: SortedMap::new() };
        assert(editor@ =~= EditorModel::empty());
        editor
    }

    /// Takes the entries of the directory at `key` out of the subtrees; they
    /// are to be put back.
    fn take_subtree(&mut self, key: &str) -> (entries: TreeEntries)
        ensures
            final(self).root == old(self).root,
            final(self).subtrees@ == old(self).subtrees@.remove(key@),
            listing(entries@) == (if old(self)@.subtrees.contains_key(key@) {
                old(self)@.subtrees[key@]
            } else {
                Map::empty()
            }),
    {
        match self.subtrees.remove(key) {
            Some(entries) => entries,
            None => {
                let entries: TreeEntries = SortedMap::new();
                assert(listing(entries@) =~= Map::empty());
                entries
            },
        }
    }

    /// Opens the last of the first `n` directories in the one before it.
    fn open_dir(&mut self, components: &Vec<String>, n: usize) -> (is_tree: bool)
        requires
            0 < n <= components@.len(),
        ensures
            (final(self)@, is_tree) == old(self)@.open_one(
                views(components@).take(n - 1),
                views(components@)[n - 1],
            ),
    {
        let ghost before = self@;
        let ghost parent = views(components@).take(n - 1);
        let name = &components[n - 1];
        if n == 1 {
            assert(parent.len() == 0);
            let found: Option<EntryKind> = match self.root.get(name.as_str()) {
                Some(entry) => Some(entry.mode),
                None => None,
            };
            match found {
                Some(mode) => {
                    assert(self@ =~= before.with_dir(parent, before.dir(parent)));
                    mode == EntryKind::Tree
                },
                None => {
                    let entry = TreeEntry {
                        mode: EntryKind::Tree,
                        filename: name.clone(),
                        oid: ObjectId::null(),
                    };
                    proof {
                        lemma_null_unique(entry.oid);
                        lemma_listing_insert(self.root@, name@, entry);
                    }
                    self.root.insert(name.clone(), entry);
                    true
                },
            }
        } else {
            let key = join_prefix(components, n - 1);
            let ghost subtrees = self.subtrees@;
            let mut entries = self.take_subtree(key.as_str());
            assert(listing(entries@) == before.dir(parent));
            let found: Option<EntryKind> = match entries.get(name.as_str()) {
                Some(entry) => Some(entry.mode),
                None => None,
            };
            if found.is_none() {
                let entry = TreeEntry {
                    mode: EntryKind::Tree,
                    filename: name.clone(),
                    oid: ObjectId::null(),
                };
                proof {
                    lemma_null_unique(entry.oid);
                    lemma_listing_insert(entries@, name@, entry);
                }
                entries.insert(name.clone(), entry);
            }
            let ghost put = entries;
            self.subtrees.insert(key, entries);
            assert(self@.subtrees =~= before.subtrees.insert(key@, listing(put@)));
            match found {
                Some(mode) => mode == EntryKind::Tree,
                None => true,
            }
        }
    }

    /// Puts an entry at `path`.
    fn put(&mut self, path: &str, mode: EntryKind, oid: ObjectId) -> (result: Result<(), GitError>)
        ensures
            (final(self)@, answer(result)) == old(self)@.put(path@, mode, oid),
    {
        let mut components = match split_path(path) {
            Ok(c) => c,
            Err(e) => {
                return Err(e);
            },
        };
        let ghost all = views(components@);
        let ghost dirs = all.drop_last();
        let count: usize = components.len() - 1;
        let mut depth: usize = 0;
        while depth < count
            invariant
                depth <= count == components@.len() - 1,
                all == views(components@),
                dirs == all.drop_last(),
                all == split(path@, '/'),
                path_error(path@) is None,
                (self@, None::<Seq<char>>) == old(self)@.opened(dirs, depth as nat),
            decreases count - depth,
        {
            let ghost before = self@;
            assert(all.take(depth as int) =~= dirs.take(depth as int));
            let is_tree = self.open_dir(&components, depth + 1);
            if !is_tree {
                let name = components[depth].clone();
                proof {
                    lemma_opened_stops(old(self)@, dirs, depth as nat + 1, dirs.len());
                }
                return Err(
                    GitError::Other(cat3("path component '", name.as_str(), "' is not a tree")),
                );
            }
            depth = depth + 1;
        }
        let ghost open = self@;
        let key = join_prefix(&components, count);
        assert(all.take(count as int) =~= dirs);
        let name = components.pop().unwrap();
        assert(name@ == all.last());
        let leaf = TreeEntry { mode, filename: name.clone(), oid };
        let ghost node = leaf@;
        if count == 0 {
            proof {
                lemma_listing_insert(self.root@, name@, leaf);
            }
            self.root.insert(name, leaf);
        } else {
            let mut entries = self.take_subtree(key.as_str());
            proof {
                lemma_listing_insert(entries@, name@, leaf);
            }
            entries.insert(name, leaf);
            let ghost put = entries;
            self.subtrees.insert(key, entries);
            assert(self@.subtrees =~= open.subtrees.insert(key@, listing(put@)));
        }
        Ok(())
    }

    /// Puts a blob at `path`. Directories on the way are created where they are
    /// missing; a component on the way that is not a directory is an error, and
    /// the directories before it stay created.
    pub fn upsert(&mut self, path: &str, oid: ObjectId) -> (result: Result<(), GitError>)
        ensures
            (final(self)@, answer(result)) == old(self)@.upserted(path@, oid),
    {
        self.put(path, EntryKind::Blob, oid)
    }

    /// Makes the directory at `path` the stored tree `oid`. What the editor held
    /// in that directory is forgotten; the way to it is opened as by `upsert`.
    pub fn upsert_subtree(&mut self, path: &str, oid: ObjectId) -> (result: Result<(), GitError>)
        ensures
            (final(self)@, answer(result)) == old(self)@.spliced(path@, oid),
    {
        let result = self.put(path, EntryKind::Tree, oid);
        if result.is_ok() {
            let ghost before = self.subtrees@;
            self.subtrees.remove_beneath(path);
            let ghost gone = Set::new(|key: Seq<char>| is_beneath(key, path@));
            assert(before.remove_keys(gone).map_values(
                |entries: TreeEntries| listing(entries@),
            ) =~= before.map_values(|entries: TreeEntries| listing(entries@)).remove_keys(gone));
        }
        result
    }

    /// Removes the entry at `path`, if there is one.
    pub fn remove(&mut self, path: &str) -> (result: Result<(), GitError>)
        ensures
            (final(self)@, answer(result)) == old(self)@.removed(path@),
    {
        let mut components = match split_path(path) {
            Ok(c) => c,
            Err(e) => {
                return Err(e);
            },
        };
        let ghost before = self@;
        let ghost all = views(components@);
        let count: usize = components.len() - 1;
        let key = join_prefix(&components, count);
        assert(all.take(count as int) =~= all.drop_last());
        let name = components.pop().unwrap();
        assert(name@ == all.last());
        if count == 0 {
            let ghost root = self.root@;
            let _ = self.root.remove(name.as_str());
            assert(listing(root.remove(name@)) =~= listing(root).remove(name@));
        } else {
            match self.subtrees.remove(key.as_str()) {
                Some(taken) => {
                    let mut entries = taken;
                    let ghost old_entries = entries@;
                    let _ = entries.remove(name.as_str());
                    assert(listing(old_entries.remove(name@)) =~= listing(old_entries).remove(
                        name@,
                    ));
                    let ghost put = entries;
                    self.subtrees.insert(key, entries);
                    assert(self@.subtrees =~= before.subtrees.insert(key@, listing(put@)));
                },
                None => {
                    assert(self@ =~= before);
                },
            }
        }
        Ok(())
    }
}

/// Once a component is not a directory, nothing after it is opened.
proof fn lemma_opened_stops(m: EditorModel, dirs: Seq<Seq<char>>, at: nat, n: nat)
    requires
        at <= n,
        m.opened(dirs, at).1 is Some,
    ensures
        m.opened(dirs, n) == m.opened(dirs, at),
    decreases n,
{
    if at < n {
        lemma_opened_stops(m, dirs, at, (n - 1) as nat);
    }
}

// ---- Laws ------------------------------------------------------------------

/// `dir` is one of the directories on the way to `path`.
pub open spec fn on_the_way(dir: Seq<char>, path: Seq<char>) -> bool {
    exists|n: int|
        0 < n < split(path, '/').len() && dir == join(#[trigger] split(path, '/').take(n), '/')
}

proof fn lemma_dir_of_with_dir(
    m: EditorModel,
    dir: Seq<Seq<char>>,
    entries: Listing,
    other: Seq<Seq<char>>,
)
    requires
        free_of(dir, '/'),
        free_of(other, '/'),
    ensures
        m.with_dir(dir, entries).dir(other) == (if other == dir {
            entries
        } else {
            m.dir(other)
        }),
{
    if dir.len() == 0 && other.len() == 0 {
        assert(dir =~= other);
    }
    if dir.len() > 0 && other.len() > 0 && join(dir, '/') == join(other, '/') {
        lemma_split_join(dir, '/');
        lemma_split_join(other, '/');
    }
}

proof fn lemma_opened(
    m: EditorModel,
    dirs: Seq<Seq<char>>,
    n: nat,
    dir: Seq<Seq<char>>,
    name: Seq<char>,
)
    requires
        free_of(dirs, '/'),
        free_of(dir, '/'),
        n <= dirs.len(),
        m.opened(dirs, n).1 is None,
    ensures
        (exists|i: int| 0 <= i < n && dir == #[trigger] dirs.take(i) && name == dirs[i]) ==> {
            &&& m.opened(dirs, n).0.at(dir, name) matches Some(node)
            &&& node.mode == EntryKind::Tree
            &&& m.at(dir, name) is Some ==> m.at(dir, name) == Some(node)
        },
        !(exists|i: int| 0 <= i < n && dir == #[trigger] dirs.take(i) && name == dirs[i])
            ==> m.opened(dirs, n).0.at(dir, name) == m.at(dir, name),
    decreases n,
{
    if n > 0 {
        let k = (n - 1) as nat;
        lemma_opened(m, dirs, k, dir, name);
        let before = m.opened(dirs, k).0;
        let parent = dirs.take(n - 1);
        assert(free_of(parent, '/')) by {
            assert forall|i: int| 0 <= i < parent.len() implies !(#[trigger] parent[i]).contains(
                '/',
            ) by {
                assert(parent[i] == dirs[i]);
            }
        }
        lemma_dir_of_with_dir(
            before,
            parent,
            before.dir(parent).insert(dirs[n - 1], new_directory(dirs[n - 1])),
            dir,
        );
        lemma_dir_of_with_dir(before, parent, before.dir(parent), dir);
        if dir == parent && name == dirs[n - 1] {
            assert(dir == dirs.take(n - 1));
            if exists|i: int| 0 <= i < k && dir == #[trigger] dirs.take(i) && name == dirs[i] {
                let i = choose|i: int|
                    0 <= i < k && dir == #[trigger] dirs.take(i) && name == dirs[i];
                assert(dirs.take(i).len() == dirs.take(n - 1).len());
            }
        } else {
            assert((exists|i: int|
                0 <= i < n && dir == #[trigger] dirs.take(i) && name == dirs[i]) ==> (exists|i: int|
                0 <= i < k && dir == #[trigger] dirs.take(i) && name == dirs[i])) by {
                if exists|i: int| 0 <= i < n && dir == #[trigger] dirs.take(i) && name == dirs[i] {
                    let i = choose|i: int|
                        0 <= i < n && dir == #[trigger] dirs.take(i) && name == dirs[i];
                    assert(i < k);
                }
            }
        }
    }
}

/// The directory of an entry lies beneath `dir` if and only if the entry does and
/// is not `dir` itself.
proof fn lemma_parent_beneath(path: Seq<char>, dir: Seq<char>)
    ensures
        split(path, '/').len() > 1 ==> (is_beneath(join(split(path, '/').drop_last(), '/'), dir)
            <==> path != dir && is_beneath(path, dir)),
        split(path, '/').len() <= 1 ==> path == dir || !is_beneath(path, dir),
{
    lemma_split_len(path, '/');
    lemma_split_free(path, '/');
    lemma_join_split(path, '/');
    let components = split(path, '/');
    let last = components.last();
    if components.len() > 1 {
        let parent = join(components.drop_last(), '/');
        assert(path == parent.push('/') + last);
        if begins(parent, dir.push('/')) {
            assert(path.subrange(0, 1 + dir.len() as int) =~= parent.subrange(0, 1 + dir.len() as int));
        }
        if parent == dir {
            assert(path.subrange(0, 1 + dir.len() as int) =~= dir.push('/'));
        }
        if begins(path, dir.push('/')) {
            assert(path.subrange(0, 1 + dir.len() as int)[dir.len() as int] == '/');
            assert(path[dir.len() as int] == '/');
            if dir.len() > parent.len() {
                let k = dir.len() - parent.len() - 1;
                assert(last[k] == '/');
                assert(last.contains('/'));
            } else if dir.len() == parent.len() {
                assert(parent =~= path.subrange(0, 1 + dir.len() as int).drop_last());
                assert(dir.push('/').drop_last() =~= dir);
            } else {
                assert(parent.subrange(0, 1 + dir.len() as int) =~= path.subrange(0, 1 + dir.len() as int));
            }
        }
        assert(!begins(dir, dir.push('/')));
        if path == dir && is_beneath(parent, dir) {
            assert(parent.len() < path.len());
        }
    } else {
        assert(path == components[0]);
        if begins(path, dir.push('/')) {
            assert(path.subrange(0, 1 + dir.len() as int)[dir.len() as int] == '/');
            assert(path[dir.len() as int] == '/');
            assert(path.contains('/'));
        }
    }
}

/// A directory on the way to a path does not lie beneath it.
proof fn lemma_way_not_beneath(dir: Seq<char>, path: Seq<char>)
    requires
        on_the_way(dir, path),
    ensures
        dir.len() < path.len(),
        !is_beneath(dir, path),
{
    let n = choose|n: int|
        0 < n < split(path, '/').len() && dir == join(#[trigger] split(path, '/').take(n), '/');
    lemma_join_split(path, '/');
    lemma_join_prefix_shorter(split(path, '/'), n);
}

proof fn lemma_join_prefix_shorter(pieces: Seq<Seq<char>>, n: int)
    requires
        0 < n < pieces.len(),
    ensures
        join(pieces.take(n), '/').len() < join(pieces, '/').len(),
    decreases pieces.len() - n,
{
    let next = pieces.take(n + 1);
    assert(next.drop_last() =~= pieces.take(n));
    assert(join(next, '/').len() > join(pieces.take(n), '/').len());
    if n + 1 < pieces.len() {
        lemma_join_prefix_shorter(pieces, n + 1);
    } else {
        assert(next =~= pieces);
    }
}

proof fn lemma_put(
    m: EditorModel,
    path: Seq<char>,
    mode: EntryKind,
    oid: ObjectId,
    other: Seq<char>,
)
    requires
        m.put(path, mode, oid).1 is Ok,
    ensures
        ({
            let after = m.put(path, mode, oid).0;
            &&& after.entry(path) == Some(
                Node { mode, filename: split(path, '/').last(), oid },
            )
            &&& on_the_way(other, path) ==> {
                &&& after.entry(other) matches Some(node)
                &&& node.mode == EntryKind::Tree
                &&& m.entry(other) is Some ==> m.entry(other) == Some(node)
            }
            &&& other != path && !on_the_way(other, path) ==> after.entry(other) == m.entry(other)
        }),
{
    let components = split(path, '/');
    let dirs = components.drop_last();
    let name = components.last();
    let theirs = split(other, '/');
    lemma_split_len(path, '/');
    lemma_split_len(other, '/');
    lemma_split_free(path, '/');
    lemma_split_free(other, '/');
    lemma_join_split(path, '/');
    lemma_join_split(other, '/');
    assert(free_of(dirs, '/')) by {
        assert forall|i: int| 0 <= i < dirs.len() implies !(#[trigger] dirs[i]).contains('/') by {
            assert(dirs[i] == components[i]);
        }
    }
    let there = theirs.drop_last();
    assert(free_of(there, '/')) by {
        assert forall|i: int| 0 <= i < there.len() implies !(#[trigger] there[i]).contains('/') by {
            assert(there[i] == theirs[i]);
        }
    }
    let open = m.opened(dirs, dirs.len()).0;
    let leaf = Node { mode, filename: name, oid };
    lemma_dir_of_with_dir(open, dirs, open.dir(dirs).insert(name, leaf), dirs);
    lemma_dir_of_with_dir(open, dirs, open.dir(dirs).insert(name, leaf), there);
    lemma_opened(m, dirs, dirs.len(), there, theirs.last());
    if on_the_way(other, path) {
        let n = choose|n: int|
            0 < n < components.len() && other == join(#[trigger] components.take(n), '/');
        let prefix = components.take(n);
        assert(free_of(prefix, '/')) by {
            assert forall|i: int| 0 <= i < prefix.len() implies !(#[trigger] prefix[i]).contains(
                '/',
            ) by {
                assert(prefix[i] == components[i]);
            }
        }
        lemma_split_join(prefix, '/');
        assert(there =~= dirs.take(n - 1));
        assert(theirs.last() == dirs[n - 1]);
        assert(there.len() < dirs.len());
    } else if other != path {
        if exists|i: int|
            0 <= i < dirs.len() && there == #[trigger] dirs.take(i) && theirs.last() == dirs[i] {
            let i = choose|i: int|
                0 <= i < dirs.len() && there == #[trigger] dirs.take(i) && theirs.last() == dirs[i];
            assert(theirs =~= there.push(theirs.last()));
            assert(components.take(i + 1) =~= theirs);
            assert(on_the_way(other, path));
        }
        if there == dirs && theirs.last() == name {
            assert(theirs =~= there.push(theirs.last()));
            assert(components =~= dirs.push(name));
        }
    }
}

/// After a blob has been put at a path it stands there; every directory on the
/// way is one, and one that was there is unchanged; the entry at any other path
/// is unchanged.
pub proof fn law_upsert(m: EditorModel, path: Seq<char>, oid: ObjectId, other: Seq<char>)
    requires
        m.upserted(path, oid).1 is Ok,
    ensures
        ({
            let after = m.upserted(path, oid).0;
            &&& after.entry(path) == Some(
                Node { mode: EntryKind::Blob, filename: split(path, '/').last(), oid },
            )
            &&& on_the_way(other, path) ==> {
                &&& after.entry(other) matches Some(node)
                &&& node.mode == EntryKind::Tree
                &&& m.entry(other) is Some ==> m.entry(other) == Some(node)
            }
            &&& other != path && !on_the_way(other, path) ==> after.entry(other) == m.entry(other)
        }),
{
    lemma_put(m, path, EntryKind::Blob, oid, other);
}

/// After a stored tree has been put at a path it stands there, with nothing of
/// what the editor held beneath it; the entry at any path that is neither there,
/// nor beneath, nor on the way is unchanged.
pub proof fn law_upsert_subtree(m: EditorModel, path: Seq<char>, oid: ObjectId, other: Seq<char>)
    requires
        m.spliced(path, oid).1 is Ok,
    ensures
        ({
            let after = m.spliced(path, oid).0;
            &&& after.entry(path) == Some(
                Node { mode: EntryKind::Tree, filename: split(path, '/').last(), oid },
            )
            &&& other != path && is_beneath(other, path) ==> after.entry(other) is None
            &&& on_the_way(other, path) ==> {
                &&& after.entry(other) matches Some(node)
                &&& node.mode == EntryKind::Tree
                &&& m.entry(other) is Some ==> m.entry(other) == Some(node)
            }
            &&& !is_beneath(other, path) && !on_the_way(other, path) ==> after.entry(other)
                == m.entry(other)
        }),
{
    lemma_put(m, path, EntryKind::Tree, oid, other);
    lemma_parent_beneath(path, path);
    lemma_parent_beneath(other, path);
    assert(on_the_way(other, path) ==> !is_beneath(other, path)) by {
        if on_the_way(other, path) {
            lemma_way_not_beneath(other, path);
        }
    }
    lemma_split_len(path, '/');
    lemma_split_len(other, '/');
    let put = m.put(path, EntryKind::Tree, oid).0;
    let after = m.spliced(path, oid).0;
    let here = split(path, '/').drop_last();
    let there = split(other, '/').drop_last();
    assert(after.dir(here) == put.dir(here));
    assert(after.dir(there) == (if there.len() > 0 && is_beneath(join(there, '/'), path) {
        Map::empty()
    } else {
        put.dir(there)
    }));
}

/// After an entry has been removed nothing stands at its path, and the entry at
/// any other path is unchanged.
pub proof fn law_remove(m: EditorModel, path: Seq<char>, other: Seq<char>)
    requires
        m.removed(path).1 is Ok,
    ensures
        m.removed(path).0.entry(path) is None,
        other != path ==> m.removed(path).0.entry(other) == m.entry(other),
{
    let components = split(path, '/');
    let dirs = components.drop_last();
    let theirs = split(other, '/');
    let there = theirs.drop_last();
    lemma_split_len(path, '/');
    lemma_split_len(other, '/');
    lemma_split_free(path, '/');
    lemma_split_free(other, '/');
    lemma_join_split(path, '/');
    lemma_join_split(other, '/');
    assert(free_of(dirs, '/')) by {
        assert forall|i: int| 0 <= i < dirs.len() implies !(#[trigger] dirs[i]).contains('/') by {
            assert(dirs[i] == components[i]);
        }
    }
    assert(free_of(there, '/')) by {
        assert forall|i: int| 0 <= i < there.len() implies !(#[trigger] there[i]).contains('/') by {
            assert(there[i] == theirs[i]);
        }
    }
    lemma_dir_of_with_dir(m, dirs, m.dir(dirs).remove(components.last()), dirs);
    lemma_dir_of_with_dir(m, dirs, m.dir(dirs).remove(components.last()), there);
    assert(theirs =~= there.push(theirs.last()));
    assert(components =~= dirs.push(components.last()));
}

/// Removing what is not there changes no entry.
pub proof fn law_remove_absent(m: EditorModel, path: Seq<char>, other: Seq<char>)
    requires
        m.removed(path).1 is Ok,
        m.entry(path) is None,
    ensures
        m.removed(path).0.entry(other) == m.entry(other),
{
    law_remove(m, path, other);
}

/// A blob that has been put in place is taken out again by a removal: nothing
/// stands at its path then, and every entry that was not on the way is as it was.
pub proof fn law_remove_undoes_upsert(
    m: EditorModel,
    path: Seq<char>,
    oid: ObjectId,
    other: Seq<char>,
)
    requires
        m.upserted(path, oid).1 is Ok,
        m.entry(path) is None,
    ensures
        m.upserted(path, oid).0.removed(path).1 is Ok,
        m.upserted(path, oid).0.removed(path).0.entry(path) == m.entry(path),
        !on_the_way(other, path) ==> m.upserted(path, oid).0.removed(path).0.entry(other)
            == m.entry(other),
{
    law_upsert(m, path, oid, other);
    law_remove(m.upserted(path, oid).0, path, other);
}

// ---- Laws of a refused upsert ----------------------------------------------

/// Something that is no directory stands at the path.
pub open spec fn blocks(m: EditorModel, path: Seq<char>) -> bool {
    m.entry(path) is Some && m.entry(path)->0.mode != EntryKind::Tree
}

/// What holds of all pieces holds of the first ones.
pub proof fn lemma_free_prefix(pieces: Seq<Seq<char>>, n: int)
    requires
        0 <= n <= pieces.len(),
        free_of(pieces, '/'),
    ensures
        free_of(pieces.take(n), '/'),
{
    let front = pieces.take(n);
    assert forall|i: int| 0 <= i < front.len() implies !(#[trigger] front[i]).contains('/') by {
        assert(front[i] == pieces[i]);
    }
}

/// The directory at depth `i` on the way to a path, and its entry.
/// The entry at a directory on the way is the one at its name in the directory above.
pub proof fn lemma_way_entry(m: EditorModel, path: Seq<char>, i: int)
    requires
        0 <= i < split(path, '/').len() - 1,
    ensures
        ({
            let components = split(path, '/');
            let dir = join(components.take(i + 1), '/');
            &&& on_the_way(dir, path)
            &&& split(dir, '/') == components.take(i + 1)
            &&& m.entry(dir) == m.at(components.take(i), components[i])
        }),
{
    let components = split(path, '/');
    let front = components.take(i + 1);
    lemma_split_free(path, '/');
    lemma_free_prefix(components, i + 1);
    lemma_split_join(front, '/');
    assert(front.drop_last() =~= components.take(i));
    assert(front.last() == components[i]);
}

proof fn lemma_opened_sees(m: EditorModel, dirs: Seq<Seq<char>>, n: nat)
    requires
        free_of(dirs, '/'),
        n < dirs.len(),
        m.opened(dirs, n).1 is None,
    ensures
        m.opened(dirs, n).0.at(dirs.take(n as int), dirs[n as int]) == m.at(
            dirs.take(n as int),
            dirs[n as int],
        ),
{
    lemma_free_prefix(dirs, n as int);
    lemma_opened(m, dirs, n, dirs.take(n as int), dirs[n as int]);
    if exists|i: int|
        0 <= i < n && dirs.take(n as int) == #[trigger] dirs.take(i) && dirs[n as int] == dirs[i] {
        let i = choose|i: int|
            0 <= i < n && dirs.take(n as int) == #[trigger] dirs.take(i) && dirs[n as int]
                == dirs[i];
        assert(dirs.take(i).len() == i);
        assert(dirs.take(n as int).len() == n);
    }
}

/// Opening stops if and only if something on the way is no directory.
pub proof fn lemma_opening_stops(m: EditorModel, dirs: Seq<Seq<char>>, n: nat)
    requires
        free_of(dirs, '/'),
        n <= dirs.len(),
    ensures
        m.opened(dirs, n).1 is Some <==> exists|i: int|
            0 <= i < n && (#[trigger] m.at(dirs.take(i), dirs[i])) is Some && m.at(
                dirs.take(i),
                dirs[i],
            )->0.mode != EntryKind::Tree,
    decreases n,
{
    if n > 0 {
        let k = (n - 1) as nat;
        lemma_opening_stops(m, dirs, k);
        if m.opened(dirs, k).1 is None {
            lemma_opened_sees(m, dirs, k);
            assert(m.opened(dirs, n).1 is Some <==> m.at(dirs.take(k as int), dirs[k as int]) is Some
                && m.at(dirs.take(k as int), dirs[k as int])->0.mode != EntryKind::Tree);
        }
    }
}

/// Opening directories that are there changes nothing.
proof fn lemma_opening_keeps(m: EditorModel, dirs: Seq<Seq<char>>, n: nat)
    requires
        n <= dirs.len(),
        forall|i: int|
            0 <= i < n ==> (#[trigger] m.at(dirs.take(i), dirs[i])) is Some && (i < n - 1 ==> m.at(
                dirs.take(i),
                dirs[i],
            )->0.mode == EntryKind::Tree),
    ensures
        m.opened(dirs, n).0 == m,
        n > 0 && m.at(dirs.take(n - 1), dirs[n - 1])->0.mode != EntryKind::Tree ==> m.opened(
            dirs,
            n,
        ).1 is Some,
        n > 0 && m.at(dirs.take(n - 1), dirs[n - 1])->0.mode == EntryKind::Tree ==> m.opened(
            dirs,
            n,
        ).1 is None,
        n == 0 ==> m.opened(dirs, n).1 is None,
    decreases n,
{
    if n > 0 {
        let k = (n - 1) as nat;
        assert forall|i: int| 0 <= i < k implies (#[trigger] m.at(dirs.take(i), dirs[i])) is Some
            && (i < k - 1 ==> m.at(dirs.take(i), dirs[i])->0.mode == EntryKind::Tree) by {
            assert(m.at(dirs.take(i), dirs[i]) is Some);
        }
        lemma_opening_keeps(m, dirs, k);
        if k > 0 {
            assert(m.at(dirs.take(k - 1), dirs[k - 1]) is Some);
        }
        let parent = dirs.take(n - 1);
        assert(m.at(parent, dirs[n - 1]) is Some);
        assert(m.with_dir(parent, m.dir(parent)) =~= m);
    }
}

/// An upsert is refused if and only if the path is no proper one, or something on
/// the way to it is no directory. The refusal is a message.
pub proof fn law_upsert_refused(m: EditorModel, path: Seq<char>, oid: ObjectId)
    ensures
        m.upserted(path, oid).1 is Err <==> path_error(path) is Some || exists|dir: Seq<char>|
            #[trigger] on_the_way(dir, path) && blocks(m, dir),
        m.upserted(path, oid).1 matches Err(e) ==> e is Other,
{
    let components = split(path, '/');
    let dirs = components.drop_last();
    lemma_split_len(path, '/');
    lemma_split_free(path, '/');
    assert(dirs =~= components.take(components.len() - 1));
    lemma_free_prefix(components, components.len() - 1);
    lemma_opening_stops(m, dirs, dirs.len());
    if m.opened(dirs, dirs.len()).1 is Some {
        let i = choose|i: int|
            0 <= i < dirs.len() && (#[trigger] m.at(dirs.take(i), dirs[i])) is Some && m.at(
                dirs.take(i),
                dirs[i],
            )->0.mode != EntryKind::Tree;
        lemma_way_entry(m, path, i);
        assert(dirs.take(i) =~= components.take(i));
        assert(blocks(m, join(components.take(i + 1), '/')));
    }
    if exists|dir: Seq<char>| #[trigger] on_the_way(dir, path) && blocks(m, dir) {
        let dir = choose|dir: Seq<char>| #[trigger] on_the_way(dir, path) && blocks(m, dir);
        let n = choose|n: int|
            0 < n < components.len() && dir == join(#[trigger] components.take(n), '/');
        lemma_way_entry(m, path, n - 1);
        assert(dirs.take(n - 1) =~= components.take(n - 1));
        assert(m.at(dirs.take(n - 1), dirs[n - 1]) is Some);
    }
}

/// The editor after these upserts, beginning with the empty tree.
pub open spec fn built(calls: Seq<(Seq<char>, ObjectId)>) -> EditorModel
    decreases calls.len(),
{
    if calls.len() == 0 {
        EditorModel::empty()
    } else {
        built(calls.drop_last()).upserted(calls.last().0, calls.last().1).0
    }
}

/// Where an entry stands, one stands at every directory on the way.
spec fn ways_exist(m: EditorModel) -> bool {
    forall|path: Seq<char>, dir: Seq<char>|
        (#[trigger] m.entry(path)) is Some && #[trigger] on_the_way(dir, path) ==> m.entry(
            dir,
        ) is Some
}

proof fn lemma_refused(m: EditorModel, path: Seq<char>, oid: ObjectId)
    requires
        ways_exist(m),
        m.upserted(path, oid).1 is Err,
    ensures
        m.upserted(path, oid).0 == m,
{
    let components = split(path, '/');
    let dirs = components.drop_last();
    lemma_split_len(path, '/');
    lemma_split_free(path, '/');
    assert(dirs =~= components.take(components.len() - 1));
    lemma_free_prefix(components, components.len() - 1);
    lemma_opening_stops(m, dirs, dirs.len());
    if path_error(path) is None {
        let d = lemma_first_block(m, dirs, dirs.len());
        lemma_way_entry(m, path, d);
        let end = join(components.take(d + 1), '/');
        assert(dirs.take(d) =~= components.take(d));
        assert(m.entry(end) is Some);
        assert forall|i: int| 0 <= i < d + 1 implies (#[trigger] m.at(
            dirs.take(i),
            dirs[i],
        )) is Some && (i < d ==> m.at(dirs.take(i), dirs[i])->0.mode == EntryKind::Tree) by {
            if i < d {
                lemma_way_entry(m, end, i);
                lemma_way_entry(m, path, i);
                assert(components.take(d + 1).take(i + 1) =~= components.take(i + 1));
                assert(dirs.take(i) =~= components.take(i));
                let dir = join(components.take(i + 1), '/');
                assert(on_the_way(dir, end));
                assert(m.entry(dir) is Some);
            }
        }
        lemma_opening_keeps(m, dirs, (d + 1) as nat);
        lemma_opened_stops(m, dirs, (d + 1) as nat, dirs.len());
    }
}

/// The first thing on the way that is no directory.
proof fn lemma_first_block(m: EditorModel, dirs: Seq<Seq<char>>, n: nat) -> (at: int)
    requires
        n <= dirs.len(),
        exists|i: int|
            0 <= i < n && (#[trigger] m.at(dirs.take(i), dirs[i])) is Some && m.at(
                dirs.take(i),
                dirs[i],
            )->0.mode != EntryKind::Tree,
    ensures
        0 <= at < n,
        m.at(dirs.take(at), dirs[at]) is Some,
        m.at(dirs.take(at), dirs[at])->0.mode != EntryKind::Tree,
        forall|i: int|
            0 <= i < at ==> !((#[trigger] m.at(dirs.take(i), dirs[i])) is Some && m.at(
                dirs.take(i),
                dirs[i],
            )->0.mode != EntryKind::Tree),
    decreases n,
{
    let k = (n - 1) as nat;
    if exists|i: int|
        0 <= i < k && (#[trigger] m.at(dirs.take(i), dirs[i])) is Some && m.at(
            dirs.take(i),
            dirs[i],
        )->0.mode != EntryKind::Tree {
        lemma_first_block(m, dirs, k)
    } else {
        k as int
    }
}

proof fn lemma_way_of_way(a: Seq<char>, b: Seq<char>, c: Seq<char>)
    requires
        on_the_way(a, b),
        on_the_way(b, c),
    ensures
        on_the_way(a, c),
{
    let theirs = split(c, '/');
    let n = choose|n: int| 0 < n < theirs.len() && b == join(#[trigger] theirs.take(n), '/');
    lemma_way_entry(EditorModel::empty(), c, n - 1);
    let i = choose|i: int|
        0 < i < split(b, '/').len() && a == join(#[trigger] split(b, '/').take(i), '/');
    assert(theirs.take(n).take(i) =~= theirs.take(i));
}

proof fn lemma_ways_exist(calls: Seq<(Seq<char>, ObjectId)>)
    ensures
        ways_exist(built(calls)),
    decreases calls.len(),
{
    let after = built(calls);
    if calls.len() > 0 {
        let m = built(calls.drop_last());
        let put = calls.last().0;
        let oid = calls.last().1;
        lemma_ways_exist(calls.drop_last());
        if m.upserted(put, oid).1 is Err {
            lemma_refused(m, put, oid);
        } else {
            assert forall|path: Seq<char>, dir: Seq<char>|
                (#[trigger] after.entry(path)) is Some && #[trigger] on_the_way(
                    dir,
                    path,
                ) implies after.entry(dir) is Some by {
                law_upsert(m, put, oid, path);
                law_upsert(m, put, oid, dir);
                if path != put && on_the_way(path, put) {
                    lemma_way_of_way(dir, path, put);
                }
            }
        }
    } else {
        assert forall|path: Seq<char>| (#[trigger] after.entry(path)) is None by {}
    }
}

/// An upsert that is refused on an editor that was built by upserts alone leaves
/// it exactly as it was.
pub proof fn law_refused_upsert_changes_nothing(
    calls: Seq<(Seq<char>, ObjectId)>,
    path: Seq<char>,
    oid: ObjectId,
)
    requires
        built(calls).upserted(path, oid).1 is Err,
    ensures
        built(calls).upserted(path, oid).0 == built(calls),
{
    lemma_ways_exist(calls);
    lemma_refused(built(calls), path, oid);
}

} // verus!
