//! The index of a commit: what is remembered of each of its files, so that the
//! next commit need not read a file that has not changed. An index names the
//! commit that it describes; one that describes another commit, or cannot be
//! read, counts as absent.

use crate::error::{hex_error_message, hex_error_text};
use crate::oid::{hex, law_hex_round_trip, lemma_same_bytes, read_hex, ObjectId};
use crate::order::{
    law_order_of_a_set, lemma_text_irreflexive, lemma_text_transitive, sorted_texts, text_lt,
};
use crate::sorted::SortedMap;
use crate::text::{cat2, cat4};
use crate::types::IndexEntry;
use vstd::prelude::*;
use vstd::utf8::encode_utf8;

verus! {

/// What is remembered of the files of the commit `parent_oid`, by path.
#[derive(Debug, Clone, PartialEq, Eq)]
pub struct CommitIndex {
    pub parent_oid: ObjectId,
    pub entries: SortedMap<IndexEntry>,
}

/// Why an index could not be loaded or saved.
#[derive(Debug, Clone, PartialEq, Eq)]
pub enum IndexStoreError {
    Io(String),
    /// What is stored cannot be read.
    Decode(String),
    /// The name of the branch is not that of a ref.
    InvalidBranch(String),
    Backend(String),
}

pub enum IndexStoreErrorView {
    Io(Seq<char>),
    Decode(Seq<char>),
    InvalidBranch(Seq<char>),
    Backend(Seq<char>),
}

impl View for IndexStoreError {
    type V = IndexStoreErrorView;

    open spec fn view(&self) -> IndexStoreErrorView {
        match self {
            IndexStoreError::Io(t) => IndexStoreErrorView::Io(t@),
            IndexStoreError::Decode(t) => IndexStoreErrorView::Decode(t@),
            IndexStoreError::InvalidBranch(t) => IndexStoreErrorView::InvalidBranch(t@),
            IndexStoreError::Backend(t) => IndexStoreErrorView::Backend(t@),
        }
    }
}

impl IndexStoreErrorView {
    /// The message of the error.
    pub open spec fn message(self) -> Seq<char> {
        match self {
            IndexStoreErrorView::Io(t) => "i/o error: "@ + t,
            IndexStoreErrorView::Decode(t) => "decode error: "@ + t,
            IndexStoreErrorView::InvalidBranch(t) => "invalid branch name: "@ + t,
            IndexStoreErrorView::Backend(t) => "backend error: "@ + t,
        }
    }
}

impl IndexStoreError {
    /// The message of the error.
    pub fn message(&self) -> (text: String)
        ensures
            text@ == self@.message(),
    {
        match self {
            IndexStoreError::Io(t) => cat2("i/o error: ", t.as_str()),
            IndexStoreError::Decode(t) => cat2("decode error: ", t.as_str()),
            IndexStoreError::InvalidBranch(t) => cat2("invalid branch name: ", t.as_str()),
            IndexStoreError::Backend(t) => cat2("backend error: ", t.as_str()),
        }
    }
}

// ---- Stored form -----------------------------------------------------------

/// The version of the stored form. A reader treats another version as absent.
pub const INDEX_FORMAT_VERSION: u32 = 1;

/// The stored form of an index. Identifiers are written in hexadecimal.
#[derive(Debug, Clone, PartialEq, Eq)]
pub struct WireIndex {
    pub version: u32,
    pub parent_oid: String,
    pub entries: Vec<WireEntry>,
}

/// The stored form of what is remembered of a file.
#[derive(Debug, Clone, PartialEq, Eq)]
pub struct WireEntry {
    pub path: String,
    pub size: u64,
    pub mtime_ns: i128,
    pub oid: String,
}

#[verifier::ext_equal]
pub struct WireEntryView {
    pub path: Seq<char>,
    pub size: u64,
    pub mtime_ns: i128,
    pub oid: Seq<char>,
}

impl View for WireEntry {
    type V = WireEntryView;

    open spec fn view(&self) -> WireEntryView {
        WireEntryView {
            path: self.path@,
            size: self.size,
            mtime_ns: self.mtime_ns,
            oid: self.oid@,
        }
    }
}

/// The entries of a stored index.
pub open spec fn wire_entries(list: Seq<WireEntry>) -> Seq<WireEntryView> {
    list.map_values(|e: WireEntry| e@)
}

/// The stored form of what is remembered of a file.
pub open spec fn wire_of(path: Seq<char>, entry: IndexEntry) -> WireEntryView {
    WireEntryView { path, size: entry.size, mtime_ns: entry.mtime_ns, oid: hex(entry.oid.bytes@) }
}

/// `wire` is the stored form of `index`: every path of the index once, in the
/// order of paths.
pub open spec fn is_wire_of(index: CommitIndex, wire: WireIndex) -> bool {
    let entries = wire_entries(wire.entries@);
    let map = index.entries@;
    &&& wire.version == 1
    &&& wire.parent_oid@ == hex(index.parent_oid.bytes@)
    &&& forall|i: int|
        0 <= i < entries.len() ==> map.contains_key((#[trigger] entries[i]).path) && entries[i]
            == wire_of(entries[i].path, map[entries[i].path])
    &&& forall|path: Seq<char>| #[trigger]
        map.contains_key(path) ==> exists|i: int|
            0 <= i < entries.len() && (#[trigger] entries[i]).path == path
    &&& forall|i: int, j: int|
        0 <= i < j < entries.len() ==> text_lt(
            (#[trigger] entries[i]).path,
            (#[trigger] entries[j]).path,
        )
}

spec fn holds_at(
    entries: Seq<WireEntry>,
    at: int,
    path: Seq<char>,
    map: Map<Seq<char>, IndexEntry>,
) -> bool {
    map.contains_key(path) && entries[at]@ == wire_of(path, map[path])
}

/// The stored form of an index.
pub fn encode_index(index: &CommitIndex) -> (wire: WireIndex)
    ensures
        is_wire_of(*index, wire),
{
    let n: usize = index.entries.len();
    let ghost keys = index.entries.keys();
    let ghost map = index.entries@;
    let mut entries: Vec<WireEntry> = Vec::new();
    let mut i: usize = 0;
    while i < n
        invariant
            n == keys.len(),
            keys == index.entries.keys(),
            map == index.entries@,
            i <= n,
            entries@.len() == i,
            forall|j: int| 0 <= j < i ==> holds_at(entries@, j, keys[j], map),
        decreases n - i,
    {
        let ghost before = entries@;
        let (path, e) = index.entries.entry_at(i);
        entries.push(
            WireEntry {
                path: path.clone(),
                size: e.size,
                mtime_ns: e.mtime_ns,
                oid: e.oid.to_hex(),
            },
        );
        assert forall|j: int| 0 <= j < i + 1 implies holds_at(entries@, j, keys[j], map) by {
            if j < i {
                assert(holds_at(before, j, keys[j], map));
            }
        }
        i = i + 1;
    }
    let wire = WireIndex {
        version: INDEX_FORMAT_VERSION,
        parent_oid: index.parent_oid.to_hex(),
        entries,
    };
    proof {
        let list = wire_entries(wire.entries@);
        assert forall|j: int| 0 <= j < list.len() implies (#[trigger] list[j]) == wire_of(
            keys[j],
            map[keys[j]],
        ) && map.contains_key(keys[j]) by {
            assert(list[j] == wire.entries@[j]@);
            assert(holds_at(wire.entries@, j, keys[j], map));
        }
        assert forall|path: Seq<char>| #[trigger] map.contains_key(path) implies exists|j: int|
            0 <= j < list.len() && (#[trigger] list[j]).path == path by {
            assert(keys.contains(path));
            let j = choose|j: int| 0 <= j < keys.len() && keys[j] == path;
            assert(list[j].path == path);
        }
        assert forall|a: int, b: int| 0 <= a < b < list.len() implies text_lt(
            (#[trigger] list[a]).path,
            (#[trigger] list[b]).path,
        ) by {
            assert(text_lt(keys[a], keys[b]));
        }
    }
    wire
}

/// The entries of a stored index, a later one of a path in place of an earlier;
/// or the message for the first whose identifier cannot be read.
pub open spec fn read_entries(list: Seq<WireEntryView>) -> Result<
    Map<Seq<char>, IndexEntry>,
    Seq<char>,
>
    decreases list.len(),
{
    if list.len() == 0 {
        Ok(Map::empty())
    } else {
        let last = list.last();
        match (read_entries(list.drop_last()), read_hex(encode_utf8(last.oid))) {
            (Err(e), _) => Err(e),
            (Ok(_), Err(e)) => Err("entry oid "@ + last.path + ": "@ + hex_error_message(e)),
            (Ok(map), Ok(oid)) => Ok(
                map.insert(
                    last.path,
                    IndexEntry { size: last.size, mtime_ns: last.mtime_ns, oid },
                ),
            ),
        }
    }
}

/// The version is another than that of the stored form here.
pub open spec fn other_version(declared: Option<u64>) -> bool {
    declared is Some && declared->0 != 1
}

/// What a stored index says: nothing, where its version is another.
pub open spec fn read_index(wire: WireIndex) -> Result<
    Option<(ObjectId, Map<Seq<char>, IndexEntry>)>,
    Seq<char>,
> {
    if wire.version != 1 {
        Ok(None)
    } else {
        match (
            read_hex(encode_utf8(wire.parent_oid@)),
            read_entries(wire_entries(wire.entries@)),
        ) {
            (Err(e), _) => Err("parent_oid: "@ + hex_error_message(e)),
            (Ok(_), Err(e)) => Err(e),
            (Ok(oid), Ok(map)) => Ok(Some((oid, map))),
        }
    }
}

proof fn lemma_first_bad_entry(list: Seq<WireEntryView>, n: int)
    requires
        0 <= n <= list.len(),
        read_entries(list.take(n)) is Err,
    ensures
        read_entries(list) == read_entries(list.take(n)),
    decreases list.len() - n,
{
    if n < list.len() {
        assert(list.take(n + 1).drop_last() =~= list.take(n));
        lemma_first_bad_entry(list, n + 1);
    } else {
        assert(list.take(n) =~= list);
    }
}

/// The view of what was decoded.
pub open spec fn index_answer(result: Result<Option<CommitIndex>, IndexStoreError>) -> Result<
    Option<(ObjectId, Map<Seq<char>, IndexEntry>)>,
    IndexStoreErrorView,
> {
    match result {
        Ok(Some(index)) => Ok(Some((index.parent_oid, index.entries@))),
        Ok(None) => Ok(None),
        Err(e) => Err(e@),
    }
}

/// What a stored index says, given the version that it declares, where that can be
/// read by itself, and what was parsed of the whole or why it could not be parsed.
/// Another version counts as absent, whatever its layout is.
pub fn decode_index(declared: Option<u64>, parsed: Result<WireIndex, String>) -> (result: Result<
    Option<CommitIndex>,
    IndexStoreError,
>)
    ensures
        index_answer(result) == if other_version(declared) {
            Ok(None)
        } else {
            match parsed {
                Err(message) => Err(IndexStoreErrorView::Decode(message@)),
                Ok(wire) => match read_index(wire) {
                    Ok(index) => Ok(index),
                    Err(message) => Err(IndexStoreErrorView::Decode(message)),
                },
            }
        },
{
    if let Some(version) = declared {
        if version != INDEX_FORMAT_VERSION as u64 {
            return Ok(None);
        }
    }
    let wire = match parsed {
        Ok(wire) => wire,
        Err(message) => {
            return Err(IndexStoreError::Decode(message));
        },
    };
    if wire.version != INDEX_FORMAT_VERSION {
        return Ok(None);
    }
    let parent_oid = match ObjectId::from_hex(wire.parent_oid.as_str().as_bytes()) {
        Ok(oid) => oid,
        Err(e) => {
            return Err(IndexStoreError::Decode(cat2("parent_oid: ", hex_error_text(e).as_str())));
        },
    };
    let ghost list = wire_entries(wire.entries@);
    let mut entries: SortedMap<IndexEntry> = SortedMap::new();
    let mut i: usize = 0;
    assert(list.take(0) =~= Seq::<WireEntryView>::empty());
    while i < wire.entries.len()
        invariant
            list == wire_entries(wire.entries@),
            wire.version == 1,
            read_hex(encode_utf8(wire.parent_oid@)) == Ok::<_, crate::oid::HexError>(parent_oid),
            parsed == Ok::<WireIndex, String>(wire),
            !other_version(declared),
            i <= wire.entries@.len(),
            read_entries(list.take(i as int)) == Ok::<_, Seq<char>>(entries@),
        decreases wire.entries.len() - i,
    {
        let w = &wire.entries[i];
        proof {
            assert(list.take(i + 1).drop_last() =~= list.take(i as int));
            assert(list.take(i + 1).last() == w@);
        }
        let oid = match ObjectId::from_hex(w.oid.as_str().as_bytes()) {
            Ok(oid) => oid,
            Err(e) => {
                proof {
                    lemma_first_bad_entry(list, i + 1);
                }
                return Err(
                    IndexStoreError::Decode(
                        cat4("entry oid ", w.path.as_str(), ": ", hex_error_text(e).as_str()),
                    ),
                );
            },
        };
        entries.insert(
            w.path.clone(),
            IndexEntry { size: w.size, mtime_ns: w.mtime_ns, oid },
        );
        i = i + 1;
    }
    assert(list.take(i as int) =~= list);
    Ok(Some(CommitIndex { parent_oid, entries }))
}

/// The index that the next commit on a branch can use, given what was loaded and
/// the head of the branch. One that could not be loaded, or that describes
/// another commit than the head, counts as absent.
pub fn usable_index(
    loaded: Result<Option<CommitIndex>, IndexStoreError>,
    head: Option<ObjectId>,
) -> (index: Option<CommitIndex>)
    ensures
        index == match (loaded, head) {
            (Ok(Some(i)), Some(h)) => if i.parent_oid == h {
                Some(i)
            } else {
                None
            },
            _ => None,
        },
{
    match (loaded, head) {
        (Ok(Some(i)), Some(h)) => {
            proof {
                if i.parent_oid.bytes@ == h.bytes@ {
                    lemma_same_bytes(i.parent_oid, h);
                }
            }
            if i.parent_oid == h {
                Some(i)
            } else {
                None
            }
        },
        _ => None,
    }
}

// ---- Laws ------------------------------------------------------------------

proof fn lemma_entries_round_trip(list: Seq<WireEntryView>, map: Map<Seq<char>, IndexEntry>)
    requires
        forall|i: int|
            0 <= i < list.len() ==> map.contains_key((#[trigger] list[i]).path) && list[i]
                == wire_of(list[i].path, map[list[i].path]),
    ensures
        read_entries(list) matches Ok(found) && (forall|path: Seq<char>| #[trigger]
            found.contains_key(path) <==> exists|i: int|
                0 <= i < list.len() && (#[trigger] list[i]).path == path) && (forall|
            path: Seq<char>,
        |
            found.contains_key(path) ==> #[trigger] found[path] == map[path]),
    decreases list.len(),
{
    if list.len() > 0 {
        let front = list.drop_last();
        let last = list.last();
        assert forall|i: int| 0 <= i < front.len() implies map.contains_key(
            (#[trigger] front[i]).path,
        ) && front[i] == wire_of(front[i].path, map[front[i].path]) by {
            assert(front[i] == list[i]);
        }
        lemma_entries_round_trip(front, map);
        assert(last == list[list.len() - 1]);
        law_hex_round_trip(map[last.path].oid);
        let before = read_entries(front)->Ok_0;
        let found = read_entries(list)->Ok_0;
        assert forall|path: Seq<char>| #[trigger]
            found.contains_key(path) <==> exists|i: int|
                0 <= i < list.len() && (#[trigger] list[i]).path == path by {
            if before.contains_key(path) {
                let i = choose|i: int| 0 <= i < front.len() && (#[trigger] front[i]).path == path;
                assert(list[i].path == path);
            }
            if exists|i: int| 0 <= i < list.len() && (#[trigger] list[i]).path == path {
                let i = choose|i: int| 0 <= i < list.len() && (#[trigger] list[i]).path == path;
                if i < front.len() {
                    assert(front[i].path == path);
                }
            }
        }
    }
}

/// What is stored of an index is read back as the same index.
pub proof fn law_index_round_trip(index: CommitIndex, wire: WireIndex)
    requires
        is_wire_of(index, wire),
    ensures
        read_index(wire) == Ok::<Option<(ObjectId, Map<Seq<char>, IndexEntry>)>, Seq<char>>(
            Some((index.parent_oid, index.entries@)),
        ),
{
    let list = wire_entries(wire.entries@);
    lemma_entries_round_trip(list, index.entries@);
    law_hex_round_trip(index.parent_oid);
    let found = read_entries(list)->Ok_0;
    assert(found =~= index.entries@);
}

/// Indexes that hold the same are stored in the same form.
pub proof fn law_one_stored_form(a: CommitIndex, b: CommitIndex, x: WireIndex, y: WireIndex)
    requires
        a.parent_oid == b.parent_oid,
        a.entries@ == b.entries@,
        is_wire_of(a, x),
        is_wire_of(b, y),
    ensures
        x.version == y.version,
        x.parent_oid@ == y.parent_oid@,
        wire_entries(x.entries@) == wire_entries(y.entries@),
{
    let left = wire_entries(x.entries@);
    let right = wire_entries(y.entries@);
    let map = a.entries@;
    lemma_stored_paths(a, x);
    lemma_stored_paths(b, y);
    assert forall|p: Seq<char>| #[trigger] paths_of(left).contains(p) <==> paths_of(right).contains(
        p,
    ) by {
        assert(paths_of(left).contains(p) <==> map.contains_key(p));
        assert(paths_of(right).contains(p) <==> map.contains_key(p));
    }
    law_order_of_a_set(paths_of(left), paths_of(right), paths_of(left), paths_of(right));
    assert(paths_of(left).len() == left.len());
    assert(paths_of(right).len() == right.len());
    assert forall|i: int| 0 <= i < left.len() implies left[i] == right[i] by {
        assert(paths_of(left)[i] == left[i].path);
        assert(paths_of(right)[i] == right[i].path);
        assert(left[i] == wire_of(left[i].path, map[left[i].path]));
        assert(right[i] == wire_of(right[i].path, map[right[i].path]));
    }
    assert(left =~= right);
}

spec fn paths_of(list: Seq<WireEntryView>) -> Seq<Seq<char>> {
    list.map_values(|e: WireEntryView| e.path)
}

proof fn lemma_stored_paths(index: CommitIndex, wire: WireIndex)
    requires
        is_wire_of(index, wire),
    ensures
        ({
            let paths = paths_of(wire_entries(wire.entries@));
            &&& paths.no_duplicates()
            &&& sorted_texts(paths, paths)
            &&& forall|p: Seq<char>| #[trigger]
                paths.contains(p) <==> index.entries@.contains_key(p)
        }),
{
    broadcast use lemma_text_irreflexive, lemma_text_transitive;

    let list = wire_entries(wire.entries@);
    let paths = paths_of(list);
    assert forall|i: int, j: int| 0 <= i < j < paths.len() implies text_lt(
        #[trigger] paths[i],
        #[trigger] paths[j],
    ) by {
        assert(paths[i] == list[i].path);
        assert(paths[j] == list[j].path);
    }
    assert forall|i: int, j: int|
        0 <= i < paths.len() && 0 <= j < paths.len() && i != j implies paths[i] != paths[j] by {
        if i < j {
            assert(text_lt(paths[i], paths[j]));
        } else {
            assert(text_lt(paths[j], paths[i]));
        }
    }
    assert forall|i: int, j: int| 0 <= i < j < paths.len() implies !text_lt(
        #[trigger] paths[j],
        #[trigger] paths[i],
    ) by {
        assert(text_lt(paths[i], paths[j]));
        if text_lt(paths[j], paths[i]) {
            assert(text_lt(paths[i], paths[i]));
        }
    }
    assert forall|p: Seq<char>| #[trigger] paths.contains(p) <==> index.entries@.contains_key(p) by {
        if paths.contains(p) {
            let i = choose|i: int| 0 <= i < paths.len() && paths[i] == p;
            assert(list[i].path == p);
        }
        if index.entries@.contains_key(p) {
            let i = choose|i: int| 0 <= i < list.len() && (#[trigger] list[i]).path == p;
            assert(paths[i] == p);
        }
    }
}

} // verus!
