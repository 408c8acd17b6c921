//! What stored objects, their identifiers and the index of a commit are for.

use crate::error::{GitError, GitErrorView};
use crate::index_store::{
    decode_index, encode_index, read_entries, usable_index, wire_entries, CommitIndex,
    IndexStoreError, IndexStoreErrorView, WireEntryView, WireIndex,
};
use crate::laws::names::{digit_value, is_hex_char, lemma_read_hex, writes_none, writes_oid};
use crate::laws::text::{comes_before, holds_at, lemma_holds_at, lemma_text_order};
use crate::object::{
    blob_at, commit_fields, commit_from_fields, first_from, header_of, kind_named, load_commit_meta,
    parse_object_header, read_blob_payload, CommitMeta, ObjectKind,
};
use crate::oid::{hex, HexError, ObjectId};
use vstd::prelude::*;
use vstd::utf8::encode_utf8;

verus! {

// ---- Identifiers -----------------------------------------------------------

/// There is one null identifier, and forty zeros write it.
pub proof fn law_null(oid: ObjectId, digits: Seq<char>)
    requires
        call_ensures(ObjectId::null, (), oid),
        digits.len() == 40,
        forall|i: int| 0 <= i < 40 ==> #[trigger] digits[i] == '0',
    ensures
        forall|i: int| 0 <= i < 20 ==> #[trigger] oid.bytes@[i] == 0,
        writes_oid(digits, oid),
{
}

/// The digits of an identifier write it, without capitals.
pub proof fn lemma_hex(oid: ObjectId)
    ensures
        writes_oid(hex(oid.bytes@), oid),
        forall|i: int| 0 <= i < 40 ==> !('A' <= #[trigger] hex(oid.bytes@)[i] <= 'F'),
{
    let text = hex(oid.bytes@);
    let b = oid.bytes@;
    assert(b.len() == 20);
    assert forall|i: int| 0 <= i < text.len() implies is_hex_char(#[trigger] text[i]) && !('A'
        <= text[i] <= 'F') by {}
    assert forall|i: int| 0 <= i < 20 implies #[trigger] b[i] == 16 * digit_value(text[2 * i])
        + digit_value(text[2 * i + 1]) by {
        assert((2 * i) / 2 == i && (2 * i) % 2 == 0);
        assert((2 * i + 1) / 2 == i && (2 * i + 1) % 2 == 1);
        lemma_digit_of(b[i] as int / 16);
        lemma_digit_of(b[i] as int % 16);
        assert(text[2 * i] == crate::oid::hex_digit(b[i] as int / 16));
        assert(text[2 * i + 1] == crate::oid::hex_digit(b[i] as int % 16));
    }
}

proof fn lemma_digit_of(value: int)
    requires
        0 <= value < 16,
    ensures
        digit_value(crate::oid::hex_digit(value)) == value,
{
}

/// An identifier is written by forty digits in lower case that write it.
pub proof fn law_to_hex(oid: ObjectId, text: String)
    requires
        call_ensures(ObjectId::to_hex, (&oid,), text),
    ensures
        writes_oid(text@, oid),
        forall|i: int| 0 <= i < 40 ==> !('A' <= #[trigger] text@[i] <= 'F'),
{
    lemma_hex(oid);
}

/// A byte that is a hexadecimal digit.
pub open spec fn is_hex_byte(b: u8) -> bool {
    (0x30 <= b && b <= 0x39) || (0x41 <= b && b <= 0x46) || (0x61 <= b && b <= 0x66)
}

/// Forty hexadecimal digits are read as the identifier that they write; another number
/// of bytes, or another byte among forty, is an error of its own.
pub proof fn law_from_hex(text: &[u8], result: Result<ObjectId, HexError>)
    requires
        call_ensures(ObjectId::from_hex, (text,), result),
    ensures
        result is Ok <==> text@.len() == 40 && forall|i: int|
            0 <= i < 40 ==> is_hex_byte(#[trigger] text@[i]),
        result matches Ok(oid) ==> forall|i: int|
            0 <= i < 20 ==> #[trigger] oid.bytes@[i] == 16 * digit_value(
                (text@[2 * i] as u32) as char,
            ) + digit_value((text@[2 * i + 1] as u32) as char),
        (result matches Err(HexError::Length(n)) && n == text@.len()) <==> text@.len() != 40,
{
    assert(forall|i: int|
        0 <= i < text@.len() ==> (is_hex_byte(#[trigger] text@[i]) <==> crate::oid::hex_value(
            text@[i],
        ) is Some));
    if let Ok(oid) = result {
        assert forall|i: int| 0 <= i < 20 implies #[trigger] oid.bytes@[i] == 16 * digit_value(
            (text@[2 * i] as u32) as char,
        ) + digit_value((text@[2 * i + 1] as u32) as char) by {
            assert(oid.bytes@[i] == crate::oid::unhex(text@)[i]);
            assert(crate::oid::hex_value(text@[2 * i]) is Some);
            assert(crate::oid::hex_value(text@[2 * i + 1]) is Some);
        }
    }
}

// ---- Headers ---------------------------------------------------------------

/// The bytes of the name of a kind.
pub open spec fn kind_bytes(kind: ObjectKind) -> Seq<u8> {
    match kind {
        ObjectKind::Tree => seq![0x74, 0x72, 0x65, 0x65],
        ObjectKind::Blob => seq![0x62, 0x6c, 0x6f, 0x62],
        ObjectKind::Commit => seq![0x63, 0x6f, 0x6d, 0x6d, 0x69, 0x74],
        ObjectKind::Tag => seq![0x74, 0x61, 0x67],
    }
}

/// The number that digits write.
pub open spec fn read_digits(digits: Seq<u8>) -> int
    decreases digits.len(),
{
    if digits.len() == 0 {
        0
    } else {
        10 * read_digits(digits.drop_last()) + (digits.last() - 0x30)
    }
}

/// The object begins with the name of its kind, a space, its size in digits and a zero
/// byte; its payload begins at `at`.
pub open spec fn has_header(raw: Seq<u8>, kind: ObjectKind, size: int, at: int) -> bool {
    let name = kind_bytes(kind);
    let digits = raw.subrange(name.len() as int + 1, at - 1);
    &&& name.len() + 3 <= at <= raw.len()
    &&& raw.take(name.len() as int) == name
    &&& raw[name.len() as int] == 0x20
    &&& forall|i: int| 0 <= i < digits.len() ==> 0x30 <= #[trigger] digits[i] <= 0x39
    &&& raw[at - 1] == 0
    &&& read_digits(digits) == size
    &&& 0 <= size <= u64::MAX
}

proof fn lemma_kind_bytes(kind: ObjectKind)
    ensures
        encode_utf8(crate::object::kind_name(kind)) == kind_bytes(kind),
        !kind_bytes(kind).contains(0x20u8),
{
    reveal_strlit("tree");
    reveal_strlit("blob");
    reveal_strlit("commit");
    reveal_strlit("tag");
    let name = crate::object::kind_name(kind);
    assert forall|i: int| 0 <= i < name.len() implies '\0' <= #[trigger] name[i] <= '\u{7f}' by {}
    vstd::utf8::is_ascii_chars_encode_utf8(name);
    let bytes = kind_bytes(kind);
    assert(encode_utf8(name) =~= bytes);
    assert forall|i: int| 0 <= i < bytes.len() implies #[trigger] bytes[i] != 0x20 by {}
}

proof fn lemma_first_from(s: Seq<u8>, b: u8, from: int)
    requires
        0 <= from <= s.len(),
    ensures
        ({
            let at = first_from(s, b, from);
            &&& from <= at <= s.len()
            &&& at < s.len() ==> s[at] == b
            &&& forall|i: int| from <= i < at ==> #[trigger] s[i] != b
        }),
    decreases s.len() - from,
{
    if from < s.len() && s[from] != b {
        lemma_first_from(s, b, from + 1);
    }
}

proof fn lemma_number_value(digits: Seq<u8>)
    requires
        forall|i: int| 0 <= i < digits.len() ==> 0x30 <= #[trigger] digits[i] <= 0x39,
    ensures
        crate::object::number_value(digits) == read_digits(digits),
    decreases digits.len(),
{
    if digits.len() > 0 {
        let front = digits.drop_last();
        assert forall|i: int| 0 <= i < front.len() implies 0x30 <= #[trigger] front[i] <= 0x39 by {
            assert(front[i] == digits[i]);
        }
        lemma_number_value(front);
        assert(digits.last() == digits[digits.len() - 1]);
    }
}

proof fn lemma_kind_named(name: Seq<u8>, kind: ObjectKind)
    ensures
        kind_named(name) == Some(kind) <==> name == kind_bytes(kind),
{
    lemma_kind_bytes(ObjectKind::Tree);
    lemma_kind_bytes(ObjectKind::Blob);
    lemma_kind_bytes(ObjectKind::Commit);
    lemma_kind_bytes(ObjectKind::Tag);
    let t = kind_bytes(ObjectKind::Tree);
    let b = kind_bytes(ObjectKind::Blob);
    assert(t[0] == 0x74 && b[0] == 0x62 && kind_bytes(ObjectKind::Commit)[0] == 0x63);
    assert(kind_bytes(ObjectKind::Tag).len() == 3 && t.len() == 4);
}

/// The header of an object is read as it stands there.
pub proof fn lemma_header(raw: Seq<u8>, kind: ObjectKind, size: int, at: int)
    ensures
        has_header(raw, kind, size, at) <==> (header_of(raw) matches Some((k, s, a)) && k == kind
            && s == size && a == at),
{
    let space = first_from(raw, 0x20, 0);
    lemma_first_from(raw, 0x20, 0);
    lemma_kind_bytes(kind);
    let name = kind_bytes(kind);
    if has_header(raw, kind, size, at) {
        let n = name.len() as int;
        assert forall|i: int| 0 <= i < n implies #[trigger] raw[i] != 0x20 by {
            assert(raw.take(n)[i] == raw[i]);
            assert(name.contains(name[i]));
        }
        assert(space == n);
        let end = first_from(raw, 0, space + 1);
        lemma_first_from(raw, 0, space + 1);
        let digits = raw.subrange(n + 1, at - 1);
        assert forall|i: int| n + 1 <= i < at - 1 implies #[trigger] raw[i] != 0 by {
            assert(digits[i - n - 1] == raw[i]);
        }
        assert(end == at - 1);
        lemma_number_value(digits);
        lemma_kind_named(raw.take(space), kind);
    }
    if header_of(raw) matches Some((k, s, a)) && k == kind && s == size && a == at {
        let end = first_from(raw, 0, space + 1);
        lemma_first_from(raw, 0, space + 1);
        lemma_kind_named(raw.take(space), kind);
        assert(space == name.len());
        lemma_number_value(raw.subrange(space + 1, end));
    }
}

/// A header is read where one stands in front of the object, and as it stands there;
/// anything else is a corrupted object.
pub proof fn law_headers(raw: &[u8], result: Result<(ObjectKind, u64, usize), GitError>)
    requires
        call_ensures(parse_object_header, (raw,), result),
    ensures
        match result {
            Ok((kind, size, at)) => has_header(raw@, kind, size as int, at as int),
            Err(e) => e is CorruptedObject && forall|kind: ObjectKind, size: int, at: int|
                !#[trigger] has_header(raw@, kind, size, at),
        },
{
    match result {
        Ok((kind, size, at)) => lemma_header(raw@, kind, size as int, at as int),
        Err(_) => {
            assert forall|kind: ObjectKind, size: int, at: int| !#[trigger] has_header(
                raw@,
                kind,
                size,
                at,
            ) by {
                lemma_header(raw@, kind, size, at);
            }
        },
    }
}

/// The payload of a blob is everything behind its header, and its size is what the
/// header says; another kind, or no header, is a corrupted object.
pub proof fn law_blobs(
    raw: &[u8],
    path: &str,
    result: Result<(u64, Vec<u8>), GitError>,
    payload: Result<Vec<u8>, GitError>,
    size: int,
    at: int,
)
    requires
        call_ensures(blob_at, (raw, path), result),
        call_ensures(read_blob_payload, (raw,), payload),
    ensures
        has_header(raw@, ObjectKind::Blob, size, at) ==> (result matches Ok((s, bytes)) && s == size
            && bytes@ == raw@.skip(at)) && (payload matches Ok(bytes) && bytes@ == raw@.skip(at)),
        (forall|s: int, a: int| !#[trigger] has_header(raw@, ObjectKind::Blob, s, a)) ==> (
        result matches Err(e) && e is CorruptedObject) && (payload matches Err(e)
            && e is CorruptedObject),
{
    lemma_header(raw@, ObjectKind::Blob, size, at);
    if let Some((kind, s, a)) = header_of(raw@) {
        lemma_header(raw@, kind, s as int, a as int);
    }
}

/// A commit is what its payload records; an object of another kind is none, nor is one
/// whose payload cannot be read.
pub proof fn law_commits(
    raw: &[u8],
    result: Result<CommitMeta, GitError>,
    kind: ObjectKind,
    size: int,
    at: int,
)
    requires
        call_ensures(load_commit_meta, (raw,), result),
    ensures
        has_header(raw@, kind, size, at) ==> {
            &&& result matches Ok(meta) ==> kind == ObjectKind::Commit && commit_fields(
                raw@.skip(at),
            ) == Ok::<_, Seq<char>>(meta@)
            &&& result matches Err(e) ==> e is Other && (kind != ObjectKind::Commit
                || commit_fields(raw@.skip(at)) is Err)
        },
        (forall|k: ObjectKind, s: int, a: int| !#[trigger] has_header(raw@, k, s, a)) ==> (
        result matches Err(e) && e is CorruptedObject),
{
    lemma_header(raw@, kind, size, at);
    if let Some((k, s, a)) = header_of(raw@) {
        lemma_header(raw@, k, s as int, a as int);
    }
    if let Err(e) = result {
        assert(crate::object::meta_answer(result) == crate::object::commit_of(raw@));
    }
}

/// A kind in a message.
pub open spec fn told_kind(kind: ObjectKind) -> Seq<char> {
    match kind {
        ObjectKind::Tree => "Tree"@,
        ObjectKind::Blob => "Blob"@,
        ObjectKind::Commit => "Commit"@,
        ObjectKind::Tag => "Tag"@,
    }
}

/// What is wrong with an object is told: that it has no header, or which kind was
/// expected and which there is.
pub proof fn law_faults_of_objects(
    raw: &[u8],
    path: &str,
    header: Result<(ObjectKind, u64, usize), GitError>,
    blob: Result<(u64, Vec<u8>), GitError>,
    payload: Result<Vec<u8>, GitError>,
    commit: Result<CommitMeta, GitError>,
    kind: ObjectKind,
    size: int,
    at: int,
)
    requires
        call_ensures(parse_object_header, (raw,), header),
        call_ensures(blob_at, (raw, path), blob),
        call_ensures(read_blob_payload, (raw,), payload),
        call_ensures(load_commit_meta, (raw,), commit),
    ensures
        header matches Err(e) ==> e@ == GitErrorView::CorruptedObject("malformed object header"@)
            && (blob matches Err(b) && b@ == e@) && (payload matches Err(p) && p@ == e@) && (
        commit matches Err(c) && c@ == e@),
        has_header(raw@, kind, size, at) ==> {
            &&& blob matches Err(b) ==> b@ == GitErrorView::CorruptedObject(
                "expected blob at "@ + path@ + ", got "@ + told_kind(kind),
            )
            &&& payload matches Err(p) ==> p@ == GitErrorView::CorruptedObject(
                "expected blob, got "@ + told_kind(kind),
            )
            &&& commit matches Err(c) ==> c matches GitError::Other(t) && if kind
                != ObjectKind::Commit {
                t@ == "expected commit object, got "@ + told_kind(kind)
            } else {
                commit_fields(raw@.skip(at)) matches Err(m) && t@ == "commit decode: "@ + m
            }
        },
{
    lemma_header(raw@, kind, size, at);
    if let Err(c) = commit {
        assert(crate::object::meta_answer(commit) == Err::<crate::object::CommitMetaView, _>(c@));
    }
}

/// What was read in a payload counts only for a commit.
pub proof fn law_commit_fields(
    kind: ObjectKind,
    fields: Result<CommitMeta, String>,
    result: Result<CommitMeta, GitError>,
)
    requires
        call_ensures(commit_from_fields, (kind, fields), result),
    ensures
        match result {
            Ok(meta) => kind == ObjectKind::Commit && (fields matches Ok(f) && meta@ == f@),
            Err(e) => e matches GitError::Other(t) && if kind != ObjectKind::Commit {
                t@ == "expected commit object, got "@ + told_kind(kind)
            } else {
                fields matches Err(m) && t@ == "commit decode: "@ + m@
            },
        },
{
    if let Err(e) = result {
        assert(crate::object::meta_answer(result) == Err::<crate::object::CommitMetaView, _>(e@));
    }
}

// ---- The index of a commit -------------------------------------------------

/// The stored form of an index holds each of its paths once, in the order of texts,
/// with what is remembered of it.
pub proof fn law_encode_index(index: CommitIndex, wire: WireIndex)
    requires
        call_ensures(encode_index, (&index,), wire),
    ensures
        wire.version == 1,
        writes_oid(wire.parent_oid@, index.parent_oid),
        forall|i: int|
            0 <= i < wire.entries@.len() ==> {
                let w = #[trigger] wire.entries@[i];
                let e = index.entries@[w.path@];
                &&& index.entries@.contains_key(w.path@)
                &&& w.size == e.size
                &&& w.mtime_ns == e.mtime_ns
                &&& writes_oid(w.oid@, e.oid)
            },
        forall|path: Seq<char>| #[trigger]
            index.entries@.contains_key(path) ==> exists|i: int|
                0 <= i < wire.entries@.len() && (#[trigger] wire.entries@[i]).path@ == path,
        forall|i: int, j: int|
            0 <= i < j < wire.entries@.len() ==> comes_before(
                (#[trigger] wire.entries@[i]).path@,
                (#[trigger] wire.entries@[j]).path@,
            ),
{
    let list = wire_entries(wire.entries@);
    lemma_hex(index.parent_oid);
    assert forall|i: int| 0 <= i < wire.entries@.len() implies {
        let w = #[trigger] wire.entries@[i];
        let e = index.entries@[w.path@];
        &&& index.entries@.contains_key(w.path@)
        &&& w.size == e.size
        &&& w.mtime_ns == e.mtime_ns
        &&& writes_oid(w.oid@, e.oid)
    } by {
        assert(list[i] == wire.entries@[i]@);
        lemma_hex(index.entries@[wire.entries@[i].path@].oid);
    }
    assert forall|path: Seq<char>| #[trigger] index.entries@.contains_key(path) implies exists|
        i: int,
    |
        0 <= i < wire.entries@.len() && (#[trigger] wire.entries@[i]).path@ == path by {
        let i = choose|i: int| 0 <= i < list.len() && (#[trigger] list[i]).path == path;
        assert(wire.entries@[i].path@ == path);
    }
    assert forall|i: int, j: int| 0 <= i < j < wire.entries@.len() implies comes_before(
        (#[trigger] wire.entries@[i]).path@,
        (#[trigger] wire.entries@[j]).path@,
    ) by {
        assert(list[i].path == wire.entries@[i].path@ && list[j].path == wire.entries@[j].path@);
        lemma_text_order(list[i].path, list[j].path);
    }
}

/// The entry is the last of its path.
pub open spec fn is_last(wire: WireIndex, i: int) -> bool {
    &&& 0 <= i < wire.entries@.len()
    &&& forall|j: int|
        i < j < wire.entries@.len() ==> (#[trigger] wire.entries@[j]).path@
            != wire.entries@[i].path@
}

proof fn lemma_entries(list: Seq<WireEntryView>)
    ensures
        match read_entries(list) {
            Ok(map) => {
                &&& forall|i: int|
                    0 <= i < list.len() && (forall|j: int|
                        i < j < list.len() ==> (#[trigger] list[j]).path != list[i].path)
                        ==> map.contains_key((#[trigger] list[i]).path) && {
                        let e = map[list[i].path];
                        e.size == list[i].size && e.mtime_ns == list[i].mtime_ns && writes_oid(
                            list[i].oid,
                            e.oid,
                        )
                    }
                &&& forall|path: Seq<char>| #[trigger]
                    map.contains_key(path) ==> exists|i: int|
                        0 <= i < list.len() && (#[trigger] list[i]).path == path
                &&& forall|i: int| 0 <= i < list.len() ==> !writes_none((#[trigger] list[i]).oid)
            },
            Err(_) => exists|i: int| 0 <= i < list.len() && writes_none((#[trigger] list[i]).oid),
        },
    decreases list.len(),
{
    if list.len() > 0 {
        let front = list.drop_last();
        let last = list.last();
        lemma_entries(front);
        lemma_read_hex(last.oid);
        assert(last == list[list.len() - 1]);
        assert(forall|i: int| 0 <= i < front.len() ==> #[trigger] front[i] == list[i]);
        match read_entries(front) {
            Err(_) => {
                let i = choose|i: int| 0 <= i < front.len() && writes_none((#[trigger] front[i]).oid);
                assert(writes_none(list[i].oid));
            },
            Ok(before) => {
                if let Ok(map) = read_entries(list) {
                    let oid = crate::oid::read_hex(encode_utf8(last.oid))->Ok_0;
                    assert(writes_oid(last.oid, oid));
                    assert forall|i: int| 0 <= i < list.len() implies !writes_none(
                        (#[trigger] list[i]).oid,
                    ) by {
                        if i < front.len() {
                            assert(!writes_none(front[i].oid));
                        }
                    }
                    assert forall|i: int|
                        0 <= i < list.len() && (forall|j: int|
                            i < j < list.len() ==> (#[trigger] list[j]).path
                                != list[i].path) implies map.contains_key(
                        (#[trigger] list[i]).path,
                    ) && {
                        let e = map[list[i].path];
                        e.size == list[i].size && e.mtime_ns == list[i].mtime_ns && writes_oid(
                            list[i].oid,
                            e.oid,
                        )
                    } by {
                        if i < front.len() {
                            assert(list[list.len() - 1].path != list[i].path);
                            assert forall|j: int| i < j < front.len() implies (#[trigger] front[j]).path
                                != front[i].path by {
                                assert(list[j].path != list[i].path);
                            }
                            assert(front[i] == list[i]);
                        }
                    }
                    assert forall|path: Seq<char>| #[trigger] map.contains_key(path) implies exists|
                        i: int,
                    |
                        0 <= i < list.len() && (#[trigger] list[i]).path == path by {
                        if path == last.path {
                            assert(list[list.len() - 1].path == path);
                        } else {
                            assert(before.contains_key(path));
                            let i = choose|i: int|
                                0 <= i < front.len() && (#[trigger] front[i]).path == path;
                            assert(list[i].path == path);
                        }
                    }
                } else {
                    assert(writes_none(list[list.len() - 1].oid));
                }
            },
        }
    }
}

proof fn lemma_first_bad(list: Seq<WireEntryView>) -> (at: int)
    requires
        read_entries(list) is Err,
    ensures
        0 <= at < list.len(),
        writes_none(list[at].oid),
        forall|j: int| 0 <= j < at ==> !writes_none((#[trigger] list[j]).oid),
        exists|h: HexError|
            read_entries(list)->Err_0 == "entry oid "@ + list[at].path + ": "@
                + #[trigger] crate::error::hex_error_message(h),
    decreases list.len(),
{
    let front = list.drop_last();
    lemma_read_hex(list.last().oid);
    assert(list.last() == list[list.len() - 1]);
    if read_entries(front) is Err {
        let at = lemma_first_bad(front);
        assert forall|j: int| 0 <= j < at implies !writes_none((#[trigger] list[j]).oid) by {
            assert(front[j] == list[j]);
        }
        at
    } else {
        let at = list.len() - 1;
        assert forall|j: int| 0 <= j < at implies !writes_none((#[trigger] list[j]).oid) by {
            lemma_entries(front);
            assert(front[j] == list[j]);
        }
        at
    }
}

/// Where an index of this version was parsed and is still an error, the message says
/// whether the parent is no identifier, or else which is the first entry with none.
pub proof fn law_faults_of_an_index(declared: Option<u64>, wire: WireIndex, message: String)
    requires
        call_ensures(
            decode_index,
            (declared, Ok::<WireIndex, String>(wire)),
            Err(IndexStoreError::Decode(message)),
        ),
    ensures
        if writes_none(wire.parent_oid@) {
            holds_at(message@, "parent_oid: "@, 0)
        } else {
            exists|i: int|
                0 <= i < wire.entries@.len() && writes_none((#[trigger] wire.entries@[i]).oid@) && (
                forall|j: int| 0 <= j < i ==> !writes_none((#[trigger] wire.entries@[j]).oid@))
                    && holds_at(message@, "entry oid "@ + wire.entries@[i].path@ + ": "@, 0)
        },
{
    let e = IndexStoreError::Decode(message);
    assert(e@ == IndexStoreErrorView::Decode(message@));
    let list = wire_entries(wire.entries@);
    assert(forall|i: int| 0 <= i < list.len() ==> #[trigger] list[i] == wire.entries@[i]@);
    lemma_read_hex(wire.parent_oid@);
    if writes_none(wire.parent_oid@) {
        let front = "parent_oid: "@;
        lemma_holds_at(message@, front, 0);
        assert(message@.subrange(0, front.len() as int) =~= front);
    } else {
        let at = lemma_first_bad(list);
        let front = "entry oid "@ + list[at].path + ": "@;
        assert(message@.subrange(0, front.len() as int) =~= front);
        lemma_holds_at(message@, front, 0);
        assert(list[at] == wire.entries@[at]@);
        assert(writes_none(wire.entries@[at].oid@));
        assert forall|j: int| 0 <= j < at implies !writes_none(
            (#[trigger] wire.entries@[j]).oid@,
        ) by {
            assert(list[j] == wire.entries@[j]@);
        }
    }
}

/// An index of another version counts as absent, whatever else it holds. One of this
/// version gives what it holds, the last entry of a path in place of earlier ones; it is
/// an error if and only if it could not be parsed or one of its identifiers is none.
pub proof fn law_decode_index(
    declared: Option<u64>,
    parsed: Result<WireIndex, String>,
    result: Result<Option<CommitIndex>, IndexStoreError>,
)
    requires
        call_ensures(decode_index, (declared, parsed), result),
    ensures
        (declared matches Some(v) && v != 1) ==> (result matches Ok(None)),
        !(declared matches Some(v) && v != 1) ==> match parsed {
            Err(m) => result matches Err(e) && e@ == IndexStoreErrorView::Decode(m@),
            Ok(wire) => if wire.version != 1 {
                result matches Ok(None)
            } else {
                match result {
                    Ok(Some(index)) => {
                        &&& writes_oid(wire.parent_oid@, index.parent_oid)
                        &&& forall|i: int| #[trigger]
                            is_last(wire, i) ==> {
                                let w = wire.entries@[i];
                                let e = index.entries@[w.path@];
                                &&& index.entries@.contains_key(w.path@)
                                &&& e.size == w.size
                                &&& e.mtime_ns == w.mtime_ns
                                &&& writes_oid(w.oid@, e.oid)
                            }
                        &&& forall|path: Seq<char>| #[trigger]
                            index.entries@.contains_key(path) ==> exists|i: int|
                                0 <= i < wire.entries@.len() && (#[trigger] wire.entries@[i]).path@
                                    == path
                    },
                    Ok(None) => false,
                    Err(e) => e is Decode && (writes_none(wire.parent_oid@) || exists|i: int|
                        0 <= i < wire.entries@.len() && writes_none(
                            (#[trigger] wire.entries@[i]).oid@,
                        )),
                }
            },
        },
{
    assert(crate::index_store::index_answer(result) is Ok <==> result is Ok);
    if let Ok(wire) = parsed {
        let list = wire_entries(wire.entries@);
        assert(forall|i: int| 0 <= i < list.len() ==> #[trigger] list[i] == wire.entries@[i]@);
        lemma_entries(list);
        lemma_read_hex(wire.parent_oid@);
        if let Ok(Some(index)) = result {
            assert forall|i: int| #[trigger] is_last(wire, i) implies {
                let w = wire.entries@[i];
                let e = index.entries@[w.path@];
                &&& index.entries@.contains_key(w.path@)
                &&& e.size == w.size
                &&& e.mtime_ns == w.mtime_ns
                &&& writes_oid(w.oid@, e.oid)
            } by {
                assert forall|j: int| i < j < list.len() implies (#[trigger] list[j]).path
                    != list[i].path by {
                    assert(wire.entries@[j].path@ != wire.entries@[i].path@);
                }
                assert(list[i] == wire.entries@[i]@);
            }
            assert forall|path: Seq<char>| #[trigger] index.entries@.contains_key(
                path,
            ) implies exists|i: int|
                0 <= i < wire.entries@.len() && (#[trigger] wire.entries@[i]).path@ == path by {
                let i = choose|i: int| 0 <= i < list.len() && (#[trigger] list[i]).path == path;
                assert(wire.entries@[i].path@ == path);
            }
        }
        if result is Err && read_entries(list) is Err {
            let i = choose|i: int| 0 <= i < list.len() && writes_none((#[trigger] list[i]).oid);
            assert(writes_none(wire.entries@[i].oid@));
        }
    }
}

/// An index is of use if and only if it describes the commit at the head.
pub proof fn law_usable_index(
    loaded: Result<Option<CommitIndex>, IndexStoreError>,
    head: Option<ObjectId>,
    index: Option<CommitIndex>,
)
    requires
        call_ensures(usable_index, (loaded, head), index),
    ensures
        index matches Some(i) ==> (loaded matches Ok(Some(l)) && l == i) && head == Some(
            i.parent_oid,
        ),
        index is None ==> !(loaded matches Ok(Some(l)) && head == Some(l.parent_oid)),
{
}

} // verus!
