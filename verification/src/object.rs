//! The stored form of objects: a header, and the payload behind it.

use crate::error::{GitError, GitErrorView};
use crate::oid::ObjectId;
use crate::text::{cat2, cat4, decimal};
use vstd::prelude::*;
use vstd::utf8::encode_utf8;

verus! {

/// The kinds of objects.
#[derive(Debug, Clone, Copy, PartialEq, Eq, Structural)]
pub enum ObjectKind {
    Tree,
    Blob,
    Commit,
    Tag,
}

/// Who wrote a commit, and when.
#[derive(Debug, Clone, PartialEq, Eq)]
pub struct Actor {
    pub name: String,
    pub email: String,
    pub time_seconds: i64,
    pub tz_offset_seconds: i32,
}

pub struct ActorView {
    pub name: Seq<char>,
    pub email: Seq<char>,
    pub time_seconds: i64,
    pub tz_offset_seconds: i32,
}

impl View for Actor {
    type V = ActorView;

    open spec fn view(&self) -> ActorView {
        ActorView {
            name: self.name@,
            email: self.email@,
            time_seconds: self.time_seconds,
            tz_offset_seconds: self.tz_offset_seconds,
        }
    }
}

/// What a commit records.
#[derive(Debug, Clone, PartialEq, Eq)]
pub struct CommitMeta {
    pub tree: ObjectId,
    pub parents: Vec<ObjectId>,
    pub author: Actor,
    pub committer: Actor,
    pub message: String,
}

pub struct CommitMetaView {
    pub tree: ObjectId,
    pub parents: Seq<ObjectId>,
    pub author: ActorView,
    pub committer: ActorView,
    pub message: Seq<char>,
}

impl View for CommitMeta {
    type V = CommitMetaView;

    open spec fn view(&self) -> CommitMetaView {
        CommitMetaView {
            tree: self.tree,
            parents: self.parents@,
            author: self.author@,
            committer: self.committer@,
            message: self.message@,
        }
    }
}

// ---- Header ----------------------------------------------------------------

/// The name of a kind in a header.
pub open spec fn kind_name(kind: ObjectKind) -> Seq<char> {
    match kind {
        ObjectKind::Tree => "tree"@,
        ObjectKind::Blob => "blob"@,
        ObjectKind::Commit => "commit"@,
        ObjectKind::Tag => "tag"@,
    }
}

/// The name of a kind in messages.
pub open spec fn kind_label(kind: ObjectKind) -> Seq<char> {
    match kind {
        ObjectKind::Tree => "Tree"@,
        ObjectKind::Blob => "Blob"@,
        ObjectKind::Commit => "Commit"@,
        ObjectKind::Tag => "Tag"@,
    }
}

fn label(kind: ObjectKind) -> (text: &'static str)
    ensures
        text@ == kind_label(kind),
{
    match kind {
        ObjectKind::Tree => "Tree",
        ObjectKind::Blob => "Blob",
        ObjectKind::Commit => "Commit",
        ObjectKind::Tag => "Tag",
    }
}

/// The kind that the bytes of a header name.
pub open spec fn kind_named(name: Seq<u8>) -> Option<ObjectKind> {
    if name == encode_utf8("tree"@) {
        Some(ObjectKind::Tree)
    } else if name == encode_utf8("blob"@) {
        Some(ObjectKind::Blob)
    } else if name == encode_utf8("commit"@) {
        Some(ObjectKind::Commit)
    } else if name == encode_utf8("tag"@) {
        Some(ObjectKind::Tag)
    } else {
        None
    }
}

/// The header of an object: its kind, a space, the size of its payload in
/// decimal, and a zero byte.
pub open spec fn header(kind: ObjectKind, size: nat) -> Seq<u8> {
    encode_utf8(kind_name(kind)).push(0x20) + encode_utf8(decimal(size)).push(0)
}

/// The first position from `from` on at which `b` stands, or the length.
pub open spec fn first_from(s: Seq<u8>, b: u8, from: int) -> int
    decreases s.len() - from,
{
    if from >= s.len() {
        s.len() as int
    } else if s[from] == b {
        from
    } else {
        first_from(s, b, from + 1)
    }
}

/// A number in decimal.
pub open spec fn is_number(digits: Seq<u8>) -> bool {
    digits.len() > 0 && forall|i: int| 0 <= i < digits.len() ==> 0x30 <= #[trigger] digits[i] <= 0x39
}

/// The value of a number in decimal.
pub open spec fn number_value(digits: Seq<u8>) -> nat
    decreases digits.len(),
{
    if digits.len() == 0 {
        0
    } else {
        10 * number_value(digits.drop_last()) + (digits.last() - 0x30) as nat
    }
}

/// The kind and size that stand in front of an object, and the length of the
/// header.
pub open spec fn header_of(raw: Seq<u8>) -> Option<(ObjectKind, u64, nat)> {
    let space = first_from(raw, 0x20, 0);
    let end = first_from(raw, 0, space + 1);
    let digits = raw.subrange(space + 1, end);
    if space < raw.len() && end < raw.len() && kind_named(raw.take(space)) is Some && is_number(
        digits,
    ) && number_value(digits) <= u64::MAX {
        Some(
            (kind_named(raw.take(space))->0, number_value(digits) as u64, (end + 1) as nat),
        )
    } else {
        None
    }
}

fn find_from(s: &[u8], b: u8, from: usize) -> (at: usize)
    requires
        from <= s@.len(),
    ensures
        at == first_from(s@, b, from as int),
        from <= at <= s@.len(),
{
    let mut at: usize = from;
    while at < s.len()
        invariant_except_break
            first_from(s@, b, from as int) == first_from(s@, b, at as int),
        invariant
            from <= at <= s@.len(),
        ensures
            at == first_from(s@, b, from as int),
        decreases s.len() - at,
    {
        if s[at] == b {
            break;
        }
        at = at + 1;
    }
    at
}

fn same_bytes(s: &[u8], to: usize, other: &[u8]) -> (same: bool)
    requires
        to <= s@.len(),
    ensures
        same == (s@.take(to as int) == other@),
{
    if to != other.len() {
        return false;
    }
    let mut i: usize = 0;
    while i < to
        invariant
            i <= to <= s@.len(),
            to == other@.len(),
            forall|j: int| 0 <= j < i ==> s@[j] == other@[j],
        decreases to - i,
    {
        if s[i] != other[i] {
            assert(s@.take(to as int)[i as int] != other@[i as int]);
            return false;
        }
        i = i + 1;
    }
    assert(s@.take(to as int) =~= other@);
    true
}

proof fn lemma_number_grows(digits: Seq<u8>, n: int)
    requires
        0 <= n <= digits.len(),
        is_number(digits),
    ensures
        number_value(digits.take(n)) <= number_value(digits),
    decreases digits.len() - n,
{
    if n < digits.len() {
        assert(digits.take(n + 1).drop_last() =~= digits.take(n));
        lemma_number_grows(digits, n + 1);
    } else {
        assert(digits.take(n) =~= digits);
    }
}

/// The value of the number in `s[from..to]`.
fn read_number(s: &[u8], from: usize, to: usize) -> (value: Option<u64>)
    requires
        from <= to <= s@.len(),
    ensures
        ({
            let digits = s@.subrange(from as int, to as int);
            match value {
                Some(v) => is_number(digits) && v == number_value(digits),
                None => !(is_number(digits) && number_value(digits) <= u64::MAX),
            }
        }),
{
    let ghost digits = s@.subrange(from as int, to as int);
    if from == to {
        return None;
    }
    let mut value: u64 = 0;
    let mut i: usize = from;
    assert(digits.take(0) =~= Seq::<u8>::empty());
    while i < to
        invariant
            from <= i <= to <= s@.len(),
            from < to,
            digits == s@.subrange(from as int, to as int),
            forall|j: int| 0 <= j < i - from ==> 0x30 <= #[trigger] digits[j] <= 0x39,
            value == number_value(digits.take(i - from)),
        decreases to - i,
    {
        let d = s[i];
        assert(digits[i - from] == d);
        if d < 0x30 || d > 0x39 {
            return None;
        }
        let ghost taken = digits.take(i - from + 1);
        assert(taken.drop_last() =~= digits.take(i - from));
        assert(taken.last() == d);
        let step: u64 = (d - 0x30) as u64;
        match value.checked_mul(10) {
            None => {
                proof {
                    if is_number(digits) {
                        lemma_number_grows(digits, i - from + 1);
                    }
                }
                return None;
            },
            Some(tenfold) => match tenfold.checked_add(step) {
                None => {
                    proof {
                        if is_number(digits) {
                            lemma_number_grows(digits, i - from + 1);
                        }
                    }
                    return None;
                },
                Some(next) => {
                    value = next;
                },
            },
        }
        i = i + 1;
    }
    assert(digits.take(to - from) =~= digits);
    Some(value)
}

/// Reads the header of an object: its kind, the size of its payload, and where
/// the payload begins.
pub fn parse_object_header(raw: &[u8]) -> (result: Result<(ObjectKind, u64, usize), GitError>)
    ensures
        match result {
            Ok((kind, size, at)) => header_of(raw@) == Some((kind, size, at as nat)) && at
                <= raw@.len(),
            Err(e) => header_of(raw@) is None && e@ == GitErrorView::CorruptedObject(
                "malformed object header"@,
            ),
        },
{
    let space: usize = find_from(raw, 0x20, 0);
    if space < raw.len() {
        let kind: Option<ObjectKind> = if same_bytes(raw, space, "tree".as_bytes()) {
            Some(ObjectKind::Tree)
        } else if same_bytes(raw, space, "blob".as_bytes()) {
            Some(ObjectKind::Blob)
        } else if same_bytes(raw, space, "commit".as_bytes()) {
            Some(ObjectKind::Commit)
        } else if same_bytes(raw, space, "tag".as_bytes()) {
            Some(ObjectKind::Tag)
        } else {
            None
        };
        let end: usize = find_from(raw, 0, space + 1);
        if end < raw.len() {
            if let (Some(k), Some(size)) = (kind, read_number(raw, space + 1, end)) {
                return Ok((k, size, end + 1));
            }
        }
    }
    Err(GitError::CorruptedObject("malformed object header".to_owned()))
}

/// The bytes from `from` on.
fn tail(raw: &[u8], from: usize) -> (bytes: Vec<u8>)
    requires
        from <= raw@.len(),
    ensures
        bytes@ == raw@.skip(from as int),
{
    let mut bytes: Vec<u8> = Vec::new();
    let mut i: usize = from;
    while i < raw.len()
        invariant
            from <= i <= raw@.len(),
            bytes@ == raw@.subrange(from as int, i as int),
        decreases raw.len() - i,
    {
        bytes.push(raw[i]);
        i = i + 1;
        assert(raw@.subrange(from as int, i as int) =~= raw@.subrange(from as int, i - 1).push(
            raw@[i - 1],
        ));
    }
    assert(raw@.subrange(from as int, raw@.len() as int) =~= raw@.skip(from as int));
    bytes
}

// ---- Blobs -----------------------------------------------------------------

/// The payload of a stored blob, or the error, which names the path where one
/// is given.
pub open spec fn blob_of(raw: Seq<u8>, path: Option<Seq<char>>) -> Result<
    (u64, Seq<u8>),
    GitErrorView,
> {
    match header_of(raw) {
        None => Err(GitErrorView::CorruptedObject("malformed object header"@)),
        Some((ObjectKind::Blob, size, at)) => Ok((size, raw.skip(at as int))),
        Some((kind, _, _)) => Err(
            GitErrorView::CorruptedObject(
                match path {
                    Some(p) => "expected blob at "@ + p + ", got "@ + kind_label(kind),
                    None => "expected blob, got "@ + kind_label(kind),
                },
            ),
        ),
    }
}

/// The size and payload of the blob that was found at `path`.
pub fn blob_at(raw: &[u8], path: &str) -> (result: Result<(u64, Vec<u8>), GitError>)
    ensures
        match result {
            Ok((size, bytes)) => blob_of(raw@, Some(path@)) == Ok::<_, GitErrorView>(
                (size, bytes@),
            ),
            Err(e) => blob_of(raw@, Some(path@)) == Err::<(u64, Seq<u8>), _>(e@),
        },
{
    match parse_object_header(raw) {
        Err(e) => Err(e),
        Ok((kind, size, at)) => if kind == ObjectKind::Blob {
            Ok((size, tail(raw, at)))
        } else {
            Err(GitError::CorruptedObject(cat4("expected blob at ", path, ", got ", label(kind))))
        },
    }
}

/// The payload of a stored blob.
pub fn read_blob_payload(raw: &[u8]) -> (result: Result<Vec<u8>, GitError>)
    ensures
        match result {
            Ok(bytes) => blob_of(raw@, None) matches Ok(found) && found.1 == bytes@,
            Err(e) => blob_of(raw@, None) == Err::<(u64, Seq<u8>), _>(e@),
        },
{
    match parse_object_header(raw) {
        Err(e) => Err(e),
        Ok((kind, _, at)) => if kind == ObjectKind::Blob {
            Ok(tail(raw, at))
        } else {
            Err(GitError::CorruptedObject(cat2("expected blob, got ", label(kind))))
        },
    }
}

// ---- Laws ------------------------------------------------------------------

proof fn lemma_first_from(s: Seq<u8>, b: u8, from: int, at: int)
    requires
        0 <= from <= at < s.len(),
        s[at] == b,
        forall|i: int| from <= i < at ==> #[trigger] s[i] != b,
    ensures
        first_from(s, b, from) == at,
    decreases at - from,
{
    if from < at {
        lemma_first_from(s, b, from + 1, at);
    }
}

proof fn lemma_decimal_bytes(n: nat)
    ensures
        vstd::utf8::is_ascii_chars(decimal(n)),
        is_number(encode_utf8(decimal(n))),
        number_value(encode_utf8(decimal(n))) == n,
    decreases n,
{
    let chars = decimal(n);
    let bytes = encode_utf8(chars);
    if n < 10 {
        vstd::utf8::is_ascii_chars_encode_utf8(chars);
        assert(bytes[0] == chars[0] as u8);
        assert(bytes.drop_last() =~= Seq::<u8>::empty());
        reveal_with_fuel(number_value, 2);
    } else {
        let front = decimal(n / 10);
        lemma_decimal_bytes(n / 10);
        assert forall|i: int| 0 <= i < chars.len() implies '\0' <= #[trigger] chars[i] <= '\u{7f}' by {
            if i < front.len() {
                assert(chars[i] == front[i]);
            }
        }
        vstd::utf8::is_ascii_chars_encode_utf8(chars);
        vstd::utf8::is_ascii_chars_encode_utf8(front);
        assert forall|i: int| 0 <= i < front.len() implies bytes[i] == #[trigger] encode_utf8(
            front,
        )[i] by {
            assert(chars[i] == front[i]);
        }
        assert(bytes.drop_last() =~= encode_utf8(front));
        assert(bytes.last() == chars.last() as u8);
        assert(chars.last() as u8 == (0x30 + n % 10) as u8);
        assert forall|i: int| 0 <= i < bytes.len() implies 0x30 <= #[trigger] bytes[i] <= 0x39 by {
            if i < front.len() {
                assert(bytes[i] == encode_utf8(front)[i]);
            } else {
                assert(bytes[i] == bytes.last());
            }
        }
    }
}

proof fn lemma_kind_bytes(kind: ObjectKind)
    ensures
        kind_named(encode_utf8(kind_name(kind))) == Some(kind),
        !encode_utf8(kind_name(kind)).contains(0x20),
{
    reveal_strlit("tree");
    reveal_strlit("blob");
    reveal_strlit("commit");
    reveal_strlit("tag");
    let chars = kind_name(kind);
    assert(vstd::utf8::is_ascii_chars("tree"@));
    assert(vstd::utf8::is_ascii_chars("blob"@));
    assert(vstd::utf8::is_ascii_chars("commit"@));
    assert(vstd::utf8::is_ascii_chars("tag"@));
    vstd::utf8::is_ascii_chars_encode_utf8("tree"@);
    vstd::utf8::is_ascii_chars_encode_utf8("blob"@);
    vstd::utf8::is_ascii_chars_encode_utf8("commit"@);
    vstd::utf8::is_ascii_chars_encode_utf8("tag"@);
    assert(encode_utf8("tree"@)[0] == "tree"@[0] as u8);
    assert(encode_utf8("blob"@)[0] == "blob"@[0] as u8);
    let bytes = encode_utf8(chars);
    if bytes.contains(0x20) {
        let i = choose|i: int| 0 <= i < bytes.len() && bytes[i] == 0x20;
        assert(chars[i] as u8 == 0x20);
        assert(chars[i] != ' ');
    }
}

/// What is written as a header is read back: the kind, the size and the place
/// where the payload begins.
pub proof fn law_header_round_trip(kind: ObjectKind, size: u64, payload: Seq<u8>)
    ensures
        header_of(header(kind, size as nat) + payload) == Some(
            (kind, size, header(kind, size as nat).len()),
        ),
{
    let name = encode_utf8(kind_name(kind));
    let digits = encode_utf8(decimal(size as nat));
    let raw = header(kind, size as nat) + payload;
    lemma_kind_bytes(kind);
    lemma_decimal_bytes(size as nat);
    let space = name.len() as int;
    let end = space + 1 + digits.len();
    assert forall|i: int| 0 <= i < space implies #[trigger] raw[i] != 0x20 by {
        assert(raw[i] == name[i]);
        assert(name.contains(name[i]));
    }
    lemma_first_from(raw, 0x20, 0, space);
    assert forall|i: int| space + 1 <= i < end implies #[trigger] raw[i] != 0 by {
        assert(raw[i] == digits[i - space - 1]);
    }
    lemma_first_from(raw, 0, space + 1, end);
    assert(raw.take(space) =~= name);
    assert(raw.subrange(space + 1, end) =~= digits);
}

/// A blob that is stored is read back with its size and its bytes.
pub proof fn law_blob_round_trip(payload: Seq<u8>, path: Option<Seq<char>>)
    requires
        payload.len() <= u64::MAX,
    ensures
        blob_of(header(ObjectKind::Blob, payload.len()) + payload, path) == Ok::<
            (u64, Seq<u8>),
            GitErrorView,
        >((payload.len() as u64, payload)),
{
    law_header_round_trip(ObjectKind::Blob, payload.len() as u64, payload);
    let front = header(ObjectKind::Blob, payload.len());
    assert((front + payload).skip(front.len() as int) =~= payload);
}

// ---- Commits ---------------------------------------------------------------

/// What `gix_object::CommitRef::from_bytes` reads in the payload of a commit, or
/// the message with which it rejects it.
pub uninterp spec fn commit_fields(payload: Seq<u8>) -> Result<CommitMetaView, Seq<char>>;

/// `gix_object::CommitRef::from_bytes`, its fields taken over: the tree, the
/// parents in their order, the author, the committer and the message. Names,
/// addresses and the message that are not UTF-8 come with the replacement
/// character in place of what is not. The outcome depends on the payload alone.
#[verifier::external_body]
fn decode_commit(payload: &[u8]) -> (result: Result<CommitMeta, String>)
    ensures
        match result {
            Ok(meta) => commit_fields(payload@) == Ok::<_, Seq<char>>(meta@),
            Err(message) => commit_fields(payload@) == Err::<CommitMetaView, _>(message@),
        },
{
    let c = gix_object::CommitRef::from_bytes(payload).map_err(|e| e.to_string())?;
    let gix_hash::ObjectId::Sha1(tree) = c.tree();
    let parents = c.parents().map(|gix_hash::ObjectId::Sha1(bytes)| ObjectId { bytes }).collect();
    Ok(CommitMeta {
        tree: ObjectId { bytes: tree },
        parents,
        author: Actor { name: c.author.name.to_string(), email: c.author.email.to_string(),
            time_seconds: c.author.time.seconds, tz_offset_seconds: c.author.time.offset },
        committer: Actor { name: c.committer.name.to_string(), email: c.committer.email.to_string(),
            time_seconds: c.committer.time.seconds, tz_offset_seconds: c.committer.time.offset },
        message: c.message.to_string(),
    })
}

/// What a stored commit records, given what was read in its payload.
pub open spec fn commit_answer(
    kind: ObjectKind,
    fields: Result<CommitMetaView, Seq<char>>,
) -> Result<CommitMetaView, GitErrorView> {
    if kind != ObjectKind::Commit {
        Err(GitErrorView::Other("expected commit object, got "@ + kind_label(kind)))
    } else {
        match fields {
            Ok(meta) => Ok(meta),
            Err(message) => Err(GitErrorView::Other("commit decode: "@ + message)),
        }
    }
}

/// What a stored commit records.
pub open spec fn commit_of(raw: Seq<u8>) -> Result<CommitMetaView, GitErrorView> {
    match header_of(raw) {
        None => Err(GitErrorView::CorruptedObject("malformed object header"@)),
        Some((kind, _, at)) => commit_answer(kind, commit_fields(raw.skip(at as int))),
    }
}

/// The view of what was read of a commit.
pub open spec fn meta_answer(result: Result<CommitMeta, GitError>) -> Result<
    CommitMetaView,
    GitErrorView,
> {
    match result {
        Ok(meta) => Ok(meta@),
        Err(e) => Err(e@),
    }
}

/// What a stored commit records, given what was read in its payload.
pub fn commit_from_fields(kind: ObjectKind, fields: Result<CommitMeta, String>) -> (result: Result<
    CommitMeta,
    GitError,
>)
    ensures
        meta_answer(result) == commit_answer(
            kind,
            match fields {
                Ok(meta) => Ok(meta@),
                Err(message) => Err(message@),
            },
        ),
{
    if kind != ObjectKind::Commit {
        return Err(GitError::Other(cat2("expected commit object, got ", label(kind))));
    }
    match fields {
        Ok(meta) => Ok(meta),
        Err(message) => Err(GitError::Other(cat2("commit decode: ", message.as_str()))),
    }
}

/// What a stored commit records.
pub fn load_commit_meta(raw: &[u8]) -> (result: Result<CommitMeta, GitError>)
    ensures
        meta_answer(result) == commit_of(raw@),
{
    match parse_object_header(raw) {
        Err(e) => Err(e),
        Ok((kind, _, at)) => {
            let payload = tail(raw, at);
            commit_from_fields(kind, decode_commit(payload.as_slice()))
        },
    }
}

} // verus!
