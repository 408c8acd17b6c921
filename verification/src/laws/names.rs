//! What the checks of names, paths and lines are for.

use crate::diff::{check_project_dir, validate_project_dir};
use crate::enumerate::{prune_path, pruned};
use crate::error::{GitError, GitErrorView, RefStoreError};
use crate::ignore::{classify_line, track_decision, IgnoreLine};
use crate::laws::text::{all_are, holds_at, is_blank, is_trimmed, lemma_holds_at, lemma_trimmed};
use crate::oid::{hex_value, ObjectId};
use crate::resolve::{resolve_ref, RefTarget, RefTargetView};
use crate::text::{join, lemma_split_len, lemma_split_one, lemma_split_parts, split};
use crate::util::validate_ref_name;
use vstd::prelude::*;
use vstd::utf8::encode_utf8;

verus! {

// ---- Ref names -------------------------------------------------------------

/// A character that a ref name may hold.
pub open spec fn fine_in_ref(c: char) -> bool {
    c != ' ' && c != '\0' && c != '~' && c != '^' && c != ':' && c != '?' && c != '[' && c != '*'
}

/// A name that a ref may have.
pub open spec fn fine_ref_name(t: Seq<char>) -> bool {
    &&& t.len() > 0
    &&& t[0] != '/'
    &&& t[t.len() - 1] != '/'
    &&& forall|i: int, j: int|
        0 <= i && j == i + 1 && j < t.len() ==> !(#[trigger] t[i] == '.' && #[trigger] t[j] == '.')
    &&& forall|i: int| 0 <= i < t.len() ==> fine_in_ref(#[trigger] t[i])
}

/// The error of a ref name is that of what it must not be.
pub proof fn lemma_fine_ref_name(t: Seq<char>)
    ensures
        crate::util::ref_name_error(t) is None <==> fine_ref_name(t),
{
    reveal_strlit("..");
    if crate::text::occurs(t, ".."@) {
        let at = choose|at: int| crate::text::stands_at(t, ".."@, at);
        assert(t.subrange(at, at + 2)[0] == t[at]);
        assert(t.subrange(at, at + 2)[1] == t[at + 1]);
    }
    if exists|i: int, j: int|
        0 <= i && j == i + 1 && j < t.len() && #[trigger] t[i] == '.' && #[trigger] t[j] == '.' {
        let (i, j) = choose|i: int, j: int|
            0 <= i && j == i + 1 && j < t.len() && #[trigger] t[i] == '.' && #[trigger] t[j]
                == '.';
        assert(t.subrange(i, i + 2) =~= ".."@);
        assert(crate::text::stands_at(t, ".."@, i));
    }
    assert(forall|i: int| 0 <= i < t.len() ==> (fine_in_ref(#[trigger] t[i])
        == !crate::util::forbidden_in_ref(t[i])));
}

/// A name is valid if and only if it is not empty, does not contain two dots in a
/// row, neither begins nor ends with a slash, and holds no space, no zero character
/// and none of `~ ^ : ? [ *`.
pub proof fn law_valid_ref_names(name: &str, result: Result<(), RefStoreError>)
    requires
        call_ensures(validate_ref_name, (name,), result),
    ensures
        result is Ok <==> fine_ref_name(name@),
        result matches Err(e) ==> e is InvalidName,
{
    lemma_fine_ref_name(name@);
}

/// The first of the faults of a name is the one that is told.
pub proof fn law_faults_of_ref_names(name: &str, reason: String)
    requires
        call_ensures(validate_ref_name, (name,), Err(RefStoreError::InvalidName(reason))),
    ensures
        ({
            let t = name@;
            let dots = exists|i: int, j: int|
                0 <= i && j == i + 1 && j < t.len() && #[trigger] t[i] == '.' && #[trigger] t[j]
                    == '.';
            reason@ == if t.len() == 0 {
                "ref name cannot be empty"@
            } else if dots {
                "ref name cannot contain '..'"@
            } else if t[0] == '/' || t[t.len() - 1] == '/' {
                "ref name cannot start or end with '/'"@
            } else {
                "ref name contains invalid characters"@
            }
        }),
{
    let t = name@;
    lemma_fine_ref_name(t);
    reveal_strlit("..");
    if crate::text::occurs(t, ".."@) {
        let at = choose|at: int| crate::text::stands_at(t, ".."@, at);
        assert(t.subrange(at, at + 2)[0] == t[at]);
        assert(t.subrange(at, at + 2)[1] == t[at + 1]);
    }
    if exists|i: int, j: int|
        0 <= i && j == i + 1 && j < t.len() && #[trigger] t[i] == '.' && #[trigger] t[j] == '.' {
        let (i, j) = choose|i: int, j: int|
            0 <= i && j == i + 1 && j < t.len() && #[trigger] t[i] == '.' && #[trigger] t[j]
                == '.';
        assert(t.subrange(i, i + 2) =~= ".."@);
        assert(crate::text::stands_at(t, ".."@, i));
    }
}

/// The letters, the digits, the underscore and the hyphen.
pub open spec fn is_word_char(c: char) -> bool {
    'a' <= c <= 'z' || 'A' <= c <= 'Z' || '0' <= c <= '9' || c == '_' || c == '-'
}

/// Words with single dots or slashes between them are valid names.
pub proof fn law_words_are_ref_names(name: &str, result: Result<(), RefStoreError>)
    requires
        call_ensures(validate_ref_name, (name,), result),
        name@.len() > 0,
        is_word_char(name@[0]),
        is_word_char(name@[name@.len() - 1]),
        forall|i: int|
            0 <= i < name@.len() ==> is_word_char(#[trigger] name@[i]) || name@[i] == '.' || name@[i]
                == '/',
        forall|i: int, j: int|
            0 <= i && j == i + 1 && j < name@.len() ==> is_word_char(#[trigger] name@[i])
                || is_word_char(#[trigger] name@[j]),
    ensures
        result is Ok,
{
    lemma_fine_ref_name(name@);
}

// ---- What the runtime keeps ------------------------------------------------

/// Every part of a path between slashes, or at its ends, is a segment of it.
pub open spec fn has_segment(path: Seq<char>, name: Seq<char>) -> bool {
    exists|front: Seq<char>, back: Seq<char>|
        path == #[trigger] (front + name + back) && (front.len() == 0 || front[front.len() - 1]
            == '/') && (back.len() == 0 || back[0] == '/')
}

/// A path has the segment, and goes on behind it.
pub open spec fn goes_through(path: Seq<char>, name: Seq<char>) -> bool {
    exists|front: Seq<char>, back: Seq<char>|
        path == #[trigger] (front + name + back) && (front.len() == 0 || front[front.len() - 1]
            == '/') && back.len() > 0 && back[0] == '/'
}

/// A path begins with the segment.
pub open spec fn starts_in(path: Seq<char>, name: Seq<char>) -> bool {
    holds_at(path, name, 0) && (path.len() == name.len() || path[name.len() as int] == '/')
}

proof fn lemma_join_at(pieces: Seq<Seq<char>>, i: int) -> (r: (Seq<char>, Seq<char>))
    requires
        0 <= i < pieces.len(),
    ensures
        join(pieces, '/') == r.0 + pieces[i] + r.1,
        r.0.len() == 0 <==> i == 0,
        r.0.len() > 0 ==> r.0[r.0.len() - 1] == '/',
        r.1.len() == 0 <==> i == pieces.len() - 1,
        r.1.len() > 0 ==> r.1[0] == '/',
    decreases pieces.len(),
{
    let e = Seq::<char>::empty();
    if pieces.len() == 1 {
        assert(join(pieces, '/') =~= e + pieces[0] + e);
        (e, e)
    } else {
        let front = pieces.drop_last();
        let whole = join(pieces, '/');
        if i == pieces.len() - 1 {
            let a = join(front, '/').push('/');
            assert(whole =~= a + pieces[i] + e);
            (a, e)
        } else {
            let (a, b) = lemma_join_at(front, i);
            let back = b.push('/') + pieces.last();
            assert(whole =~= a + pieces[i] + back);
            (a, back)
        }
    }
}

proof fn lemma_found_segment(path: Seq<char>, name: Seq<char>, front: Seq<char>, back: Seq<char>)
    requires
        !name.contains('/'),
        path == front + name + back,
        front.len() == 0 || front[front.len() - 1] == '/',
        back.len() == 0 || back[0] == '/',
    ensures
        split(path, '/').contains(name),
        front.len() == 0 ==> split(path, '/')[0] == name,
        back.len() > 0 ==> split(path, '/').drop_last().contains(name),
{
    let rest = name + back;
    lemma_split_one(name, '/');
    if back.len() > 0 {
        let b = back.drop_first();
        assert(rest =~= name.push('/') + b);
        lemma_split_parts(name, b, '/');
        lemma_split_len(b, '/');
        assert(split(rest, '/')[0] == name);
    } else {
        assert(rest =~= name);
    }
    if front.len() > 0 {
        let a = front.drop_last();
        assert(path =~= a.push('/') + rest);
        lemma_split_parts(a, rest, '/');
        let at = split(a, '/').len() as int;
        assert(split(path, '/')[at] == name);
        if back.len() > 0 {
            assert(split(path, '/').drop_last()[at] == name);
        }
    } else {
        assert(path =~= rest);
        assert(split(path, '/')[0] == name);
        if back.len() > 0 {
            assert(split(path, '/').drop_last()[0] == name);
        }
    }
}

/// The segments of a path are its pieces between slashes.
pub proof fn lemma_segments(path: Seq<char>, name: Seq<char>)
    requires
        !name.contains('/'),
    ensures
        split(path, '/').contains(name) <==> has_segment(path, name),
        split(path, '/').first() == name <==> starts_in(path, name),
        split(path, '/').drop_last().contains(name) <==> goes_through(path, name),
{
    let pieces = split(path, '/');
    lemma_split_len(path, '/');
    crate::text::lemma_join_split(path, '/');
    if pieces.contains(name) {
        let i = choose|i: int| 0 <= i < pieces.len() && pieces[i] == name;
        let (a, b) = lemma_join_at(pieces, i);
        assert(path == a + name + b);
    }
    if pieces.drop_last().contains(name) {
        let i = choose|i: int| 0 <= i < pieces.len() - 1 && pieces.drop_last()[i] == name;
        let (a, b) = lemma_join_at(pieces, i);
        assert(path == a + name + b);
    }
    if pieces.first() == name {
        let (a, b) = lemma_join_at(pieces, 0);
        assert(path =~= name + b);
    }
    if has_segment(path, name) {
        let (a, b) = choose|front: Seq<char>, back: Seq<char>|
            path == #[trigger] (front + name + back) && (front.len() == 0 || front[front.len() - 1]
                == '/') && (back.len() == 0 || back[0] == '/');
        lemma_found_segment(path, name, a, b);
    }
    if goes_through(path, name) {
        let (a, b) = choose|front: Seq<char>, back: Seq<char>|
            path == #[trigger] (front + name + back) && (front.len() == 0 || front[front.len() - 1]
                == '/') && back.len() > 0 && back[0] == '/';
        lemma_found_segment(path, name, a, b);
    }
    if starts_in(path, name) {
        let b = path.skip(name.len() as int);
        assert(path =~= Seq::<char>::empty() + name + b);
        lemma_found_segment(path, name, Seq::empty(), b);
    }
}

/// What the runtime keeps for itself: its five directories, lock files, vector
/// indexes and the content of embedding caches.
pub open spec fn kept_by_runtime(path: Seq<char>) -> bool {
    ||| starts_in(path, "_system"@)
    ||| starts_in(path, "tasks"@)
    ||| starts_in(path, "temp"@)
    ||| starts_in(path, "queue"@)
    ||| starts_in(path, "upload"@)
    ||| has_segment(path, ".path.ovlock"@)
    ||| goes_through(path, "embedding_cache"@)
    ||| holds_at(path, ".faiss"@, path.len() - 6)
    ||| holds_at(path, ".index"@, path.len() - 6)
}

proof fn lemma_no_slash(name: Seq<char>)
    requires
        forall|i: int| 0 <= i < name.len() ==> #[trigger] name[i] != '/',
    ensures
        !name.contains('/'),
{
}

/// What is pruned is what the runtime keeps.
pub proof fn lemma_pruned(path: Seq<char>)
    ensures
        pruned(path) <==> kept_by_runtime(path),
{
    reveal_strlit("_system");
    reveal_strlit("tasks");
    reveal_strlit("temp");
    reveal_strlit("queue");
    reveal_strlit("upload");
    reveal_strlit(".path.ovlock");
    reveal_strlit("embedding_cache");
    reveal_strlit(".faiss");
    reveal_strlit(".index");
    lemma_no_slash("_system"@);
    lemma_no_slash("tasks"@);
    lemma_no_slash("temp"@);
    lemma_no_slash("queue"@);
    lemma_no_slash("upload"@);
    lemma_no_slash(".path.ovlock"@);
    lemma_no_slash("embedding_cache"@);
    lemma_segments(path, "_system"@);
    lemma_segments(path, "tasks"@);
    lemma_segments(path, "temp"@);
    lemma_segments(path, "queue"@);
    lemma_segments(path, "upload"@);
    lemma_segments(path, ".path.ovlock"@);
    lemma_segments(path, "embedding_cache"@);
    lemma_holds_at(path, ".faiss"@, path.len() - 6);
    lemma_holds_at(path, ".index"@, path.len() - 6);
}

/// A path is pruned if and only if its first segment is `_system`, `tasks`, `temp`,
/// `queue` or `upload`, it has the segment `.path.ovlock`, goes through a directory
/// `embedding_cache`, or ends with `.faiss` or `.index`.
pub proof fn law_prune_path(path: &str, prune: bool)
    requires
        call_ensures(prune_path, (path,), prune),
    ensures
        prune <==> kept_by_runtime(path@),
{
    lemma_pruned(path@);
}

/// What lies in a public scope and has none of the marks of the runtime is never
/// pruned, whatever the scope.
pub proof fn law_public_scopes(path: &str, scope: Seq<char>, prune: bool)
    requires
        call_ensures(prune_path, (path,), prune),
        starts_in(path@, scope),
        !scope.contains('/'),
        scope != "_system"@ && scope != "tasks"@ && scope != "temp"@ && scope != "queue"@ && scope
            != "upload"@,
        !has_segment(path@, ".path.ovlock"@),
        !goes_through(path@, "embedding_cache"@),
        !holds_at(path@, ".faiss"@, path@.len() - 6),
        !holds_at(path@, ".index"@, path@.len() - 6),
    ensures
        !prune,
{
    lemma_pruned(path@);
    lemma_segments(path@, scope);
    reveal_strlit("_system");
    reveal_strlit("tasks");
    reveal_strlit("temp");
    reveal_strlit("queue");
    reveal_strlit("upload");
    lemma_segments(path@, "_system"@);
    lemma_segments(path@, "tasks"@);
    lemma_segments(path@, "temp"@);
    lemma_segments(path@, "queue"@);
    lemma_segments(path@, "upload"@);
}

// ---- Lines of the ignore file ----------------------------------------------

/// A line says nothing where only white space is in it, or the first of its other
/// characters is `#`. It is a negation where that is `!`. Any other is the pattern
/// that is left without the white space around it.
pub proof fn law_classify_line(raw: &str, kind: IgnoreLine)
    requires
        call_ensures(classify_line, (raw,), kind),
    ensures
        exists|core: Seq<char>| #[trigger]
            is_trimmed(raw@, core) && match kind {
                IgnoreLine::Blank => core.len() == 0 || core[0] == '#',
                IgnoreLine::Negation(t) => core.len() > 0 && core[0] == '!' && t@ == core,
                IgnoreLine::Pattern(t) => core.len() > 0 && core[0] != '#' && core[0] != '!' && t@
                    == core,
            },
{
    lemma_trimmed(raw@);
}

/// What a line says, on its characters: the first that is no white space decides.
pub proof fn law_first_character_decides(raw: &str, kind: IgnoreLine, at: int)
    requires
        call_ensures(classify_line, (raw,), kind),
        0 <= at <= raw@.len(),
        forall|i: int| 0 <= i < at ==> is_blank(#[trigger] raw@[i]),
        at < raw@.len() ==> !is_blank(raw@[at]),
    ensures
        kind is Blank <==> at == raw@.len() || raw@[at] == '#',
        kind is Negation <==> at < raw@.len() && raw@[at] == '!',
        kind is Pattern <==> at < raw@.len() && raw@[at] != '#' && raw@[at] != '!',
{
    let text = raw@;
    let blank = |c: char| is_blank(c);
    law_classify_line(raw, kind);
    let core = choose|core: Seq<char>| #[trigger]
        is_trimmed(text, core) && match kind {
            IgnoreLine::Blank => core.len() == 0 || core[0] == '#',
            IgnoreLine::Negation(t) => core.len() > 0 && core[0] == '!' && t@ == core,
            IgnoreLine::Pattern(t) => core.len() > 0 && core[0] != '#' && core[0] != '!' && t@
                == core,
        };
    let (front, back) = choose|front: Seq<char>, back: Seq<char>|
        text == #[trigger] (front + core + back) && all_are(front, blank)
            && all_are(back, blank);
    if core.len() > 0 {
        assert(text[front.len() as int] == core[0]);
        if at > front.len() {
            assert(is_blank(text[front.len() as int]));
        }
        if at < front.len() {
            assert(text[at] == front[at]);
            assert(blank(front[at]));
        }
    } else if at < text.len() {
        if at < front.len() {
            assert(text[at] == front[at]);
            assert(blank(front[at]));
        } else {
            assert(text[at] == back[at - front.len()]);
            assert(blank(back[at - front.len()]));
        }
    }
}

/// A path is tracked if and only if it is the ignore file itself, or is neither kept
/// by the runtime nor ignored.
pub proof fn law_track_decision(path: &str, ignored: bool, track: bool)
    requires
        call_ensures(track_decision, (path, ignored), track),
    ensures
        track <==> path@ == ".ovgitignore"@ || (!kept_by_runtime(path@) && !ignored),
{
    lemma_pruned(path@);
}

// ---- Targets ---------------------------------------------------------------

/// A hexadecimal digit of either case.
pub open spec fn is_hex_char(c: char) -> bool {
    '0' <= c <= '9' || 'a' <= c <= 'f' || 'A' <= c <= 'F'
}

/// Only hexadecimal digits.
pub open spec fn only_hex(text: Seq<char>) -> bool {
    forall|i: int| 0 <= i < text.len() ==> is_hex_char(#[trigger] text[i])
}

proof fn lemma_hex_text(text: Seq<char>)
    ensures
        only_hex(text) ==> encode_utf8(text).len() == text.len() && forall|i: int|
            0 <= i < text.len() ==> #[trigger] encode_utf8(text)[i] == text[i] as u8,
        only_hex(text) <==> crate::resolve::all_hex(encode_utf8(text)),
{
    if only_hex(text) {
        assert forall|i: int| 0 <= i < text.len() implies '\0' <= #[trigger] text[i] <= '\u{7f}' by {
            assert(is_hex_char(text[i]));
        }
        vstd::utf8::is_ascii_chars_encode_utf8(text);
    }
    if crate::resolve::all_hex(encode_utf8(text)) {
        let bytes = encode_utf8(text);
        vstd::utf8::encode_utf8_valid_utf8(text);
        vstd::utf8::encode_utf8_decode_utf8(text);
        lemma_ascii_bytes(bytes);
        assert forall|i: int| 0 <= i < text.len() implies is_hex_char(#[trigger] text[i]) by {
            assert(hex_value(bytes[i]) is Some);
            assert(text[i] == (bytes[i] as u32) as char);
        }
    }
}

/// Bytes below one hundred and twenty-eight are the characters that they decode to.
proof fn lemma_ascii_bytes(bytes: Seq<u8>)
    requires
        vstd::utf8::valid_utf8(bytes),
        forall|i: int| 0 <= i < bytes.len() ==> hex_value(#[trigger] bytes[i]) is Some,
    ensures
        vstd::utf8::decode_utf8(bytes).len() == bytes.len(),
        forall|i: int|
            0 <= i < bytes.len() ==> #[trigger] vstd::utf8::decode_utf8(bytes)[i]
                == (bytes[i] as u32) as char,
    decreases bytes.len(),
{
    if bytes.len() > 0 {
        let first = bytes[0];
        let rest = bytes.subrange(1, bytes.len() as int);
        assert(hex_value(bytes[0]) is Some);
        assert(first & 0x7f == first) by (bit_vector)
            requires
                first <= 0x7f,
        ;
        assert(vstd::utf8::pop_first_scalar(bytes) =~= rest);
        assert forall|i: int| 0 <= i < rest.len() implies hex_value(#[trigger] rest[i]) is Some by {
            assert(rest[i] == bytes[i + 1]);
        }
        lemma_ascii_bytes(rest);
        let text = vstd::utf8::decode_utf8(bytes);
        assert forall|i: int| 0 <= i < bytes.len() implies #[trigger] text[i] == (
        bytes[i] as u32) as char by {
            if i > 0 {
                assert(text[i] == vstd::utf8::decode_utf8(rest)[i - 1]);
                assert(rest[i - 1] == bytes[i]);
            }
        }
    }
}

/// The value of a hexadecimal digit.
pub open spec fn digit_value(c: char) -> int {
    let n = c as int;
    if n <= 0x39 {
        n - 0x30
    } else if n <= 0x46 {
        n - 0x41 + 10
    } else {
        n - 0x61 + 10
    }
}

pub proof fn lemma_digit_value(c: char)
    requires
        is_hex_char(c),
    ensures
        hex_value(c as u8) == Some(digit_value(c) as u8),
        0 <= digit_value(c) < 16,
{
}

/// The identifier has the bytes that forty digits write, two for each.
pub open spec fn writes_oid(digits: Seq<char>, oid: ObjectId) -> bool {
    &&& digits.len() == 40
    &&& only_hex(digits)
    &&& forall|i: int|
        0 <= i < 20 ==> #[trigger] oid.bytes@[i] == 16 * digit_value(digits[2 * i]) + digit_value(
            digits[2 * i + 1],
        )
}

/// The text writes no identifier.
pub open spec fn writes_none(text: Seq<char>) -> bool {
    forall|oid: ObjectId| !#[trigger] writes_oid(text, oid)
}

/// What a text says of an identifier: it is one if and only if it is forty digits.
pub proof fn lemma_read_hex(text: Seq<char>)
    ensures
        match crate::oid::read_hex(encode_utf8(text)) {
            Ok(oid) => writes_oid(text, oid),
            Err(_) => writes_none(text),
        },
{
    let bytes = encode_utf8(text);
    lemma_hex_text(text);
    if only_hex(text) && text.len() == 40 {
        let oid = crate::oid::oid_of(crate::oid::unhex(bytes));
        lemma_oid_with_bytes(crate::oid::unhex(bytes));
        assert forall|i: int| 0 <= i < 20 implies #[trigger] oid.bytes@[i] == 16 * digit_value(
            text[2 * i],
        ) + digit_value(text[2 * i + 1]) by {
            assert(oid.bytes@[i] == crate::oid::unhex(bytes)[i]);
            assert(bytes[2 * i] == text[2 * i] as u8);
            assert(bytes[2 * i + 1] == text[2 * i + 1] as u8);
            lemma_digit_value(text[2 * i]);
            lemma_digit_value(text[2 * i + 1]);
        }
    } else if crate::oid::is_full_hex(bytes) {
        assert(crate::resolve::all_hex(bytes));
    }
}

/// There is an identifier with any twenty bytes.
proof fn lemma_oid_with_bytes(bytes: Seq<u8>)
    requires
        bytes.len() == 20,
    ensures
        crate::oid::oid_of(bytes).bytes@ == bytes,
{
    let b = bytes;
    let array: [u8; 20] = [
        b[0], b[1], b[2], b[3], b[4], b[5], b[6], b[7], b[8], b[9], b[10], b[11], b[12], b[13],
        b[14], b[15], b[16], b[17], b[18], b[19],
    ];
    let oid = ObjectId { bytes: array };
    assert(oid.bytes@ =~= bytes);
}

/// The full name that a target stands for as a ref.
pub open spec fn is_full_name(target: Seq<char>, name: Seq<char>) -> bool {
    if holds_at(target, "refs/"@, 0) {
        name == target
    } else {
        name == "refs/heads/"@ + target
    }
}

/// What a target names. Forty hexadecimal digits name the object that they write;
/// four to thirty-nine abbreviate one; anything else names the ref that is written
/// out or, without `refs/` in front, the branch. A name that no ref may have is an
/// error, and nothing else is.
pub open spec fn is_target(t: Seq<char>, result: Result<RefTargetView, GitErrorView>) -> bool {
    if only_hex(t) && t.len() == 40 {
        result matches Ok(RefTargetView::Oid(oid)) && writes_oid(t, oid)
    } else if only_hex(t) && 4 <= t.len() && t.len() < 40 {
        result matches Ok(RefTargetView::Abbreviated(digits)) && digits == t
    } else {
        exists|name: Seq<char>| #[trigger]
            is_full_name(t, name) && if fine_ref_name(name) {
                result matches Ok(RefTargetView::Name(n)) && n == name
            } else {
                result matches Err(GitErrorView::Other(_))
            }
    }
}

/// What a target is taken for is what it names.
pub proof fn lemma_target(t: Seq<char>, result: Result<RefTargetView, GitErrorView>)
    requires
        crate::resolve::target_of(t, result),
    ensures
        is_target(t, result),
{
    let bytes = encode_utf8(t);
    lemma_hex_text(t);
    lemma_holds_at(t, "refs/"@, 0);
    let name = crate::resolve::full_ref_name(t);
    lemma_fine_ref_name(name);
    assert(is_full_name(t, name));
    if only_hex(t) && t.len() == 40 {
        let oid = result->Ok_0->Oid_0;
        assert forall|i: int| 0 <= i < 20 implies #[trigger] oid.bytes@[i] == 16 * digit_value(
            t[2 * i],
        ) + digit_value(t[2 * i + 1]) by {
            assert(oid.bytes@[i] == crate::oid::unhex(bytes)[i]);
            assert(bytes[2 * i] == t[2 * i] as u8);
            assert(bytes[2 * i + 1] == t[2 * i + 1] as u8);
            lemma_digit_value(t[2 * i]);
            lemma_digit_value(t[2 * i + 1]);
        }
    }
}

/// A target is taken for what it names.
pub proof fn law_resolve_ref(target: &str, result: Result<RefTarget, GitError>)
    requires
        call_ensures(resolve_ref, (target,), result),
    ensures
        is_target(
            target@,
            match result {
                Ok(t) => Ok(t@),
                Err(e) => Err(e@),
            },
        ),
{
    lemma_target(
        target@,
        match result {
            Ok(t) => Ok(t@),
            Err(e) => Err(e@),
        },
    );
}

// ---- Directories -----------------------------------------------------------

proof fn lemma_fine_dir(t: Seq<char>)
    requires
        t.len() > 0,
        t[0] != '/',
        t[t.len() - 1] != '/',
    ensures
        split(t, '/').contains(Seq::<char>::empty()) <==> exists|i: int, j: int|
            0 <= i && j == i + 1 && j < t.len() && #[trigger] t[i] == '/' && #[trigger] t[j] == '/',
{
    let none = Seq::<char>::empty();
    lemma_segments(t, none);
    if has_segment(t, none) {
        let (a, b) = choose|front: Seq<char>, back: Seq<char>|
            t == #[trigger] (front + none + back) && (front.len() == 0 || front[front.len() - 1]
                == '/') && (back.len() == 0 || back[0] == '/');
        assert(t =~= a + b);
        if a.len() > 0 && b.len() > 0 {
            assert(t[a.len() - 1] == '/' && t[a.len() as int] == '/');
        } else if a.len() > 0 {
            assert(t[t.len() - 1] == a[a.len() - 1]);
        } else {
            assert(t[0] == b[0]);
        }
    }
    if exists|i: int, j: int|
        0 <= i && j == i + 1 && j < t.len() && #[trigger] t[i] == '/' && #[trigger] t[j] == '/' {
        let (i, j) = choose|i: int, j: int|
            0 <= i && j == i + 1 && j < t.len() && #[trigger] t[i] == '/' && #[trigger] t[j] == '/';
        assert(t =~= t.take(j) + none + t.skip(j));
    }
}

/// A directory can be restored if and only if it is not empty, neither begins nor
/// ends with a slash, and has no two slashes in a row.
pub proof fn law_project_dirs(dir: &str, result: Result<(), GitError>)
    requires
        call_ensures(validate_project_dir, (dir,), result),
    ensures
        result is Ok <==> {
            let t = dir@;
            &&& t.len() > 0
            &&& t[0] != '/'
            &&& t[t.len() - 1] != '/'
            &&& forall|i: int, j: int|
                0 <= i && j == i + 1 && j < t.len() ==> !(#[trigger] t[i] == '/' && #[trigger] t[j]
                    == '/')
        },
        result matches Err(e) ==> e is InvalidProjectDir,
{
    let t = dir@;
    if t.len() > 0 && t[0] != '/' && t[t.len() - 1] != '/' {
        lemma_fine_dir(t);
    }
}

/// The first of the faults of a directory is the one that is told, with how it is shown.
pub proof fn law_faults_of_project_dirs(dir: &str, shown: &str, reason: String)
    requires
        call_ensures(check_project_dir, (dir, shown), Err(GitError::InvalidProjectDir(reason))),
    ensures
        reason@ == if dir@.len() == 0 {
            "project_dir must be non-empty"@
        } else if dir@[0] == '/' || dir@[dir@.len() - 1] == '/' {
            "project_dir must not start or end with '/': "@ + shown@
        } else {
            "project_dir contains empty segment: "@ + shown@
        },
{
    let e = GitError::InvalidProjectDir(reason);
    assert(e@ == GitErrorView::InvalidProjectDir(reason@));
}

proof fn lemma_join_parts(pieces: Seq<Seq<char>>, n: int)
    requires
        0 < n < pieces.len(),
    ensures
        join(pieces, '/') == join(pieces.take(n), '/').push('/') + join(pieces.skip(n), '/'),
    decreases pieces.len(),
{
    let front = pieces.drop_last();
    let back = pieces.skip(n);
    if n == pieces.len() - 1 {
        assert(front =~= pieces.take(n));
        assert(back =~= seq![pieces.last()]);
    } else {
        lemma_join_parts(front, n);
        assert(front.take(n) =~= pieces.take(n));
        assert(front.skip(n) =~= back.drop_last());
        assert(back.last() == pieces.last());
        assert(join(pieces, '/') =~= join(pieces.take(n), '/').push('/') + join(back, '/'));
    }
}

/// A directory is on the way to a path where the path goes on behind it with a slash.
pub proof fn law_on_the_way(dir: Seq<char>, path: Seq<char>)
    ensures
        crate::tree_builder::on_the_way(dir, path) <==> holds_at(path, dir.push('/'), 0),
{
    let pieces = split(path, '/');
    crate::text::lemma_join_split(path, '/');
    lemma_holds_at(path, dir.push('/'), 0);
    if crate::tree_builder::on_the_way(dir, path) {
        let n = choose|n: int| 0 < n < pieces.len() && dir == join(#[trigger] pieces.take(n), '/');
        lemma_join_parts(pieces, n);
        assert(path.subrange(0, dir.len() as int + 1) =~= dir.push('/'));
    }
    if holds_at(path, dir.push('/'), 0) {
        let rest = path.skip(dir.len() as int + 1);
        assert(path =~= dir.push('/') + rest);
        lemma_split_parts(dir, rest, '/');
        lemma_split_len(dir, '/');
        lemma_split_len(rest, '/');
        crate::text::lemma_join_split(dir, '/');
        let n = split(dir, '/').len() as int;
        assert(pieces.take(n) =~= split(dir, '/'));
        assert(0 < n < pieces.len() && dir == join(pieces.take(n), '/'));
    }
}

/// A path names an entry of a tree if and only if it is not empty, neither begins nor
/// ends with a slash, and has no two slashes in a row.
pub proof fn law_proper_paths(t: Seq<char>)
    ensures
        crate::tree_builder::path_error(t) is None <==> {
            &&& t.len() > 0
            &&& t[0] != '/'
            &&& t[t.len() - 1] != '/'
            &&& forall|i: int, j: int|
                0 <= i && j == i + 1 && j < t.len() ==> !(#[trigger] t[i] == '/' && #[trigger] t[j]
                    == '/')
        },
{
    let none = Seq::<char>::empty();
    if t.len() > 0 {
        if t[0] != '/' && t[t.len() - 1] != '/' {
            lemma_fine_dir(t);
        } else {
            lemma_segments(t, none);
            if t[0] == '/' {
                assert(t =~= none + none + t);
            } else {
                assert(t =~= t + none + none);
            }
            assert(has_segment(t, none));
        }
    }
}

} // verus!
