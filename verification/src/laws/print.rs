//! What the command line prints.

use crate::error::{hex_error_text, FsError, GitError, ObjectStoreError, RefStoreError};
use crate::index_store::IndexStoreError;
use crate::laws::text::{lemma_decimal, writes_number};
use crate::oid::{hex, HexError, ObjectId};
use crate::snapshot::{
    blob_note, commit_line, first_line, json, line_end, log_line, metadata_lines, metadata_report,
    padded, print_commit, print_log, print_metadata, print_restore, reports_commit, reports_restore,
    restore_lines, restore_report, restore_texts, short_of, shorten, show_output, subject, JsonNode,
    JsonView, MetadataReport, RestoreReport, ShowOutput,
};
use crate::text::{decimal, join_with, views};
use vstd::prelude::*;
use vstd::utf8::{encode_utf8, is_ascii_chars, is_char_boundary};

verus! {

// ---- Values ----------------------------------------------------------------

/// The value at a key of an object.
pub open spec fn at_key(value: JsonView, key: Seq<char>) -> Option<JsonView> {
    match value.node {
        JsonNode::Object(map) => if map.contains_key(key) {
            Some(map[key])
        } else {
            None
        },
        _ => None,
    }
}

/// The text at a key: the empty text where there is none.
pub open spec fn text_at(value: JsonView, key: Seq<char>) -> Seq<char> {
    match at_key(value, key) {
        Some(v) => match v.node {
            JsonNode::Text(t) => t,
            _ => Seq::empty(),
        },
        None => Seq::empty(),
    }
}

/// The number at a key: zero where there is none.
pub open spec fn number_at(value: JsonView, key: Seq<char>) -> int {
    match at_key(value, key) {
        Some(v) => match v.node {
            JsonNode::Number(n) => n as int,
            _ => 0,
        },
        None => 0,
    }
}

/// How many elements the list at a key has: none where there is no list.
pub open spec fn count_at(value: JsonView, key: Seq<char>) -> int {
    match at_key(value, key) {
        Some(v) => match v.node {
            JsonNode::Array(list) => list.len() as int,
            _ => 0,
        },
        None => 0,
    }
}

// ---- Short identifiers -----------------------------------------------------

/// An identifier is cut after twelve bytes, and only between two characters.
pub proof fn law_shorten(oid: &str, short: Option<String>)
    requires
        call_ensures(shorten, (oid,), short),
    ensures
        short is Some <==> encode_utf8(oid@).len() >= 12 && is_char_boundary(encode_utf8(oid@), 12),
        short matches Some(s) ==> encode_utf8(s@) == encode_utf8(oid@).take(12),
        is_ascii_chars(oid@) && oid@.len() >= 12 ==> (short matches Some(s) && s@ == oid@.take(12)),
{
    let bytes = encode_utf8(oid@);
    if is_ascii_chars(oid@) && oid@.len() >= 12 {
        crate::snapshot::law_short_ascii(oid@);
    }
    if let Some(s) = short {
        vstd::utf8::encode_utf8_valid_utf8(oid@);
        vstd::utf8::valid_utf8_split(bytes, 12);
        assert(bytes.subrange(0, 12) =~= bytes.take(12));
        vstd::utf8::decode_utf8_encode_utf8(bytes.take(12));
    }
}

// ---- Commit ----------------------------------------------------------------

/// The line about a commit says that it was created, what it is and how many files have
/// changed, or that there was nothing to commit.
pub open spec fn tells_commit(
    kind: Seq<char>,
    oid: Seq<char>,
    changed: int,
    line: Seq<char>,
) -> bool {
    if kind == "created"@ {
        exists|digits: Seq<char>|
            #![trigger writes_number(digits, changed)]
            writes_number(digits, changed) && line == "Created "@ + oid + " ("@ + digits
                + " files changed)"@
    } else if kind == "noop"@ {
        line == "No changes — nothing to commit"@
    } else {
        line == oid
    }
}

/// What is printed of a commit is what the server replied.
pub proof fn law_print_commit(
    kind: &str,
    oid: &str,
    changed: u64,
    line: String,
    value: serde_json::Value,
    printed: String,
)
    requires
        call_ensures(commit_line, (kind, oid, changed), line),
        call_ensures(print_commit, (&value,), printed),
    ensures
        tells_commit(kind@, oid@, changed as int, line@),
        tells_commit(
            text_at(json(value), "result"@),
            text_at(json(value), "commit_oid"@),
            number_at(json(value), "changed"@),
            printed@,
        ),
{
    lemma_decimal(changed as nat);
    lemma_decimal(number_at(json(value), "changed"@) as nat);
}

// ---- Restore ---------------------------------------------------------------

/// The short form of an identifier, or nothing.
pub open spec fn is_short(oid: Seq<char>, short: Seq<char>) -> bool {
    let bytes = encode_utf8(oid);
    if bytes.len() >= 12 && is_char_boundary(bytes, 12) {
        encode_utf8(short) == bytes.take(12)
    } else {
        short.len() == 0
    }
}

proof fn lemma_is_short(oid: Seq<char>)
    ensures
        is_short(oid, crate::snapshot::short_or_empty(oid)),
{
    let bytes = encode_utf8(oid);
    if bytes.len() >= 12 && is_char_boundary(bytes, 12) {
        vstd::utf8::encode_utf8_valid_utf8(oid);
        vstd::utf8::valid_utf8_split(bytes, 12);
        assert(bytes.subrange(0, 12) =~= bytes.take(12));
        vstd::utf8::decode_utf8_encode_utf8(bytes.take(12));
    }
}

/// The lines about a restore: a dry run counts what would be done, and a restore that
/// was carried out says from where, as what, and how many files it touched.
pub open spec fn tells_restore(report: RestoreReport, lines: Option<Seq<Seq<char>>>) -> bool {
    match report.diff {
        Some(d) => lines matches Some(l) && l.len() == 4 && l[0] == "Dry-run:"@ && l[1]
            == "  to_write:  "@ + decimal(d.to_write as nat) && l[2] == "  to_delete: "@ + decimal(
            d.to_delete as nat,
        ) && l[3] == "  unchanged: "@ + decimal(d.unchanged as nat),
        None => if report.kind@ == "applied"@ {
            lines matches Some(l) && l.len() == 1 && exists|a: Seq<char>, b: Seq<char>|
                #![trigger is_short(report.source_commit@, a), is_short(report.new_commit_oid@, b)]
                is_short(report.source_commit@, a) && is_short(report.new_commit_oid@, b) && l[0]
                    == "Restored from "@ + a + " as "@ + b + " ("@ + decimal(
                    report.written as nat,
                ) + " written, "@ + decimal(report.deleted as nat) + " deleted, "@ + decimal(
                    report.unchanged as nat,
                ) + " unchanged)"@
        } else if report.kind@ == "noop"@ {
            lines matches Some(l) && l.len() == 1 && l[0] == "Already at source — no changes"@
        } else {
            lines is None
        },
    }
}

proof fn lemma_tells_restore(report: RestoreReport)
    ensures
        tells_restore(report, restore_texts(report)),
{
    let a = crate::snapshot::short_or_empty(report.source_commit@);
    let b = crate::snapshot::short_or_empty(report.new_commit_oid@);
    lemma_is_short(report.source_commit@);
    lemma_is_short(report.new_commit_oid@);
    if report.diff is None && report.kind@ == "applied"@ {
        assert(is_short(report.source_commit@, a) && is_short(report.new_commit_oid@, b));
        assert(crate::snapshot::applied_text(report) =~= "Restored from "@ + a + " as "@ + b
            + " ("@ + decimal(report.written as nat) + " written, "@ + decimal(
            report.deleted as nat,
        ) + " deleted, "@ + decimal(report.unchanged as nat) + " unchanged)"@);
    }
}

/// The lines of a list.
pub open spec fn line_views(lines: Option<Vec<String>>) -> Option<Seq<Seq<char>>> {
    match lines {
        Some(l) => Some(l@.map_values(|s: String| s@)),
        None => None,
    }
}

/// What is printed of a restore is what the server replied of it.
pub proof fn law_print_restore(
    report: RestoreReport,
    lines: Option<Vec<String>>,
    value: serde_json::Value,
    read: RestoreReport,
    printed: Option<Vec<String>>,
)
    requires
        call_ensures(restore_lines, (&report,), lines),
        call_ensures(restore_report, (&value,), read),
        call_ensures(print_restore, (&value,), printed),
    ensures
        tells_restore(report, line_views(lines)),
        ({
            let v = json(value);
            &&& read.kind@ == text_at(v, "result"@)
            &&& read.new_commit_oid@ == text_at(v, "new_commit_oid"@)
            &&& read.source_commit@ == text_at(v, "source_commit"@)
            &&& read.written == number_at(v, "written"@)
            &&& read.deleted == number_at(v, "deleted"@)
            &&& read.unchanged == number_at(v, "unchanged"@)
            &&& read.diff is Some <==> at_key(v, "diff"@) is Some
            &&& read.diff matches Some(d) ==> d.to_write == count_at(
                at_key(v, "diff"@)->0,
                "to_write"@,
            ) && d.to_delete == count_at(at_key(v, "diff"@)->0, "to_delete"@) && d.unchanged
                == count_at(at_key(v, "diff"@)->0, "unchanged"@)
        }),
        tells_restore(read, line_views(printed)),
{
    lemma_tells_restore(report);
    let other = choose|r: RestoreReport| #[trigger]
        reports_restore(json(value), r) && match printed {
            Some(list) => restore_texts(r) == Some(views(list@)),
            None => restore_texts(r) is None,
        };
    lemma_tells_restore(other);
    lemma_tells_restore(read);
    assert(other.kind@ == read.kind@);
    assert(restore_texts(other) == restore_texts(read));
}

// ---- Show ------------------------------------------------------------------

/// The lines about a commit: what is known of it, each by its name, the parents in
/// brackets, and the message after an empty line.
pub proof fn law_metadata_lines(report: MetadataReport, lines: Vec<String>)
    requires
        call_ensures(metadata_lines, (&report,), lines),
    ensures
        ({
            let all = lines@.map_values(|s: String| s@);
            let n = |o: Option<String>| if o is Some {
                1int
            } else {
                0int
            };
            let a = n(report.oid);
            let b = a + n(report.tree);
            let c = b + n(report.author);
            let d = c + n(report.committer);
            let e = d + if report.parents is Some {
                1int
            } else {
                0int
            };
            &&& all.len() == e + 2 * n(report.message)
            &&& report.oid matches Some(t) ==> all[0] == "oid: "@ + t@
            &&& report.tree matches Some(t) ==> all[a] == "tree: "@ + t@
            &&& report.author matches Some(t) ==> all[b] == "author: "@ + t@
            &&& report.committer matches Some(t) ==> all[c] == "committer: "@ + t@
            &&& report.parents matches Some(p) ==> all[d] == "parents: ["@ + join_with(
                p@.map_values(|s: String| s@),
                ", "@,
            ) + "]"@
            &&& report.message matches Some(m) ==> all[e].len() == 0 && all[e + 1] == m@
        }),
{
    reveal_strlit("oid");
    reveal_strlit("tree");
    reveal_strlit("author");
    reveal_strlit("committer");
    reveal_strlit(": ");
    reveal_strlit("oid: ");
    reveal_strlit("tree: ");
    reveal_strlit("author: ");
    reveal_strlit("committer: ");
    assert("oid"@ + ": "@ =~= "oid: "@);
    assert("tree"@ + ": "@ =~= "tree: "@);
    assert("author"@ + ": "@ =~= "author: "@);
    assert("committer"@ + ": "@ =~= "committer: "@);
    assert(lines@.map_values(|s: String| s@) == views(lines@));
}

/// What is known of a commit is what the server replied: the values as they are printed,
/// the parents and the message where they are texts.
pub proof fn law_metadata_report(value: serde_json::Value, report: MetadataReport)
    requires
        call_ensures(metadata_report, (&value,), report),
    ensures
        ({
            let v = json(value);
            &&& report.oid is Some <==> at_key(v, "oid"@) is Some
            &&& report.oid matches Some(t) ==> t@ == at_key(v, "oid"@)->0.shown
            &&& report.tree is Some <==> at_key(v, "tree"@) is Some
            &&& report.tree matches Some(t) ==> t@ == at_key(v, "tree"@)->0.shown
            &&& report.author is Some <==> at_key(v, "author"@) is Some
            &&& report.author matches Some(t) ==> t@ == at_key(v, "author"@)->0.shown
            &&& report.committer is Some <==> at_key(v, "committer"@) is Some
            &&& report.committer matches Some(t) ==> t@ == at_key(v, "committer"@)->0.shown
            &&& report.message is Some <==> (at_key(v, "message"@) matches Some(m)
                && m.node is Text)
            &&& report.message matches Some(t) ==> t@ == text_at(v, "message"@)
            &&& report.parents is Some <==> (at_key(v, "parents"@) matches Some(p)
                && p.node is Array)
        }),
{
}

/// The parents are the texts of the list, in its order. What is printed of a commit is
/// what is known of it.
pub proof fn law_print_metadata(
    value: serde_json::Value,
    report: MetadataReport,
    printed: Vec<String>,
    lines: Vec<String>,
)
    requires
        call_ensures(metadata_report, (&value,), report),
        call_ensures(print_metadata, (&value,), printed),
        call_ensures(metadata_lines, (&report,), lines),
    ensures
        printed@.map_values(|s: String| s@) == lines@.map_values(|s: String| s@),
        at_key(json(value), "parents"@) matches Some(p) ==> (p.node matches JsonNode::Array(list)
            ==> (forall|i: int| 0 <= i < list.len() ==> (#[trigger] list[i]).node is Text) ==> (
        report.parents matches Some(names) && names@.len() == list.len() && forall|i: int|
            0 <= i < list.len() ==> JsonNode::Text((#[trigger] names@[i])@) == list[i].node)),
{
    let other = choose|r: MetadataReport| #[trigger]
        reports_commit(json(value), r) && views(printed@) == crate::snapshot::metadata_texts(r);
    assert(views(printed@) == printed@.map_values(|s: String| s@));
    assert(views(lines@) == lines@.map_values(|s: String| s@));
    lemma_same_metadata(other, report, json(value));
    if let Some(p) = at_key(json(value), "parents"@) {
        if let JsonNode::Array(list) = p.node {
            if forall|i: int| 0 <= i < list.len() ==> (#[trigger] list[i]).node is Text {
                lemma_all_texts(list);
                let names = report.parents->0;
                assert(views(names@).len() == list.len());
                assert forall|i: int| 0 <= i < list.len() implies JsonNode::Text(
                    (#[trigger] names@[i])@,
                ) == list[i].node by {
                    assert(views(names@)[i] == names@[i]@);
                }
            }
        }
    }
}

proof fn lemma_all_texts(list: Seq<JsonView>)
    requires
        forall|i: int| 0 <= i < list.len() ==> (#[trigger] list[i]).node is Text,
    ensures
        crate::snapshot::texts_among(list).len() == list.len(),
        forall|i: int|
            0 <= i < list.len() ==> JsonNode::Text(
                #[trigger] crate::snapshot::texts_among(list)[i],
            ) == list[i].node,
    decreases list.len(),
{
    if list.len() > 0 {
        let front = list.drop_last();
        assert forall|i: int| 0 <= i < front.len() implies (#[trigger] front[i]).node is Text by {
            assert(front[i] == list[i]);
        }
        lemma_all_texts(front);
        assert(list.last() == list[list.len() - 1]);
    }
}

proof fn lemma_same_metadata(a: MetadataReport, b: MetadataReport, value: JsonView)
    requires
        reports_commit(value, a),
        reports_commit(value, b),
    ensures
        crate::snapshot::metadata_texts(a) == crate::snapshot::metadata_texts(b),
{
    lemma_same_field("oid"@, a.oid, b.oid);
    lemma_same_field("tree"@, a.tree, b.tree);
    lemma_same_field("author"@, a.author, b.author);
    lemma_same_field("committer"@, a.committer, b.committer);
    assert(crate::snapshot::optional(a.message) == crate::snapshot::optional(b.message));
    assert(crate::snapshot::message_texts(a.message) =~= crate::snapshot::message_texts(b.message));
    assert(crate::snapshot::parents_texts(a.parents) =~= crate::snapshot::parents_texts(b.parents));
}

proof fn lemma_same_field(key: Seq<char>, a: Option<String>, b: Option<String>)
    requires
        crate::snapshot::optional(a) == crate::snapshot::optional(b),
    ensures
        crate::snapshot::field_texts(key, a) == crate::snapshot::field_texts(key, b),
{
    assert(crate::snapshot::field_texts(key, a) =~= crate::snapshot::field_texts(key, b));
}

/// The note about a file says how many bytes were read of which blob, and where they
/// were written.
pub proof fn law_blob_note(size: u64, oid: &str, path: Option<&str>, note: String)
    requires
        call_ensures(blob_note, (size, oid, path), note),
        is_ascii_chars(oid@),
    ensures
        ({
            let short = if oid@.len() < 12 {
                oid@
            } else {
                oid@.take(12)
            };
            exists|digits: Seq<char>|
                #![trigger writes_number(digits, size as int)]
                writes_number(digits, size as int) && note@ == match path {
                    Some(p) => "Wrote "@ + digits + " bytes from "@ + short + " to "@ + p@,
                    None => "Read "@ + digits + " bytes from "@ + short,
                }
        }),
{
    lemma_decimal(size as nat);
    vstd::utf8::is_ascii_chars_encode_utf8(oid@);
    if oid@.len() >= 12 {
        crate::snapshot::law_short_ascii(oid@);
    }
    assert(writes_number(decimal(size as nat), size as int));
}

/// A shown file is an envelope if and only if that is asked for, and its bytes go into a
/// file if and only if one is named.
pub proof fn law_show_output(as_json: bool, to_file: bool, out: ShowOutput)
    requires
        call_ensures(show_output, (as_json, to_file), out),
    ensures
        as_json <==> out == ShowOutput::Envelope || out == ShowOutput::EnvelopeAndFile,
        to_file <==> out == ShowOutput::FileAndNote || out == ShowOutput::EnvelopeAndFile,
{
}

// ---- Log -------------------------------------------------------------------

/// The first line of a message: everything before the first newline, without a carriage
/// return in front of that newline.
pub open spec fn is_first_line(message: Seq<char>, line: Seq<char>) -> bool {
    let n = line.len() as int;
    &&& !line.contains('\n')
    &&& n <= message.len()
    &&& message.take(n) == line
    &&& n < message.len() ==> (message[n] == '\n' && !(n > 0 && line[n - 1] == '\r')) || (
    message[n] == '\r' && n + 1 < message.len() && message[n + 1] == '\n')
}

proof fn lemma_line_end(s: Seq<char>)
    ensures
        0 <= line_end(s) <= s.len(),
        line_end(s) < s.len() ==> s[line_end(s)] == '\n',
        forall|i: int| 0 <= i < line_end(s) ==> #[trigger] s[i] != '\n',
    decreases s.len(),
{
    if s.len() > 0 && s[0] != '\n' {
        let rest = s.drop_first();
        lemma_line_end(rest);
        assert forall|i: int| 0 <= i < line_end(s) implies #[trigger] s[i] != '\n' by {
            if i > 0 {
                assert(rest[i - 1] == s[i]);
            }
        }
    }
}

proof fn lemma_first_line(s: Seq<char>)
    ensures
        is_first_line(s, first_line(s)),
{
    let end = line_end(s);
    let line = first_line(s);
    lemma_line_end(s);
    assert(!line.contains('\n')) by {
        if line.contains('\n') {
            let i = choose|i: int| 0 <= i < line.len() && line[i] == '\n';
            assert(s[i] == '\n');
        }
    }
    if end == s.len() {
        assert(line =~= s);
    }
    assert(s.take(line.len() as int) =~= line);
}

/// The subject of a message is its first line.
pub proof fn law_subject(message: &str, line: String)
    requires
        call_ensures(subject, (message,), line),
    ensures
        is_first_line(message@, line@),
{
    lemma_first_line(message@);
}

/// A line of the log: the short identifier, or the whole where it is too short, the
/// author filled up with spaces to twenty columns, and the first line of the message,
/// with two spaces in between.
pub open spec fn tells_entry(
    oid: Seq<char>,
    author: Seq<char>,
    message: Seq<char>,
    line: Seq<char>,
) -> bool {
    exists|short: Seq<char>, spaces: Seq<char>, first: Seq<char>|
        {
            &&& line == #[trigger] (short + "  "@ + author + spaces + "  "@ + first)
            &&& is_first_line(message, first)
            &&& forall|i: int| 0 <= i < spaces.len() ==> #[trigger] spaces[i] == ' '
            &&& spaces.len() == if author.len() >= 20 {
                0
            } else {
                20 - author.len()
            }
            &&& if encode_utf8(oid).len() >= 12 && is_char_boundary(encode_utf8(oid), 12) {
                encode_utf8(short) == encode_utf8(oid).take(12)
            } else {
                short == oid
            }
        }
}

proof fn lemma_tells_entry(oid: Seq<char>, author: Seq<char>, message: Seq<char>)
    ensures
        tells_entry(oid, author, message, crate::snapshot::log_text(oid, author, message)),
{
    let line = crate::snapshot::log_text(oid, author, message);
    let short = match short_of(oid) {
        Some(s) => s,
        None => oid,
    };
    let spaces = padded(author, 20).skip(author.len() as int);
    let first = first_line(message);
    lemma_first_line(message);
    lemma_is_short(oid);
    assert(padded(author, 20) =~= author + spaces);
    assert(line =~= short + "  "@ + author + spaces + "  "@ + first);
}

/// A line of the log tells of its entry.
pub proof fn law_log_line(oid: &str, author: &str, message: &str, line: String)
    requires
        call_ensures(log_line, (oid, author, message), line),
    ensures
        tells_entry(oid@, author@, message@, line@),
{
    lemma_tells_entry(oid@, author@, message@);
}

/// The name of an author: what stands at `name`, or else the author itself, where it is
/// a text.
pub open spec fn author_of(entry: JsonView) -> Seq<char> {
    match at_key(entry, "author"@) {
        None => Seq::empty(),
        Some(a) => match at_key(a, "name"@) {
            Some(_) => text_at(a, "name"@),
            None => match a.node {
                JsonNode::Text(t) => t,
                _ => Seq::empty(),
            },
        },
    }
}

/// The log has a line for each entry of the reply, in its order.
pub proof fn law_print_log(value: serde_json::Value, lines: Vec<String>)
    requires
        call_ensures(print_log, (&value,), lines),
    ensures
        match json(value).node {
            JsonNode::Array(list) => lines@.len() == list.len() && forall|i: int|
                0 <= i < list.len() ==> tells_entry(
                    text_at(list[i], "oid"@),
                    author_of(list[i]),
                    text_at(list[i], "message"@),
                    (#[trigger] lines@[i])@,
                ),
            _ => lines@.len() == 0,
        },
{
    let all = crate::snapshot::elements(Some(json(value)));
    let texts = all.map_values(|e: JsonView| crate::snapshot::entry_text(e));
    assert(views(lines@).len() == texts.len());
    if let JsonNode::Array(list) = json(value).node {
        assert forall|i: int| 0 <= i < list.len() implies tells_entry(
            text_at(list[i], "oid"@),
            author_of(list[i]),
            text_at(list[i], "message"@),
            (#[trigger] lines@[i])@,
        ) by {
            assert(views(lines@)[i] == texts[i]);
            lemma_tells_entry(
                text_at(list[i], "oid"@),
                author_of(list[i]),
                text_at(list[i], "message"@),
            );
        }
    }
}

// ---- Messages --------------------------------------------------------------

/// An identifier in a message, or that there is none.
pub open spec fn told_oid(oid: Option<ObjectId>) -> Seq<char> {
    if oid is None {
        "None"@
    } else {
        "Some(Sha1("@ + hex(oid->0.bytes@) + "))"@
    }
}

/// The messages of the stores say what went wrong, and with what.
pub proof fn law_store_messages(
    r: RefStoreError,
    rt: String,
    o: ObjectStoreError,
    ot: String,
    i: IndexStoreError,
    it: String,
)
    requires
        call_ensures(RefStoreError::message, (&r,), rt),
        call_ensures(ObjectStoreError::message, (&o,), ot),
        call_ensures(IndexStoreError::message, (&i,), it),
    ensures
        r matches RefStoreError::NotFound(t) ==> rt@ == "ref not found: "@ + t@,
        r matches RefStoreError::InvalidName(t) ==> rt@ == "invalid ref name: "@ + t@,
        r matches RefStoreError::Conflict { expected, actual } ==> rt@
            == "CAS conflict: expected "@ + told_oid(expected) + ", actual "@ + told_oid(actual),
        r matches RefStoreError::Io(t) ==> rt@ == "backend io: "@ + t@,
        r matches RefStoreError::Backend(t) ==> rt@ == "backend: "@ + t@,
        o matches ObjectStoreError::NotFound(x) ==> ot@ == "object not found: "@ + hex(x.bytes@),
        o matches ObjectStoreError::Io(t) ==> ot@ == "backend io: "@ + t@,
        o matches ObjectStoreError::Zlib(t) ==> ot@ == "zlib decode: "@ + t@,
        o matches ObjectStoreError::Backend(t) ==> ot@ == "backend error: "@ + t@,
        o matches ObjectStoreError::OidMismatch { expected, actual } ==> ot@
            == "oid mismatch: expected "@ + hex(expected.bytes@) + ", got "@ + hex(actual.bytes@),
        i matches IndexStoreError::Io(t) ==> it@ == "i/o error: "@ + t@,
        i matches IndexStoreError::Decode(t) ==> it@ == "decode error: "@ + t@,
        i matches IndexStoreError::InvalidBranch(t) ==> it@ == "invalid branch name: "@ + t@,
        i matches IndexStoreError::Backend(t) ==> it@ == "backend error: "@ + t@,
{
}

/// The messages of the service say what went wrong, and with what; those of the stores
/// are passed on.
pub proof fn law_service_messages(e: GitError, text: String, r: String, o: String)
    requires
        call_ensures(GitError::message, (&e,), text),
        e matches GitError::RefStore(x) ==> call_ensures(RefStoreError::message, (&x,), r),
        e matches GitError::ObjectStore(x) ==> call_ensures(ObjectStoreError::message, (&x,), o),
    ensures
        e is RefStore ==> text@ == r@,
        e is ObjectStore ==> text@ == o@,
        e matches GitError::Other(t) ==> text@ == t@,
        e matches GitError::PathNotFound(t) ==> text@ == "path not found: "@ + t@,
        e matches GitError::PathIsDirectory(t) ==> text@ == "path is a directory: "@ + t@,
        e matches GitError::CorruptedObject(t) ==> text@ == "corrupted object: "@ + t@,
        e matches GitError::InvalidProjectDir(t) ==> text@ == "invalid project_dir: "@ + t@,
        e matches GitError::ConcurrentCommit { ref_name, expected, actual } ==> text@
            == "concurrent commit on "@ + ref_name@ + ": expected "@ + told_oid(expected)
            + ", actual "@ + told_oid(actual),
        e matches GitError::AmbiguousOid { prefix, count, candidates } ==> text@
            == "ambiguous oid prefix "@ + prefix@ + ": "@ + decimal(count as nat)
            + " candidates: "@ + candidates@,
        e matches GitError::IgnoreFileTooLarge { path, size, max } ==> text@ == "ignore file "@
            + path@ + " is too large: "@ + decimal(size as nat) + " bytes, at most "@ + decimal(
            max as nat,
        ),
        e matches GitError::OidPrefixNotFound { prefix } ==> text@
            == "no commit matches oid prefix "@ + prefix@,
        e matches GitError::SubtreeNotFoundInCommit { project_dir, commit } ==> text@ == "subtree "@
            + project_dir@ + " not found in commit "@ + hex(commit.bytes@),
        e matches GitError::InvalidIgnoreFile { path, reason } ==> text@ == "invalid ignore file "@
            + path@ + ": "@ + reason@,
        e matches GitError::Vfs(FsError::NotFound(t)) ==> text@ == "vfs: not found: "@ + t@,
        e matches GitError::Vfs(FsError::Failed(t)) ==> text@ == "vfs: "@ + t@,
{
}

/// The message about a text that is no identifier.
pub proof fn law_hex_error_text(e: HexError, text: String)
    requires
        call_ensures(hex_error_text, (e,), text),
    ensures
        match e {
            HexError::Length(n) => exists|digits: Seq<char>|
                #![trigger writes_number(digits, n as int)]
                writes_number(digits, n as int) && text@ == "A hash sized "@ + digits
                    + " hexadecimal characters is invalid"@,
            HexError::Digit => text@ == "Invalid character encountered"@,
        },
{
    if let HexError::Length(n) = e {
        lemma_decimal(n as nat);
        assert(writes_number(decimal(n as nat), n as int));
    }
}

} // verus!
