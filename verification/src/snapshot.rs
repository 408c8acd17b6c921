//! What the command line prints about snapshots.

use crate::text::{
    cat2, cat3, cat4, cat5, chars_of, decimal, decimal_text, join_texts, join_with, same_text,
    text_of, views,
};
use vstd::prelude::*;
use vstd::utf8::{decode_utf8, encode_utf8, is_char_boundary};

verus! {

// ---- Replies of the server --------------------------------------------------

/// A JSON value.
#[verifier::external_type_specification]
#[verifier::external_body]
pub struct ExValue(serde_json::Value);

/// What a JSON value holds, and how it is printed.
pub struct JsonView {
    pub shown: Seq<char>,
    pub node: JsonNode,
}

/// What a JSON value holds, as far as it is looked at.
pub enum JsonNode {
    /// A whole number that is not negative and fits in 64 bits.
    Number(u64),
    Text(Seq<char>),
    Array(Seq<JsonView>),
    Object(Map<Seq<char>, JsonView>),
    /// Anything else.
    Other,
}

/// What a JSON value holds, and how it is printed.
pub uninterp spec fn json(value: serde_json::Value) -> JsonView;

/// What the values of a list hold.
pub open spec fn jsons(list: Seq<serde_json::Value>) -> Seq<JsonView> {
    list.map_values(|v: serde_json::Value| json(v))
}

/// The value at a key: an object that has it gives it, anything else has none.
pub open spec fn field(value: JsonView, key: Seq<char>) -> Option<JsonView> {
    match value.node {
        JsonNode::Object(map) => if map.contains_key(key) {
            Some(map[key])
        } else {
            None
        },
        _ => None,
    }
}

/// The text that a value is, if it is one.
pub open spec fn text_in(value: Option<JsonView>) -> Option<Seq<char>> {
    match value {
        Some(JsonView { node: JsonNode::Text(t), .. }) => Some(t),
        _ => None,
    }
}

/// The text that a value is, or the empty text.
pub open spec fn text_or_empty(value: Option<JsonView>) -> Seq<char> {
    match text_in(value) {
        Some(t) => t,
        None => Seq::empty(),
    }
}

/// The number that a value is, or zero.
pub open spec fn number_or_zero(value: Option<JsonView>) -> u64 {
    match value {
        Some(JsonView { node: JsonNode::Number(n), .. }) => n,
        _ => 0,
    }
}

/// The elements of an array; anything else has none.
pub open spec fn elements(value: Option<JsonView>) -> Seq<JsonView> {
    match value {
        Some(JsonView { node: JsonNode::Array(list), .. }) => list,
        _ => Seq::empty(),
    }
}

/// `serde_json::Value::get` with a string: the value at the key of an object, and
/// nothing for a missing key or anything but an object.
#[verifier::external_body]
fn json_get<'a>(value: &'a serde_json::Value, key: &str) -> (found: Option<&'a serde_json::Value>)
    ensures
        match found {
            Some(v) => field(json(*value), key@) == Some(json(*v)),
            None => field(json(*value), key@) is None,
        },
{
    value.get(key)
}

/// `serde_json::Value::as_str`: the text that the value is, if it is one.
#[verifier::external_body]
fn json_str(value: &serde_json::Value) -> (text: Option<&str>)
    ensures
        match text {
            Some(t) => json(*value).node == JsonNode::Text(t@),
            None => !(json(*value).node is Text),
        },
{
    value.as_str()
}

/// `serde_json::Value::as_u64`: the number that the value is, if it is a whole one
/// that fits.
#[verifier::external_body]
fn json_u64(value: &serde_json::Value) -> (number: Option<u64>)
    ensures
        match number {
            Some(n) => json(*value).node == JsonNode::Number(n),
            None => !(json(*value).node is Number),
        },
{
    value.as_u64()
}

/// `serde_json::Value::as_array`: the elements of an array, in their order.
#[verifier::external_body]
fn json_array(value: &serde_json::Value) -> (list: Option<&Vec<serde_json::Value>>)
    ensures
        match list {
            Some(l) => json(*value).node == JsonNode::Array(jsons(l@)),
            None => !(json(*value).node is Array),
        },
{
    value.as_array()
}

/// `serde_json::Value`, displayed: the value as it is printed.
#[verifier::external_body]
fn json_text(value: &serde_json::Value) -> (text: String)
    ensures
        text@ == json(*value).shown,
{
    value.to_string()
}

fn get_text(value: &serde_json::Value, key: &str) -> (text: String)
    ensures
        text@ == text_or_empty(field(json(*value), key@)),
{
    if let Some(v) = json_get(value, key) {
        if let Some(t) = json_str(v) {
            return t.to_owned();
        }
    }
    let none = String::new();
    assert(none@ =~= Seq::<char>::empty());
    none
}

fn get_number(value: &serde_json::Value, key: &str) -> (number: u64)
    ensures
        number == number_or_zero(field(json(*value), key@)),
{
    match json_get(value, key) {
        Some(v) => match json_u64(v) {
            Some(n) => n,
            None => 0,
        },
        None => 0,
    }
}

fn count_elements(value: &serde_json::Value, key: &str) -> (count: u64)
    ensures
        count == elements(field(json(*value), key@)).len(),
{
    match json_get(value, key) {
        Some(v) => match json_array(v) {
            Some(list) => {
                assert(list@.len() == list.len());
                list.len() as u64
            },
            None => 0,
        },
        None => 0,
    }
}

// ---- Short identifiers -----------------------------------------------------

/// The first twelve bytes of an identifier, if there are as many and the cut
/// falls between two characters.
pub open spec fn short_of(oid: Seq<char>) -> Option<Seq<char>> {
    let bytes = encode_utf8(oid);
    if bytes.len() >= 12 && is_char_boundary(bytes, 12) {
        Some(decode_utf8(bytes.take(12)))
    } else {
        None
    }
}

/// The first twelve bytes of an identifier, if there are as many and the cut
/// falls between two characters.
pub fn shorten(oid: &str) -> (short: Option<String>)
    ensures
        match short {
            Some(s) => short_of(oid@) == Some(s@),
            None => short_of(oid@) is None,
        },
{
    if oid.as_bytes().len() >= 12 && oid.is_char_boundary(12) {
        let (first, _) = oid.split_at(12);
        proof {
            assert(encode_utf8(first@) =~= encode_utf8(oid@).take(12));
            vstd::utf8::encode_utf8_decode_utf8(first@);
        }
        Some(first.to_owned())
    } else {
        None
    }
}

/// An identifier in ASCII is cut after its first twelve characters.
pub proof fn law_short_ascii(oid: Seq<char>)
    requires
        vstd::utf8::is_ascii_chars(oid),
        oid.len() >= 12,
    ensures
        short_of(oid) == Some(oid.take(12)),
{
    let bytes = encode_utf8(oid);
    let first = oid.take(12);
    vstd::utf8::is_ascii_chars_encode_utf8(oid);
    assert forall|i: int| 0 <= i < first.len() implies '\0' <= #[trigger] first[i] <= '\u{7f}' by {
        assert(first[i] == oid[i]);
    }
    vstd::utf8::is_ascii_chars_encode_utf8(first);
    assert(encode_utf8(first) =~= bytes.take(12)) by {
        assert forall|i: int| 0 <= i < 12 implies encode_utf8(first)[i] == bytes[i] by {
            assert(first[i] == oid[i]);
        }
    }
    vstd::utf8::encode_utf8_decode_utf8(first);
    vstd::utf8::encode_utf8_valid_utf8(oid);
    if bytes.len() == 12 {
        vstd::utf8::is_char_boundary_start_end_of_seq(bytes);
    } else {
        vstd::utf8::is_char_boundary_iff_is_leading_byte(bytes, 12);
        assert(bytes[12] == oid[12] as u8);
    }
}

// ---- Commit ----------------------------------------------------------------

/// The line about a commit.
pub open spec fn commit_text(kind: Seq<char>, oid: Seq<char>, changed: nat) -> Seq<char> {
    if kind == "created"@ {
        "Created "@ + oid + " ("@ + decimal(changed) + " files changed)"@
    } else if kind == "noop"@ {
        "No changes — nothing to commit"@
    } else {
        oid
    }
}

/// The line about a commit: `kind` is `created` or `noop`.
pub fn commit_line(kind: &str, oid: &str, changed: u64) -> (line: String)
    ensures
        line@ == commit_text(kind@, oid@, changed as nat),
{
    if same_text(kind, "created") {
        cat5("Created ", oid, " (", decimal_text(changed).as_str(), " files changed)")
    } else if same_text(kind, "noop") {
        "No changes — nothing to commit".to_owned()
    } else {
        oid.to_owned()
    }
}

/// The line about a commit, from the reply of the server.
pub fn print_commit(value: &serde_json::Value) -> (line: String)
    ensures
        line@ == commit_text(
            text_or_empty(field(json(*value), "result"@)),
            text_or_empty(field(json(*value), "commit_oid"@)),
            number_or_zero(field(json(*value), "changed"@)) as nat,
        ),
{
    commit_line(
        get_text(value, "result").as_str(),
        get_text(value, "commit_oid").as_str(),
        get_number(value, "changed"),
    )
}

// ---- Restore ---------------------------------------------------------------

/// The numbers of files in a difference.
#[derive(Debug, Clone, Copy, PartialEq, Eq)]
pub struct DiffCounts {
    pub to_write: u64,
    pub to_delete: u64,
    pub unchanged: u64,
}

/// What is known of a restore.
#[derive(Debug, Clone, PartialEq, Eq)]
pub struct RestoreReport {
    /// The difference, where it was a dry run.
    pub diff: Option<DiffCounts>,
    /// `applied` or `noop`, where it was none.
    pub kind: String,
    pub new_commit_oid: String,
    pub source_commit: String,
    pub written: u64,
    pub deleted: u64,
    pub unchanged: u64,
}

/// A short identifier, or nothing.
pub open spec fn short_or_empty(oid: Seq<char>) -> Seq<char> {
    match short_of(oid) {
        Some(s) => s,
        None => Seq::empty(),
    }
}

fn shorten_or_empty(oid: &str) -> (short: String)
    ensures
        short@ == short_or_empty(oid@),
{
    match shorten(oid) {
        Some(s) => s,
        None => {
            let none = String::new();
            assert(none@ =~= Seq::<char>::empty());
            none
        },
    }
}

/// The line about a restore that was carried out.
pub open spec fn applied_text(report: RestoreReport) -> Seq<char> {
    ("Restored from "@ + short_or_empty(report.source_commit@) + " as "@ + short_or_empty(
        report.new_commit_oid@,
    ) + " ("@) + decimal(report.written as nat) + " written, "@ + (decimal(report.deleted as nat)
        + " deleted, "@ + decimal(report.unchanged as nat) + " unchanged)"@)
}

/// The lines about a restore; `None` where its outcome is printed as it came.
pub open spec fn restore_texts(report: RestoreReport) -> Option<Seq<Seq<char>>> {
    match report.diff {
        Some(d) => Some(
            seq![
                "Dry-run:"@,
                "  to_write:  "@ + decimal(d.to_write as nat),
                "  to_delete: "@ + decimal(d.to_delete as nat),
                "  unchanged: "@ + decimal(d.unchanged as nat),
            ],
        ),
        None => if report.kind@ == "applied"@ {
            Some(seq![applied_text(report)])
        } else if report.kind@ == "noop"@ {
            Some(seq!["Already at source — no changes"@])
        } else {
            None
        },
    }
}

/// The lines about a restore; `None` where its outcome is printed as it came.
pub fn restore_lines(report: &RestoreReport) -> (lines: Option<Vec<String>>)
    ensures
        match lines {
            Some(list) => restore_texts(*report) == Some(views(list@)),
            None => restore_texts(*report) is None,
        },
{
    let mut lines: Vec<String> = Vec::new();
    match &report.diff {
        Some(d) => {
            lines.push("Dry-run:".to_owned());
            lines.push(cat2("  to_write:  ", decimal_text(d.to_write).as_str()));
            lines.push(cat2("  to_delete: ", decimal_text(d.to_delete).as_str()));
            lines.push(cat2("  unchanged: ", decimal_text(d.unchanged).as_str()));
            assert(views(lines@) =~= restore_texts(*report)->0);
            Some(lines)
        },
        None => if same_text(report.kind.as_str(), "applied") {
            let front = cat5(
                "Restored from ",
                shorten_or_empty(report.source_commit.as_str()).as_str(),
                " as ",
                shorten_or_empty(report.new_commit_oid.as_str()).as_str(),
                " (",
            );
            let back = cat4(
                decimal_text(report.deleted).as_str(),
                " deleted, ",
                decimal_text(report.unchanged).as_str(),
                " unchanged)",
            );
            lines.push(
                cat4(
                    front.as_str(),
                    decimal_text(report.written).as_str(),
                    " written, ",
                    back.as_str(),
                ),
            );
            assert(views(lines@) =~= restore_texts(*report)->0);
            Some(lines)
        } else if same_text(report.kind.as_str(), "noop") {
            lines.push("Already at source — no changes".to_owned());
            assert(views(lines@) =~= restore_texts(*report)->0);
            Some(lines)
        } else {
            None
        },
    }
}

/// `report` is what the reply of the server says of a restore.
pub open spec fn reports_restore(value: JsonView, report: RestoreReport) -> bool {
    &&& match (field(value, "diff"@), report.diff) {
        (Some(diff), Some(d)) => {
            &&& d.to_write == elements(field(diff, "to_write"@)).len()
            &&& d.to_delete == elements(field(diff, "to_delete"@)).len()
            &&& d.unchanged == elements(field(diff, "unchanged"@)).len()
        },
        (None, None) => true,
        _ => false,
    }
    &&& report.kind@ == text_or_empty(field(value, "result"@))
    &&& report.new_commit_oid@ == text_or_empty(field(value, "new_commit_oid"@))
    &&& report.source_commit@ == text_or_empty(field(value, "source_commit"@))
    &&& report.written == number_or_zero(field(value, "written"@))
    &&& report.deleted == number_or_zero(field(value, "deleted"@))
    &&& report.unchanged == number_or_zero(field(value, "unchanged"@))
}

/// What the reply of the server says of a restore.
pub fn restore_report(value: &serde_json::Value) -> (report: RestoreReport)
    ensures
        reports_restore(json(*value), report),
{
    let diff = match json_get(value, "diff") {
        Some(diff) => Some(
            DiffCounts {
                to_write: count_elements(diff, "to_write"),
                to_delete: count_elements(diff, "to_delete"),
                unchanged: count_elements(diff, "unchanged"),
            },
        ),
        None => None,
    };
    RestoreReport {
        diff,
        kind: get_text(value, "result"),
        new_commit_oid: get_text(value, "new_commit_oid"),
        source_commit: get_text(value, "source_commit"),
        written: get_number(value, "written"),
        deleted: get_number(value, "deleted"),
        unchanged: get_number(value, "unchanged"),
    }
}

/// The lines about a restore, from the reply of the server; `None` where the
/// reply is printed as it came.
pub fn print_restore(value: &serde_json::Value) -> (lines: Option<Vec<String>>)
    ensures
        exists|report: RestoreReport| #[trigger]
            reports_restore(json(*value), report) && match lines {
                Some(list) => restore_texts(report) == Some(views(list@)),
                None => restore_texts(report) is None,
            },
{
    let report = restore_report(value);
    assert(reports_restore(json(*value), report));
    restore_lines(&report)
}

// ---- Show ------------------------------------------------------------------

/// What is known of a commit, each value as it is printed.
#[derive(Debug, Clone, PartialEq, Eq)]
pub struct MetadataReport {
    pub oid: Option<String>,
    pub tree: Option<String>,
    pub author: Option<String>,
    pub committer: Option<String>,
    pub parents: Option<Vec<String>>,
    pub message: Option<String>,
}

/// The line about a value, where there is one.
pub open spec fn field_texts(key: Seq<char>, value: Option<String>) -> Seq<Seq<char>> {
    match value {
        Some(v) => seq![key + ": "@ + v@],
        None => Seq::empty(),
    }
}

/// The line about the parents, where they are known.
pub open spec fn parents_texts(parents: Option<Vec<String>>) -> Seq<Seq<char>> {
    match parents {
        Some(list) => seq!["parents: ["@ + join_with(views(list@), ", "@) + "]"@],
        None => Seq::empty(),
    }
}

/// The message after an empty line, where there is one.
pub open spec fn message_texts(message: Option<String>) -> Seq<Seq<char>> {
    match message {
        Some(m) => seq![Seq::empty(), m@],
        None => Seq::empty(),
    }
}

/// The lines about a commit.
pub open spec fn metadata_texts(report: MetadataReport) -> Seq<Seq<char>> {
    field_texts("oid"@, report.oid) + field_texts("tree"@, report.tree) + field_texts(
        "author"@,
        report.author,
    ) + field_texts("committer"@, report.committer) + parents_texts(report.parents)
        + message_texts(report.message)
}

fn push_field(lines: &mut Vec<String>, key: &str, value: &Option<String>)
    ensures
        views(final(lines)@) == views(old(lines)@) + field_texts(key@, *value),
{
    let ghost before = lines@;
    match value {
        Some(v) => {
            lines.push(cat3(key, ": ", v.as_str()));
            assert(views(lines@) =~= views(before) + field_texts(key@, *value));
        },
        None => {
            assert(views(lines@) =~= views(before) + field_texts(key@, *value));
        },
    }
}

/// The lines about a commit.
pub fn metadata_lines(report: &MetadataReport) -> (lines: Vec<String>)
    ensures
        views(lines@) == metadata_texts(*report),
{
    let mut lines: Vec<String> = Vec::new();
    assert(views(lines@) =~= Seq::<Seq<char>>::empty());
    push_field(&mut lines, "oid", &report.oid);
    push_field(&mut lines, "tree", &report.tree);
    push_field(&mut lines, "author", &report.author);
    push_field(&mut lines, "committer", &report.committer);
    assert(views(lines@) =~= field_texts("oid"@, report.oid) + field_texts("tree"@, report.tree)
        + field_texts("author"@, report.author) + field_texts("committer"@, report.committer));
    let ghost fields = lines@;
    if let Some(parents) = &report.parents {
        lines.push(cat3("parents: [", join_texts(parents, ", ").as_str(), "]"));
    }
    assert(views(lines@) =~= views(fields) + parents_texts(report.parents));
    let ghost above = lines@;
    if let Some(message) = &report.message {
        let blank = String::new();
        assert(blank@ =~= Seq::<char>::empty());
        lines.push(blank);
        lines.push(message.clone());
    }
    assert(views(lines@) =~= views(above) + message_texts(report.message));
    lines
}

/// A value as it is printed, where there is one.
pub open spec fn shown_field(value: JsonView, key: Seq<char>) -> Option<Seq<char>> {
    match field(value, key) {
        Some(v) => Some(v.shown),
        None => None,
    }
}

/// The texts among the elements of a list.
pub open spec fn texts_among(list: Seq<JsonView>) -> Seq<Seq<char>>
    decreases list.len(),
{
    if list.len() == 0 {
        Seq::empty()
    } else {
        match text_in(Some(list.last())) {
            Some(t) => texts_among(list.drop_last()).push(t),
            None => texts_among(list.drop_last()),
        }
    }
}

/// The view of a text that may be absent.
pub open spec fn optional(text: Option<String>) -> Option<Seq<char>> {
    match text {
        Some(t) => Some(t@),
        None => None,
    }
}

/// `report` is what the reply of the server says of a commit.
pub open spec fn reports_commit(value: JsonView, report: MetadataReport) -> bool {
    &&& optional(report.oid) == shown_field(value, "oid"@)
    &&& optional(report.tree) == shown_field(value, "tree"@)
    &&& optional(report.author) == shown_field(value, "author"@)
    &&& optional(report.committer) == shown_field(value, "committer"@)
    &&& match (field(value, "parents"@), report.parents) {
        (Some(JsonView { node: JsonNode::Array(list), .. }), Some(names)) => views(names@)
            == texts_among(list),
        (Some(JsonView { node: JsonNode::Array(_), .. }), None) => false,
        (_, p) => p is None,
    }
    &&& optional(report.message) == text_in(field(value, "message"@))
}

fn get_shown(value: &serde_json::Value, key: &str) -> (text: Option<String>)
    ensures
        optional(text) == shown_field(json(*value), key@),
{
    match json_get(value, key) {
        Some(v) => Some(json_text(v)),
        None => None,
    }
}

fn texts_of(list: &Vec<serde_json::Value>) -> (texts: Vec<String>)
    ensures
        views(texts@) == texts_among(jsons(list@)),
{
    let ghost all = jsons(list@);
    let mut texts: Vec<String> = Vec::new();
    let mut i: usize = 0;
    assert(all.take(0) =~= Seq::<JsonView>::empty());
    assert(views(texts@) =~= Seq::<Seq<char>>::empty());
    while i < list.len()
        invariant
            all == jsons(list@),
            i <= list@.len(),
            views(texts@) == texts_among(all.take(i as int)),
        decreases list.len() - i,
    {
        let ghost before = texts@;
        proof {
            assert(all.take(i + 1).drop_last() =~= all.take(i as int));
            assert(all.take(i + 1).last() == json(list@[i as int]));
        }
        if let Some(t) = json_str(&list[i]) {
            texts.push(t.to_owned());
            assert(views(texts@) =~= views(before).push(t@));
        }
        i = i + 1;
    }
    assert(all.take(i as int) =~= all);
    texts
}

/// What the reply of the server says of a commit.
pub fn metadata_report(value: &serde_json::Value) -> (report: MetadataReport)
    ensures
        reports_commit(json(*value), report),
{
    let parents = match json_get(value, "parents") {
        Some(v) => match json_array(v) {
            Some(list) => Some(texts_of(list)),
            None => None,
        },
        None => None,
    };
    let message = match json_get(value, "message") {
        Some(v) => match json_str(v) {
            Some(t) => Some(t.to_owned()),
            None => None,
        },
        None => None,
    };
    MetadataReport {
        oid: get_shown(value, "oid"),
        tree: get_shown(value, "tree"),
        author: get_shown(value, "author"),
        committer: get_shown(value, "committer"),
        parents,
        message,
    }
}

/// The lines about a commit, from the reply of the server.
pub fn print_metadata(value: &serde_json::Value) -> (lines: Vec<String>)
    ensures
        exists|report: MetadataReport| #[trigger]
            reports_commit(json(*value), report) && views(lines@) == metadata_texts(report),
{
    let report = metadata_report(value);
    assert(reports_commit(json(*value), report));
    metadata_lines(&report)
}

/// An identifier that is cut for the note about a file: one of fewer than twelve
/// bytes is not cut.
pub open spec fn note_oid(oid: Seq<char>) -> Seq<char> {
    if encode_utf8(oid).len() < 12 {
        oid
    } else {
        short_or_empty(oid)
    }
}

/// The note about a file.
pub open spec fn blob_note_text(size: nat, oid: Seq<char>, path: Option<Seq<char>>) -> Seq<char> {
    match path {
        Some(p) => ("Wrote "@ + decimal(size) + " bytes from "@ + note_oid(oid) + " to "@) + p,
        None => "Read "@ + decimal(size) + " bytes from "@ + note_oid(oid),
    }
}

/// The note about a file that was written to `path`, or read.
pub fn blob_note(size: u64, oid: &str, path: Option<&str>) -> (note: String)
    requires
        encode_utf8(oid@).len() >= 12 ==> is_char_boundary(encode_utf8(oid@), 12),
    ensures
        note@ == blob_note_text(
            size as nat,
            oid@,
            match path {
                Some(p) => Some(p@),
                None => None,
            },
        ),
{
    let short = if oid.as_bytes().len() < 12 {
        oid.to_owned()
    } else {
        shorten_or_empty(oid)
    };
    let number = decimal_text(size);
    match path {
        Some(p) => cat2(
            cat5("Wrote ", number.as_str(), " bytes from ", short.as_str(), " to ").as_str(),
            p,
        ),
        None => cat4("Read ", number.as_str(), " bytes from ", short.as_str()),
    }
}

/// Where a file that is shown goes.
#[derive(Debug, Clone, Copy, PartialEq, Eq, Structural)]
pub enum ShowOutput {
    /// Its bytes on the standard output, and the note.
    BytesAndNote,
    /// Its bytes into a file, and the note.
    FileAndNote,
    /// What it is, as an envelope.
    Envelope,
    /// The envelope, and its bytes into a file.
    EnvelopeAndFile,
}

/// Where a file that is shown goes: as an envelope where that is asked for, and
/// into a file where one is named.
pub fn show_output(as_json: bool, to_file: bool) -> (out: ShowOutput)
    ensures
        out == match (as_json, to_file) {
            (false, false) => ShowOutput::BytesAndNote,
            (false, true) => ShowOutput::FileAndNote,
            (true, false) => ShowOutput::Envelope,
            (true, true) => ShowOutput::EnvelopeAndFile,
        },
{
    match (as_json, to_file) {
        (false, false) => ShowOutput::BytesAndNote,
        (false, true) => ShowOutput::FileAndNote,
        (true, false) => ShowOutput::Envelope,
        (true, true) => ShowOutput::EnvelopeAndFile,
    }
}

// ---- Log -------------------------------------------------------------------

/// The first position of a newline, or the length.
pub open spec fn line_end(s: Seq<char>) -> int
    decreases s.len(),
{
    if s.len() == 0 || s[0] == '\n' {
        0
    } else {
        1 + line_end(s.drop_first())
    }
}

/// The first line of a message; a carriage return before the newline belongs to
/// the end of the line.
pub open spec fn first_line(s: Seq<char>) -> Seq<char> {
    let end = line_end(s);
    let line = s.take(end);
    if end < s.len() && line.len() > 0 && line.last() == '\r' {
        line.drop_last()
    } else {
        line
    }
}

/// The first line of a message.
pub fn subject(message: &str) -> (line: String)
    ensures
        line@ == first_line(message@),
{
    let chars = chars_of(message);
    let mut end: usize = 0;
    assert(message@.skip(0) =~= message@);
    while end < chars.len() && chars[end] != '\n'
        invariant
            chars@ == message@,
            end <= chars@.len(),
            line_end(message@) == end + line_end(message@.skip(end as int)),
        decreases chars.len() - end,
    {
        assert(message@.skip(end as int).drop_first() =~= message@.skip(end + 1));
        assert(message@.skip(end as int)[0] == message@[end as int]);
        end = end + 1;
    }
    assert(line_end(message@) == end) by {
        if end < message@.len() {
            assert(message@.skip(end as int)[0] == message@[end as int]);
        }
    }
    let ghost line = message@.take(end as int);
    if end < chars.len() && end > 0 && chars[end - 1] == '\r' {
        assert(message@.subrange(0, end - 1) =~= line.drop_last());
        text_of(chars.as_slice(), 0, end - 1)
    } else {
        assert(message@.subrange(0, end as int) =~= line);
        text_of(chars.as_slice(), 0, end)
    }
}

/// The text with spaces behind it, at least `width` characters in all.
pub open spec fn padded(s: Seq<char>, width: nat) -> Seq<char> {
    if s.len() >= width {
        s
    } else {
        s + Seq::new((width - s.len()) as nat, |i: int| ' ')
    }
}

fn pad(s: &str, width: usize) -> (text: String)
    ensures
        text@ == padded(s@, width as nat),
{
    let mut text = s.to_owned();
    let mut n: usize = s.unicode_len();
    while n < width
        invariant
            n == text@.len(),
            s@.len() <= n,
            n <= width || n == s@.len(),
            text@ == s@ + Seq::new((n - s@.len()) as nat, |i: int| ' '),
        decreases width - n,
    {
        text.push(' ');
        n = n + 1;
        assert(text@ =~= s@ + Seq::new((n - s@.len()) as nat, |i: int| ' '));
    }
    assert(text@ =~= padded(s@, width as nat));
    text
}

/// The line of the log about a commit: the short identifier, the author in
/// twenty columns, and the first line of the message.
pub open spec fn log_text(oid: Seq<char>, author: Seq<char>, message: Seq<char>) -> Seq<char> {
    (match short_of(oid) {
        Some(s) => s,
        None => oid,
    }) + "  "@ + padded(author, 20) + "  "@ + first_line(message)
}

/// The line of the log about a commit.
pub fn log_line(oid: &str, author: &str, message: &str) -> (line: String)
    ensures
        line@ == log_text(oid@, author@, message@),
{
    let short = match shorten(oid) {
        Some(s) => s,
        None => oid.to_owned(),
    };
    cat5(
        short.as_str(),
        "  ",
        pad(author, 20).as_str(),
        "  ",
        subject(message).as_str(),
    )
}

/// The name of an author: the value at `name` where there is one, else the author
/// itself; in either case only a text counts.
pub open spec fn author_name(author: Option<JsonView>) -> Seq<char> {
    match author {
        Some(a) => match field(a, "name"@) {
            Some(name) => text_or_empty(Some(name)),
            None => text_or_empty(Some(a)),
        },
        None => Seq::empty(),
    }
}

/// The line of the log about an entry.
pub open spec fn entry_text(entry: JsonView) -> Seq<char> {
    log_text(
        text_or_empty(field(entry, "oid"@)),
        author_name(field(entry, "author"@)),
        text_or_empty(field(entry, "message"@)),
    )
}

fn get_author(entry: &serde_json::Value) -> (name: String)
    ensures
        name@ == author_name(field(json(*entry), "author"@)),
{
    if let Some(a) = json_get(entry, "author") {
        let value = match json_get(a, "name") {
            Some(name) => name,
            None => a,
        };
        if let Some(t) = json_str(value) {
            return t.to_owned();
        }
    }
    let none = String::new();
    assert(none@ =~= Seq::<char>::empty());
    none
}

/// The lines of the log, from the reply of the server: one for each entry. A
/// reply that is no list has none.
pub fn print_log(value: &serde_json::Value) -> (lines: Vec<String>)
    ensures
        views(lines@) == elements(Some(json(*value))).map_values(|e: JsonView| entry_text(e)),
{
    let mut lines: Vec<String> = Vec::new();
    let ghost all = elements(Some(json(*value))).map_values(|e: JsonView| entry_text(e));
    match json_array(value) {
        None => {
            assert(views(lines@) =~= all);
        },
        Some(list) => {
            let mut i: usize = 0;
            assert(views(lines@) =~= all.take(0));
            while i < list.len()
                invariant
                    json(*value).node == JsonNode::Array(jsons(list@)),
                    all == elements(Some(json(*value))).map_values(|e: JsonView| entry_text(e)),
                    i <= list@.len(),
                    views(lines@) == all.take(i as int),
                decreases list.len() - i,
            {
                let ghost before = lines@;
                let entry = &list[i];
                lines.push(
                    log_line(
                        get_text(entry, "oid").as_str(),
                        get_author(entry).as_str(),
                        get_text(entry, "message").as_str(),
                    ),
                );
                i = i + 1;
                assert(views(lines@) =~= views(before).push(entry_text(json(list@[i - 1]))));
                assert(all.take(i as int) =~= all.take(i - 1).push(all[i - 1]));
            }
            assert(all.take(i as int) =~= all);
        },
    }
    lines
}

} // verus!
