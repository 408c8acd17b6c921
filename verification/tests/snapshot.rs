use serde_json::Value;

use ragfs_git::snapshot::{
    blob_note, commit_line, log_line, print_commit, print_log, print_metadata, print_restore,
    shorten, show_output, subject, ShowOutput,
};

fn json(text: &str) -> Value {
    serde_json::from_str(text).unwrap()
}

#[test]
fn commit_lines() {
    assert_eq!(
        print_commit(&json(r#"{"result": "created", "commit_oid": "abc", "changed": 3}"#)),
        "Created abc (3 files changed)"
    );
    assert_eq!(
        print_commit(&json(r#"{"result": "created", "commit_oid": 7, "changed": -1}"#)),
        "Created  (0 files changed)"
    );
    assert_eq!(print_commit(&json(r#"{"result": "noop"}"#)), "No changes \u{2014} nothing to commit");
    assert_eq!(print_commit(&json(r#"{"commit_oid": "abc"}"#)), "abc");
    assert_eq!(print_commit(&json("[]")), "");
    assert_eq!(commit_line("created", "x", 10), "Created x (10 files changed)");
}

#[test]
fn restore_lines() {
    assert_eq!(
        print_restore(&json(r#"{"diff": {"to_write": [1, 2], "to_delete": [], "unchanged": [3]}}"#)),
        Some(vec![
            "Dry-run:".to_string(),
            "  to_write:  2".to_string(),
            "  to_delete: 0".to_string(),
            "  unchanged: 1".to_string(),
        ])
    );
    assert_eq!(
        print_restore(&json(
            r#"{"result": "applied", "new_commit_oid": "0123456789abcdef", "source_commit": "short", "written": 4, "deleted": 5, "unchanged": 6}"#
        )),
        Some(vec!["Restored from  as 0123456789ab (4 written, 5 deleted, 6 unchanged)".to_string()])
    );
    assert_eq!(
        print_restore(&json(r#"{"result": "noop"}"#)),
        Some(vec!["Already at source \u{2014} no changes".to_string()])
    );
    // Anything else is left to be printed as JSON.
    assert_eq!(print_restore(&json(r#"{"result": "what"}"#)), None);
}

#[test]
fn metadata_lines() {
    assert_eq!(
        print_metadata(&json(
            r#"{"message": "m\n", "oid": "o", "author": {"name": "n"}, "parents": ["p", 1, "q"], "tree": null}"#
        )),
        vec![
            "oid: \"o\"".to_string(),
            "tree: null".to_string(),
            "author: {\"name\":\"n\"}".to_string(),
            "parents: [p, q]".to_string(),
            "".to_string(),
            "m\n".to_string(),
        ]
    );
    assert!(print_metadata(&json("{}")).is_empty());
}

#[test]
fn blob_notes() {
    let oid = "0123456789abcdef";
    assert_eq!(blob_note(5, oid, None), "Read 5 bytes from 0123456789ab");
    assert_eq!(blob_note(5, oid, Some("out.md")), "Wrote 5 bytes from 0123456789ab to out.md");
    assert_eq!(blob_note(0, "abc", None), "Read 0 bytes from abc");
}

#[test]
fn log_lines() {
    assert_eq!(
        print_log(&json(
            r#"[{"oid": "0123456789abcdef", "author": {"name": "ann"}, "message": "one\r\ntwo"},
                {"oid": "short", "author": "bob", "message": "three"},
                {"author": {"name": 1}}]"#
        )),
        vec![
            format!("0123456789ab  {:20}  one", "ann"),
            format!("short  {:20}  three", "bob"),
            format!("  {:20}  ", ""),
        ]
    );
    assert!(print_log(&json("{}")).is_empty());
    assert_eq!(
        log_line("x", "an author with a long name", "m"),
        "x  an author with a long name  m"
    );
}

#[test]
fn short_identifiers() {
    assert_eq!(shorten("0123456789ab").as_deref(), Some("0123456789ab"));
    assert_eq!(shorten("0123456789a"), None);
    assert_eq!(shorten("0123456789a\u{e9}"), None);
    assert_eq!(shorten("\u{e9}123456789xyz").as_deref(), Some("\u{e9}123456789x"));
}

#[test]
fn subjects() {
    for text in ["", "a", "a\n", "a\r\nb", "a\r", "\n", "\r\n", "a\rb\nc"] {
        assert_eq!(subject(text), text.lines().next().unwrap_or(""), "{text:?}");
    }
}

#[test]
fn where_a_shown_file_goes() {
    assert_eq!(show_output(false, false), ShowOutput::BytesAndNote);
    assert_eq!(show_output(false, true), ShowOutput::FileAndNote);
    assert_eq!(show_output(true, false), ShowOutput::Envelope);
    assert_eq!(show_output(true, true), ShowOutput::EnvelopeAndFile);
}
