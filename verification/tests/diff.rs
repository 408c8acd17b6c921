use ragfs_git::diff::{compute_subtree_diff, prune_candidates, validate_project_dir, RestoreDiff};
use ragfs_git::error::GitError;
use ragfs_git::oid::ObjectId;

fn oid(byte: u8) -> ObjectId {
    ObjectId { bytes: [byte; 20] }
}

#[test]
fn diff_empty_both() {
    let got = compute_subtree_diff(&[], &[]);
    assert_eq!(got, RestoreDiff { to_write: vec![], to_delete: vec![], unchanged: vec![] });
}

#[test]
fn diff_all_writes_when_head_empty() {
    let source = vec![("a.md".to_string(), oid(0xAA))];
    let got = compute_subtree_diff(&source, &[]);
    assert_eq!(got.to_write, vec![("a.md".to_string(), oid(0xAA))]);
    assert!(got.to_delete.is_empty());
    assert!(got.unchanged.is_empty());
}

#[test]
fn diff_all_deletes_when_source_empty() {
    let head = vec![("b.md".to_string(), oid(0xBB))];
    let got = compute_subtree_diff(&[], &head);
    assert!(got.to_write.is_empty());
    assert_eq!(got.to_delete, vec!["b.md".to_string()]);
    assert!(got.unchanged.is_empty());
}

#[test]
fn diff_unchanged_same_oid_same_path() {
    let entries = vec![("a.md".to_string(), oid(0xCC))];
    let got = compute_subtree_diff(&entries, &entries);
    assert!(got.to_write.is_empty());
    assert!(got.to_delete.is_empty());
    assert_eq!(got.unchanged, vec!["a.md".to_string()]);
}

#[test]
fn diff_overwrite_when_same_path_different_oid() {
    let source = vec![("a.md".to_string(), oid(0xAA))];
    let head = vec![("a.md".to_string(), oid(0xBB))];
    let got = compute_subtree_diff(&source, &head);
    assert_eq!(got.to_write, vec![("a.md".to_string(), oid(0xAA))]);
    assert!(got.to_delete.is_empty());
    assert!(got.unchanged.is_empty());
}

#[test]
fn diff_mixed_buckets_sorted_deterministically() {
    let source = vec![
        ("keep.md".to_string(), oid(0x11)),
        ("change.md".to_string(), oid(0x22)),
        ("new.md".to_string(), oid(0x33)),
    ];
    let head = vec![
        ("keep.md".to_string(), oid(0x11)),
        ("change.md".to_string(), oid(0x99)),
        ("gone.md".to_string(), oid(0x44)),
    ];
    let got = compute_subtree_diff(&source, &head);
    assert_eq!(
        got.to_write,
        vec![("change.md".to_string(), oid(0x22)), ("new.md".to_string(), oid(0x33))]
    );
    assert_eq!(got.to_delete, vec!["gone.md".to_string()]);
    assert_eq!(got.unchanged, vec!["keep.md".to_string()]);
}

#[test]
fn diff_handles_nested_paths() {
    let source = vec![
        ("docs/a.md".to_string(), oid(0xAA)),
        ("docs/sub/b.md".to_string(), oid(0xBB)),
    ];
    let head = vec![("docs/a.md".to_string(), oid(0xAA))];
    let got = compute_subtree_diff(&source, &head);
    assert_eq!(got.to_write, vec![("docs/sub/b.md".to_string(), oid(0xBB))]);
    assert!(got.to_delete.is_empty());
    assert_eq!(got.unchanged, vec!["docs/a.md".to_string()]);
}

#[test]
fn validate_rejects_empty_string() {
    let err = validate_project_dir("").unwrap_err();
    assert!(matches!(err, GitError::InvalidProjectDir(_)));
}

#[test]
fn validate_rejects_leading_slash() {
    assert!(matches!(
        validate_project_dir("/resources/proj_a").unwrap_err(),
        GitError::InvalidProjectDir(_)
    ));
}

#[test]
fn validate_rejects_trailing_slash() {
    assert!(matches!(
        validate_project_dir("resources/proj_a/").unwrap_err(),
        GitError::InvalidProjectDir(_)
    ));
}

#[test]
fn validate_rejects_double_slash() {
    assert!(matches!(
        validate_project_dir("resources//proj_a").unwrap_err(),
        GitError::InvalidProjectDir(_)
    ));
}

#[test]
fn validate_accepts_simple_path() {
    validate_project_dir("resources/proj_a").unwrap();
}

#[test]
fn validate_accepts_single_segment() {
    validate_project_dir("resources").unwrap();
}

#[test]
fn a_rejected_directory_is_shown_quoted() {
    let reason = |dir: &str| match validate_project_dir(dir).unwrap_err() {
        GitError::InvalidProjectDir(reason) => reason,
        other => panic!("expected InvalidProjectDir, got {other:?}"),
    };
    assert_eq!(reason(""), "project_dir must be non-empty");
    assert_eq!(reason("/a\tb"), "project_dir must not start or end with '/': \"/a\\tb\"");
    assert_eq!(reason("a//\u{e9}\""), "project_dir contains empty segment: \"a//\u{e9}\\\"\"");
}

#[test]
fn carrying_out_the_diff_gives_the_source() {
    let source = vec![("b".to_string(), oid(1)), ("a".to_string(), oid(2)), ("c".to_string(), oid(3))];
    let head = vec![("c".to_string(), oid(4)), ("z".to_string(), oid(5)), ("a".to_string(), oid(2))];
    let diff = compute_subtree_diff(&source, &head);
    let mut files: std::collections::BTreeMap<String, ObjectId> = head.into_iter().collect();
    for (path, id) in &diff.to_write {
        files.insert(path.clone(), *id);
    }
    for path in &diff.to_delete {
        files.remove(path);
    }
    let wanted: std::collections::BTreeMap<String, ObjectId> = source.into_iter().collect();
    assert_eq!(files, wanted);
}

#[test]
fn candidates_are_the_parents_deepest_first() {
    let dirs = prune_candidates(&vec![
        "nested/deep/y.md".to_string(),
        "nested/x.md".to_string(),
        "top.md".to_string(),
    ]);
    assert_eq!(dirs, vec!["nested/deep".to_string(), "nested".to_string()]);
    assert!(prune_candidates(&vec!["a.md".to_string()]).is_empty());
}

#[test]
fn the_order_of_the_files_does_not_count() {
    let entry = |path: &str, byte: u8| (path.to_string(), oid(byte));
    let mut source = vec![entry("b", 1), entry("a", 2), entry("d", 3), entry("c", 4)];
    let mut head = vec![entry("z", 1), entry("d", 3), entry("a", 9), entry("y", 2)];
    let expected = compute_subtree_diff(&source, &head);
    assert_eq!(
        expected,
        RestoreDiff {
            to_write: vec![entry("a", 2), entry("b", 1), entry("c", 4)],
            to_delete: vec!["y".to_string(), "z".to_string()],
            unchanged: vec!["d".to_string()],
        }
    );
    for _ in 0..4 {
        source.rotate_left(1);
        head.reverse();
        assert_eq!(compute_subtree_diff(&source, &head), expected);
    }
}
