use ragfs_git::diff::validate_project_dir;
use ragfs_git::error::GitError;
use ragfs_git::oid::ObjectId;
use ragfs_git::tree_builder::{EntryKind, TreeEditor, TreeEntries, TreeEntry};

fn dummy_oid() -> ObjectId {
    ObjectId::null()
}

fn oid(byte: u8) -> ObjectId {
    ObjectId { bytes: [byte; 20] }
}

#[test]
fn test_empty_editor() {
    let editor = TreeEditor::empty();
    assert!(editor.root.is_empty());
    assert!(editor.subtrees.is_empty());
}

#[test]
fn test_upsert_single_file() {
    let mut editor = TreeEditor::empty();
    let oid = dummy_oid();

    editor.upsert("file.txt", oid).unwrap();

    assert_eq!(editor.root.len(), 1);
    let entry = editor.root.get("file.txt").unwrap();
    assert_eq!(entry.mode, EntryKind::Blob);
    assert_eq!(entry.oid, oid);
    assert_eq!(entry.filename, "file.txt");
}

#[test]
fn test_upsert_nested_path() {
    let mut editor = TreeEditor::empty();
    let oid = dummy_oid();

    editor.upsert("dir/subdir/file.txt", oid).unwrap();

    assert_eq!(editor.root.len(), 1);
    let dir_entry = editor.root.get("dir").unwrap();
    assert_eq!(dir_entry.mode, EntryKind::Tree);

    let dir_subtree = editor.subtrees.get("dir").unwrap();
    assert_eq!(dir_subtree.len(), 1);
    let subdir_entry = dir_subtree.get("subdir").unwrap();
    assert_eq!(subdir_entry.mode, EntryKind::Tree);

    let subdir_subtree = editor.subtrees.get("dir/subdir").unwrap();
    assert_eq!(subdir_subtree.len(), 1);
    let file_entry = subdir_subtree.get("file.txt").unwrap();
    assert_eq!(file_entry.mode, EntryKind::Blob);
    assert_eq!(file_entry.oid, oid);
}

#[test]
fn test_upsert_overwrite() {
    let mut editor = TreeEditor::empty();
    let oid1 = dummy_oid();
    let oid2 = ObjectId::from_hex(b"abcdef1234567890abcdef1234567890abcdef12").unwrap();

    editor.upsert("file.txt", oid1).unwrap();
    editor.upsert("file.txt", oid2).unwrap();

    let entry = editor.root.get("file.txt").unwrap();
    assert_eq!(entry.oid, oid2);
}

#[test]
fn test_upsert_empty_component_rejected() {
    let mut editor = TreeEditor::empty();
    let oid = dummy_oid();

    assert!(editor.upsert("", oid).is_err());
    assert!(editor.upsert("file//txt", oid).is_err());
    assert!(editor.upsert("/file.txt", oid).is_err());
    assert!(editor.upsert("file.txt/", oid).is_err());
}

#[test]
fn test_remove_existing() {
    let mut editor = TreeEditor::empty();
    let oid = dummy_oid();

    editor.upsert("dir/file.txt", oid).unwrap();
    assert_eq!(editor.root.len(), 1);

    editor.remove("dir/file.txt").unwrap();

    let dir_subtree = editor.subtrees.get("dir").unwrap();
    assert!(dir_subtree.is_empty());
}

#[test]
fn test_remove_nonexistent_is_noop() {
    let mut editor = TreeEditor::empty();
    editor.remove("nonexistent.txt").unwrap();
    editor.remove("dir/nonexistent.txt").unwrap();
}

#[test]
fn test_upsert_top_level_file() {
    let mut editor = TreeEditor::empty();
    let oid = dummy_oid();

    editor.upsert("top-level.txt", oid).unwrap();

    assert_eq!(editor.root.len(), 1);
    let entry = editor.root.get("top-level.txt").unwrap();
    assert_eq!(entry.mode, EntryKind::Blob);
    assert_eq!(entry.filename, "top-level.txt");
    assert_eq!(entry.oid, oid);
}

#[test]
fn test_remove_top_level_file() {
    let mut editor = TreeEditor::empty();
    let oid = dummy_oid();

    editor.upsert("single.txt", oid).unwrap();
    assert_eq!(editor.root.len(), 1);

    editor.remove("single.txt").unwrap();
    assert_eq!(editor.root.len(), 0);
}

#[test]
fn upsert_leaves_other_files_alone() {
    let mut editor = TreeEditor::empty();
    editor.upsert("a/x", oid(1)).unwrap();
    editor.upsert("a/y", oid(2)).unwrap();
    editor.upsert("b", oid(3)).unwrap();
    assert_eq!(editor.subtrees.get("a").unwrap().get("x").unwrap().oid, oid(1));
    assert_eq!(editor.subtrees.get("a").unwrap().get("y").unwrap().oid, oid(2));
    assert_eq!(editor.root.get("b").unwrap().oid, oid(3));
    assert_eq!(editor.root.len(), 2);
}

#[test]
fn remove_undoes_the_upsert_of_a_new_file() {
    let mut editor = TreeEditor::empty();
    editor.upsert("a/x", oid(1)).unwrap();
    editor.upsert("a/y", oid(2)).unwrap();
    editor.remove("a/y").unwrap();
    let entries = editor.subtrees.get("a").unwrap();
    assert_eq!(entries.len(), 1);
    assert_eq!(entries.get("x").unwrap().oid, oid(1));
}

#[test]
fn a_file_on_the_way_is_an_error_and_changes_nothing() {
    let mut editor = TreeEditor::empty();
    editor.upsert("a", oid(1)).unwrap();
    let err = editor.upsert("a/b", oid(2)).unwrap_err();
    assert_eq!(err, GitError::Other("path component 'a' is not a tree".to_string()));
    assert_eq!(editor.root.get("a").unwrap().oid, oid(1));
    assert_eq!(editor.root.get("a").unwrap().mode, EntryKind::Blob);
}

#[test]
fn upsert_subtree_hangs_in_a_whole_tree() {
    let mut editor = TreeEditor::empty();
    editor.upsert("res/proj/old.md", oid(1)).unwrap();
    editor.upsert("res/proj/deep/older.md", oid(2)).unwrap();
    editor.upsert("res/other.md", oid(3)).unwrap();
    editor.upsert_subtree("res/proj", oid(9)).unwrap();
    let entry = editor.subtrees.get("res").unwrap().get("proj").unwrap();
    assert_eq!(entry.mode, EntryKind::Tree);
    assert_eq!(entry.oid, oid(9));
    assert!(editor.subtrees.get("res/proj").is_none());
    assert!(editor.subtrees.get("res/proj/deep").is_none());
    assert_eq!(editor.subtrees.get("res").unwrap().get("other.md").unwrap().oid, oid(3));
}

#[test]
fn what_can_be_restored_is_what_the_editor_takes() {
    for dir in ["", "/", "a", "a/b", "/a", "a/", "a//b", "a b/\u{e9}"] {
        let taken = TreeEditor::empty().upsert_subtree(dir, oid(1)).is_ok();
        assert_eq!(validate_project_dir(dir).is_ok(), taken, "{dir:?}");
    }
}

#[test]
fn entries_come_in_order() {
    let mut editor = TreeEditor::empty();
    for name in ["b", "a.txt", "a", "a-b"] {
        editor.upsert(name, oid(1)).unwrap();
    }
    let names: Vec<&str> = (0..editor.root.len()).map(|i| editor.root.entry_at(i).0.as_str()).collect();
    assert_eq!(names, vec!["a", "a-b", "a.txt", "b"]);
}

#[test]
fn a_refused_upsert_changes_nothing() {
    let shape = |editor: &TreeEditor| {
        let list = |entries: &TreeEntries| -> Vec<TreeEntry> {
            (0..entries.len()).map(|i| entries.entry_at(i).1.clone()).collect()
        };
        let inner: Vec<(String, Vec<TreeEntry>)> = (0..editor.subtrees.len())
            .map(|i| {
                let (path, entries) = editor.subtrees.entry_at(i);
                (path.clone(), list(entries))
            })
            .collect();
        (list(&editor.root), inner)
    };
    let mut editor = TreeEditor::empty();
    editor.upsert("dir/file", oid(1)).unwrap();
    editor.upsert("dir/deep/other", oid(2)).unwrap();
    let before = shape(&editor);
    for refused in ["", "/a", "a/", "a//b", "dir/file/x", "dir/file/x/y", "dir/deep/other/z"] {
        assert!(editor.upsert(refused, oid(3)).is_err(), "{refused}");
        assert_eq!(shape(&editor), before, "{refused}");
    }
    editor.upsert("dir/deep/more/x", oid(3)).unwrap();
    assert_ne!(shape(&editor), before);
}
